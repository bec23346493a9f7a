//! The flatten–merge–classify pipeline.
//!
//! Each document is flattened to `(path, leaf)` pairs; the two sides are
//! merged by path; paths covered by an ignore rule are discarded; the rest
//! are kept exactly when the two sides differ under the chosen mode.

use crate::command::DiffCommand;
use crate::jsonpath::path_eq;
use crate::jsonpath::spec_covers;
use crate::jsonpath::JsonPath;
use crate::jsonpath::PathIndex;
use crate::jsonpath::PathIndexView;
use crate::tree::spec_flatten;
use crate::tree::spec_flatten_arr;
use crate::tree::spec_flatten_obj;
use crate::tree::Json;
use crate::tree::Leaf;
use crate::tree::LeafView;
use vstd::prelude::*;

verus! {

/// The model of a flattening: each pair by its views.
pub open spec fn flat_view(r: Seq<(JsonPath, Leaf)>) -> Seq<(Seq<PathIndexView>, LeafView)> {
    Seq::new(r.len(), |i: int| (r[i].0@, r[i].1@))
}

/// The model of a list of ignore rules.
pub open spec fn rules_view(r: Seq<JsonPath>) -> Seq<Seq<PathIndexView>> {
    Seq::new(r.len(), |i: int| r[i]@)
}

proof fn lemma_flat_view_add(a: Seq<(JsonPath, Leaf)>, b: Seq<(JsonPath, Leaf)>)
    ensures
        flat_view(a + b) == flat_view(a) + flat_view(b),
{
    assert(flat_view(a + b) =~= flat_view(a) + flat_view(b));
}

/// What the two documents hold at one path: the left and the right leaf,
/// either of which may be absent. At least one is present in every entry
/// the engine ever emits.
#[derive(Clone, Debug, PartialEq, Eq)]
pub struct JsonDiff {
    left: Option<Leaf>,
    right: Option<Leaf>,
}

/// The model of an optional leaf.
pub open spec fn opt_leaf_view(o: Option<Leaf>) -> Option<LeafView> {
    match o {
        Some(l) => Some(l@),
        None => None,
    }
}

impl View for JsonDiff {
    type V = (Option<LeafView>, Option<LeafView>);

    closed spec fn view(&self) -> (Option<LeafView>, Option<LeafView>) {
        (opt_leaf_view(self.left), opt_leaf_view(self.right))
    }
}

/// Whether a merged entry counts as a difference: in key-presence mode,
/// exactly one side is present; in full-value mode, the sides are unequal
/// (absence is unequal to any present value).
pub open spec fn spec_is_diff(l: Option<LeafView>, r: Option<LeafView>, key_only: bool) -> bool {
    if key_only {
        (l is None && r is Some) || (l is Some && r is None)
    } else {
        l != r
    }
}

impl JsonDiff {
    /// An entry with both sides absent.
    pub fn new() -> (r: JsonDiff)
        ensures
            r@ == (None::<LeafView>, None::<LeafView>),
    {
        JsonDiff { left: None, right: None }
    }

    /// Sets the left side.
    pub fn set_left(&mut self, left: Leaf)
        ensures
            final(self)@ == (Some(left@), old(self)@.1),
    {
        self.left = Some(left);
    }

    /// Sets the right side.
    pub fn set_right(&mut self, right: Leaf)
        ensures
            final(self)@ == (old(self)@.0, Some(right@)),
    {
        self.right = Some(right);
    }

    /// The left side, if present.
    pub fn get_left(&self) -> (r: Option<&Leaf>)
        ensures
            r matches Some(l) ==> self@.0 == Some(l@),
            r is Some <==> self@.0 is Some,
    {
        self.left.as_ref()
    }

    /// The right side, if present.
    pub fn get_right(&self) -> (r: Option<&Leaf>)
        ensures
            r matches Some(l) ==> self@.1 == Some(l@),
            r is Some <==> self@.1 is Some,
    {
        self.right.as_ref()
    }

    /// Whether the entry is a difference under the chosen mode.
    pub fn is_diff(&self, key_only: bool) -> (r: bool)
        ensures
            r == spec_is_diff(self@.0, self@.1, key_only),
    {
        if key_only {
            (self.left.is_none() && self.right.is_some()) || (self.left.is_some()
                && self.right.is_none())
        } else {
            match (&self.left, &self.right) {
                (None, None) => false,
                (Some(l), Some(r)) => !crate::tree::leaf_eq(l, r),
                _ => true,
            }
        }
    }
}

/// Flattens `json` into one `(path, leaf)` pair per scalar node reachable
/// from it, each path extending `path`; containers contribute no pair.
pub fn extract_json_pair(json: &Json, path: JsonPath) -> (r: Vec<(JsonPath, Leaf)>)
    ensures
        flat_view(r@) == spec_flatten(*json, path@),
    decreases *json,
{
    let ghost pv = path@;
    let mut json_pair: Vec<(JsonPath, Leaf)> = Vec::new();
    match json {
        Json::Null => {
            json_pair.push((path, Leaf::Null));
            proof {
                assert(flat_view(json_pair@) =~= spec_flatten(*json, pv));
            }
        },
        Json::Bool(b) => {
            json_pair.push((path, Leaf::Bool(*b)));
            proof {
                assert(flat_view(json_pair@) =~= spec_flatten(*json, pv));
            }
        },
        Json::Num(s) => {
            json_pair.push((path, Leaf::Num(s.clone())));
            proof {
                assert(flat_view(json_pair@) =~= spec_flatten(*json, pv));
            }
        },
        Json::Str(s) => {
            json_pair.push((path, Leaf::Str(s.clone())));
            proof {
                assert(flat_view(json_pair@) =~= spec_flatten(*json, pv));
            }
        },
        Json::Arr(v) => {
            let n = v.len();
            let mut i: usize = 0;
            while i < n
                invariant
                    i <= n,
                    n == v@.len(),
                    pv == path@,
                    *json == Json::Arr(*v),
                    flat_view(json_pair@) + spec_flatten_arr(*v, pv, i as int)
                        == spec_flatten_arr(*v, pv, 0),
                decreases n - i,
            {
                let mut sub_path = path.duplicate();
                sub_path.extend(PathIndex::Index(i));
                proof {
                    broadcast use vstd::std_specs::vec::axiom_vec_index_decreases;

                    assert(json->Arr_0 == *v);
                    assert(decreases_to!(*json => json->Arr_0));
                    assert(decreases_to!(*v => v[i as int]));
                    assert(decreases_to!(*json => v[i as int]));
                }
                let mut sub = extract_json_pair(&v[i], sub_path);
                let ghost pre = json_pair@;
                let ghost subv = sub@;
                json_pair.append(&mut sub);
                proof {
                    lemma_flat_view_add(pre, subv);
                    assert(spec_flatten_arr(*v, pv, i as int) == spec_flatten(
                        v@[i as int],
                        pv.push(PathIndexView::Index(i as nat)),
                    ) + spec_flatten_arr(*v, pv, i + 1));
                    assert(flat_view(json_pair@) + spec_flatten_arr(*v, pv, i + 1)
                        =~= spec_flatten_arr(*v, pv, 0));
                }
                i += 1;
            }
            proof {
                assert(flat_view(json_pair@) =~= spec_flatten_arr(*v, pv, 0));
            }
        },
        Json::Obj(m) => {
            let n = m.len();
            let mut i: usize = 0;
            while i < n
                invariant
                    i <= n,
                    n == m@.len(),
                    pv == path@,
                    *json == Json::Obj(*m),
                    flat_view(json_pair@) + spec_flatten_obj(*m, pv, i as int)
                        == spec_flatten_obj(*m, pv, 0),
                decreases n - i,
            {
                let mut sub_path = path.duplicate();
                sub_path.extend(PathIndex::Key(m[i].0.clone()));
                proof {
                    broadcast use vstd::std_specs::vec::axiom_vec_index_decreases;

                    assert(json->Obj_0 == *m);
                    assert(decreases_to!(*json => json->Obj_0));
                    assert(decreases_to!(*m => m[i as int]));
                    assert(decreases_to!(m[i as int] => m[i as int].1));
                    assert(decreases_to!(*json => m[i as int].1));
                }
                let mut sub = extract_json_pair(&m[i].1, sub_path);
                let ghost pre = json_pair@;
                let ghost subv = sub@;
                json_pair.append(&mut sub);
                proof {
                    lemma_flat_view_add(pre, subv);
                    assert(spec_flatten_obj(*m, pv, i as int) == spec_flatten(
                        m@[i as int].1,
                        pv.push(PathIndexView::Key(m@[i as int].0@)),
                    ) + spec_flatten_obj(*m, pv, i + 1));
                    assert(flat_view(json_pair@) + spec_flatten_obj(*m, pv, i + 1)
                        =~= spec_flatten_obj(*m, pv, 0));
                }
                i += 1;
            }
            proof {
                assert(flat_view(json_pair@) =~= spec_flatten_obj(*m, pv, 0));
            }
        },
    }
    json_pair
}

/// The value a flattening holds at `p`: the last pair keyed by `p`, if
/// any. A traversal of a well-formed document visits each concrete path
/// once, so for such flattenings "the last" is "the only".
pub open spec fn spec_lookup(
    flat: Seq<(Seq<PathIndexView>, LeafView)>,
    p: Seq<PathIndexView>,
) -> Option<LeafView>
    decreases flat.len(),
{
    if flat.len() == 0 {
        None
    } else if flat.last().0 == p {
        Some(flat.last().1)
    } else {
        spec_lookup(flat.drop_last(), p)
    }
}

/// Some rule of the list covers `p`.
pub open spec fn spec_rule_covers(rules: Seq<Seq<PathIndexView>>, p: Seq<PathIndexView>) -> bool {
    exists|k: int| 0 <= k < rules.len() && spec_covers(#[trigger] rules[k], p)
}

/// The merge of two flattenings: every path that occurs in either maps to
/// the pair of what the two sides hold there.
pub open spec fn merged_map(
    lf: Seq<(Seq<PathIndexView>, LeafView)>,
    rf: Seq<(Seq<PathIndexView>, LeafView)>,
) -> Map<Seq<PathIndexView>, (Option<LeafView>, Option<LeafView>)> {
    Map::new(
        |p: Seq<PathIndexView>| spec_lookup(lf, p) is Some || spec_lookup(rf, p) is Some,
        |p: Seq<PathIndexView>| (spec_lookup(lf, p), spec_lookup(rf, p)),
    )
}

/// The diff of two flattenings: the merged paths that no rule covers and
/// whose two sides differ under the mode.
pub open spec fn spec_diff_map(
    lf: Seq<(Seq<PathIndexView>, LeafView)>,
    rf: Seq<(Seq<PathIndexView>, LeafView)>,
    rules: Seq<Seq<PathIndexView>>,
    key_only: bool,
) -> Map<Seq<PathIndexView>, (Option<LeafView>, Option<LeafView>)> {
    Map::new(
        |p: Seq<PathIndexView>| (spec_lookup(lf, p) is Some || spec_lookup(rf, p) is Some)
            && !spec_rule_covers(rules, p) && spec_is_diff(
            spec_lookup(lf, p),
            spec_lookup(rf, p),
            key_only,
        ),
        |p: Seq<PathIndexView>| (spec_lookup(lf, p), spec_lookup(rf, p)),
    )
}

/// The comparison of two trees: the diff of their flattenings from the
/// root.
pub open spec fn spec_compare(
    left: Json,
    right: Json,
    rules: Seq<Seq<PathIndexView>>,
    key_only: bool,
) -> Map<Seq<PathIndexView>, (Option<LeafView>, Option<LeafView>)> {
    spec_diff_map(
        spec_flatten(left, Seq::empty()),
        spec_flatten(right, Seq::empty()),
        rules,
        key_only,
    )
}

/// The entries' paths are pairwise distinct.
pub open spec fn entries_distinct(r: Seq<(JsonPath, JsonDiff)>) -> bool {
    forall|i: int, j: int|
        0 <= i < j < r.len() ==> (#[trigger] r[i]).0@ != (#[trigger] r[j]).0@
}

/// The entry list read as a map from path to entry value.
pub open spec fn entries_map(r: Seq<(JsonPath, JsonDiff)>) -> Map<
    Seq<PathIndexView>,
    (Option<LeafView>, Option<LeafView>),
>
    decreases r.len(),
{
    if r.len() == 0 {
        Map::empty()
    } else {
        entries_map(r.drop_last()).insert(r.last().0@, r.last().1@)
    }
}

proof fn lemma_entries_map_contains(r: Seq<(JsonPath, JsonDiff)>, p: Seq<PathIndexView>)
    ensures
        entries_map(r).contains_key(p) <==> exists|i: int|
            0 <= i < r.len() && (#[trigger] r[i]).0@ == p,
    decreases r.len(),
{
    if r.len() > 0 {
        let dl = r.drop_last();
        lemma_entries_map_contains(dl, p);
        if r.last().0@ == p {
            assert(r[r.len() - 1].0@ == p);
        }
        if exists|i: int| 0 <= i < dl.len() && (#[trigger] dl[i]).0@ == p {
            let i = choose|i: int| 0 <= i < dl.len() && (#[trigger] dl[i]).0@ == p;
            assert(r[i].0@ == p);
        }
        if r.last().0@ != p && exists|i: int| 0 <= i < r.len() && (#[trigger] r[i]).0@ == p {
            let i = choose|i: int| 0 <= i < r.len() && (#[trigger] r[i]).0@ == p;
            assert(dl[i].0@ == p);
        }
    }
}

proof fn lemma_entries_distinct_drop_last(r: Seq<(JsonPath, JsonDiff)>)
    requires
        entries_distinct(r),
        r.len() > 0,
    ensures
        entries_distinct(r.drop_last()),
{
    let dl = r.drop_last();
    assert forall|i: int, j: int| 0 <= i < j < dl.len() implies (#[trigger] dl[i]).0@
        != (#[trigger] dl[j]).0@ by {
        assert(dl[i] == r[i]);
        assert(dl[j] == r[j]);
    }
}

proof fn lemma_entries_map_value(r: Seq<(JsonPath, JsonDiff)>, i: int)
    requires
        entries_distinct(r),
        0 <= i < r.len(),
    ensures
        entries_map(r).contains_key(r[i].0@),
        entries_map(r)[r[i].0@] == r[i].1@,
    decreases r.len(),
{
    if i == r.len() - 1 {
    } else {
        let dl = r.drop_last();
        lemma_entries_distinct_drop_last(r);
        lemma_entries_map_value(dl, i);
        assert(dl[i] == r[i]);
        assert(r[i].0@ != r[r.len() - 1].0@);
    }
}

proof fn lemma_entries_map_push(r: Seq<(JsonPath, JsonDiff)>, x: (JsonPath, JsonDiff))
    ensures
        entries_map(r.push(x)) == entries_map(r).insert(x.0@, x.1@),
{
    assert(r.push(x).drop_last() =~= r);
    assert(r.push(x).last() == x);
}

proof fn lemma_entries_map_update(r: Seq<(JsonPath, JsonDiff)>, i: int, p2: JsonPath, d: JsonDiff)
    requires
        entries_distinct(r),
        0 <= i < r.len(),
        p2@ == r[i].0@,
    ensures
        entries_map(r.update(i, (p2, d))) == entries_map(r).insert(r[i].0@, d@),
        entries_distinct(r.update(i, (p2, d))),
    decreases r.len(),
{
    let r2 = r.update(i, (p2, d));
    assert forall|a: int, b: int| 0 <= a < b < r2.len() implies (#[trigger] r2[a]).0@
        != (#[trigger] r2[b]).0@ by {
        assert(r2[a].0@ == r[a].0@);
        assert(r2[b].0@ == r[b].0@);
    }
    if i == r.len() - 1 {
        assert(r2.drop_last() =~= r.drop_last());
        assert(r2.last() == (p2, d));
        assert(entries_map(r2) =~= entries_map(r).insert(r[i].0@, d@));
    } else {
        let dl = r.drop_last();
        lemma_entries_distinct_drop_last(r);
        assert(dl[i] == r[i]);
        lemma_entries_map_update(dl, i, p2, d);
        assert(r2.drop_last() =~= dl.update(i, (p2, d)));
        assert(r2.last() == r.last());
        assert(r[i].0@ != r.last().0@);
        assert(entries_map(r2) =~= entries_map(r).insert(r[i].0@, d@));
    }
}

impl JsonDiff {
    /// A copy of the entry.
    pub fn duplicate(&self) -> (r: JsonDiff)
        ensures
            r@ == self@,
    {
        JsonDiff {
            left: match &self.left {
                Some(l) => Some(l.duplicate()),
                None => None,
            },
            right: match &self.right {
                Some(l) => Some(l.duplicate()),
                None => None,
            },
        }
    }
}

/// The position of the entry keyed by `p`, if the list holds one.
fn find_entry(acc: &Vec<(JsonPath, JsonDiff)>, p: &JsonPath) -> (r: Option<usize>)
    ensures
        r matches Some(i) ==> i < acc@.len() && acc@[i as int].0@ == p@,
        r is None ==> forall|i: int| 0 <= i < acc@.len() ==> (#[trigger] acc@[i]).0@ != p@,
{
    let n = acc.len();
    let mut i: usize = 0;
    while i < n
        invariant
            i <= n,
            n == acc@.len(),
            forall|j: int| 0 <= j < i ==> (#[trigger] acc@[j]).0@ != p@,
        decreases n - i,
    {
        if path_eq(&acc[i].0, p) {
            return Some(i);
        }
        i += 1;
    }
    None
}

/// Whether any rule of the list covers `p`. Rules are combined by
/// logical or: one covering rule suffices to exclude a path.
pub fn any_rule_covers(rules: &Vec<JsonPath>, p: &JsonPath) -> (r: bool)
    requires
        forall|k: int| 0 <= k < rules@.len() ==> (#[trigger] rules@[k]).wf(),
    ensures
        r == spec_rule_covers(rules_view(rules@), p@),
{
    let n = rules.len();
    let mut i: usize = 0;
    while i < n
        invariant
            i <= n,
            n == rules@.len(),
            forall|k: int| 0 <= k < rules@.len() ==> (#[trigger] rules@[k]).wf(),
            forall|j: int| 0 <= j < i ==> !spec_covers((#[trigger] rules@[j])@, p@),
        decreases n - i,
    {
        if rules[i].can_ignore(p) {
            proof {
                assert(rules_view(rules@)[i as int] == rules@[i as int]@);
            }
            return true;
        }
        i += 1;
    }
    proof {
        assert forall|j: int| 0 <= j < rules_view(rules@).len() implies !spec_covers(
            rules_view(rules@)[j],
            p@,
        ) by {
            assert(rules_view(rules@)[j] == rules@[j]@);
        }
    }
    false
}

/// Merges two flattenings into diff entries: unions them by path, drops
/// every path that some ignore rule covers, and keeps an entry exactly
/// when its two sides differ under the mode. The entries' paths are
/// pairwise distinct; their order carries no meaning.
pub fn merge_diff(
    left_pairs: &Vec<(JsonPath, Leaf)>,
    right_pairs: &Vec<(JsonPath, Leaf)>,
    ignore: &Vec<JsonPath>,
    key_only: bool,
) -> (r: Vec<(JsonPath, JsonDiff)>)
    requires
        forall|k: int| 0 <= k < ignore@.len() ==> (#[trigger] ignore@[k]).wf(),
    ensures
        entries_distinct(r@),
        entries_map(r@) == spec_diff_map(
            flat_view(left_pairs@),
            flat_view(right_pairs@),
            rules_view(ignore@),
            key_only,
        ),
{
    let ghost lf = flat_view(left_pairs@);
    let ghost rf = flat_view(right_pairs@);
    let ghost e0 = Seq::<(Seq<PathIndexView>, LeafView)>::empty();
    let mut acc: Vec<(JsonPath, JsonDiff)> = Vec::new();
    proof {
        assert(entries_map(acc@) =~= merged_map(lf.take(0), e0));
    }
    let nl = left_pairs.len();
    let mut k: usize = 0;
    while k < nl
        invariant
            k <= nl,
            nl == left_pairs@.len(),
            lf == flat_view(left_pairs@),
            entries_distinct(acc@),
            entries_map(acc@) == merged_map(lf.take(k as int), e0),
            e0 == Seq::<(Seq<PathIndexView>, LeafView)>::empty(),
            forall|i: int| 0 <= i < acc@.len() ==> (#[trigger] acc@[i]).1@.1 is None,
        decreases nl - k,
    {
        let leaf = left_pairs[k].1.duplicate();
        let ghost pre = acc@;
        let ghost key = left_pairs@[k as int].0@;
        let mut d = JsonDiff::new();
        d.set_left(leaf);
        match find_entry(&acc, &left_pairs[k].0) {
            Some(idx) => {
                let p2 = left_pairs[k].0.duplicate();
                proof {
                    lemma_entries_map_update(pre, idx as int, p2, d);
                }
                acc.set(idx, (p2, d));
            },
            None => {
                let p2 = left_pairs[k].0.duplicate();
                proof {
                    lemma_entries_map_push(pre, (p2, d));
                }
                acc.push((p2, d));
                proof {
                    assert forall|a: int, b: int| 0 <= a < b < acc@.len() implies (
                    #[trigger] acc@[a]).0@ != (#[trigger] acc@[b]).0@ by {
                        if b < acc@.len() - 1 {
                            assert(acc@[a] == pre[a] && acc@[b] == pre[b]);
                        } else {
                            assert(acc@[a] == pre[a]);
                        }
                    }
                }
            },
        }
        proof {
            assert(lf[k as int] == (left_pairs@[k as int].0@, left_pairs@[k as int].1@));
            assert(lf.take(k + 1).drop_last() =~= lf.take(k as int));
            assert(lf.take(k + 1).last() == lf[k as int]);
            assert(entries_map(acc@) =~= merged_map(lf.take(k + 1), e0));
        }
        k += 1;
    }
    proof {
        assert(lf.take(nl as int) =~= lf);
        assert(rf.take(0) =~= e0);
        assert(merged_map(lf, e0) =~= merged_map(lf, rf.take(0)));
    }
    let nr = right_pairs.len();
    let mut k: usize = 0;
    while k < nr
        invariant
            k <= nr,
            nr == right_pairs@.len(),
            lf == flat_view(left_pairs@),
            rf == flat_view(right_pairs@),
            entries_distinct(acc@),
            entries_map(acc@) == merged_map(lf, rf.take(k as int)),
        decreases nr - k,
    {
        let leaf = right_pairs[k].1.duplicate();
        let ghost pre = acc@;
        let ghost key = right_pairs@[k as int].0@;
        match find_entry(&acc, &right_pairs[k].0) {
            Some(idx) => {
                let old_left: Option<Leaf> = match acc[idx].1.get_left() {
                    Some(l) => Some(l.duplicate()),
                    None => None,
                };
                let mut d = JsonDiff::new();
                if let Some(l) = old_left {
                    d.set_left(l);
                }
                d.set_right(leaf);
                let p2 = right_pairs[k].0.duplicate();
                proof {
                    lemma_entries_map_value(pre, idx as int);
                    assert(d@ == (pre[idx as int].1@.0, Some(right_pairs@[k as int].1@)));
                    lemma_entries_map_update(pre, idx as int, p2, d);
                }
                acc.set(idx, (p2, d));
            },
            None => {
                proof {
                    lemma_entries_map_contains(pre, key);
                }
                let mut d = JsonDiff::new();
                d.set_right(leaf);
                let p2 = right_pairs[k].0.duplicate();
                proof {
                    lemma_entries_map_push(pre, (p2, d));
                }
                acc.push((p2, d));
                proof {
                    assert forall|a: int, b: int| 0 <= a < b < acc@.len() implies (
                    #[trigger] acc@[a]).0@ != (#[trigger] acc@[b]).0@ by {
                        if b < acc@.len() - 1 {
                            assert(acc@[a] == pre[a] && acc@[b] == pre[b]);
                        } else {
                            assert(acc@[a] == pre[a]);
                        }
                    }
                }
            },
        }
        proof {
            assert(rf[k as int] == (right_pairs@[k as int].0@, right_pairs@[k as int].1@));
            assert(rf.take(k + 1).drop_last() =~= rf.take(k as int));
            assert(rf.take(k + 1).last() == rf[k as int]);
            assert(entries_map(acc@) =~= merged_map(lf, rf.take(k + 1)));
        }
        k += 1;
    }
    proof {
        assert(rf.take(nr as int) =~= rf);
    }
    let ghost rv = rules_view(ignore@);
    let ghost dm = spec_diff_map(lf, rf, rv, key_only);
    let mut out: Vec<(JsonPath, JsonDiff)> = Vec::new();
    let na = acc.len();
    let mut k: usize = 0;
    while k < na
        invariant
            k <= na,
            na == acc@.len(),
            entries_distinct(acc@),
            entries_map(acc@) == merged_map(lf, rf),
            forall|t: int| 0 <= t < ignore@.len() ==> (#[trigger] ignore@[t]).wf(),
            rv == rules_view(ignore@),
            dm == spec_diff_map(lf, rf, rv, key_only),
            entries_distinct(out@),
            forall|p: Seq<PathIndexView>|
                #[trigger] entries_map(out@).contains_key(p) <==> (dm.contains_key(p) && exists|
                    i: int,
                |
                    0 <= i < k && (#[trigger] acc@[i]).0@ == p),
            forall|p: Seq<PathIndexView>|
                #[trigger] entries_map(out@).contains_key(p) ==> entries_map(out@)[p] == dm[p],
        decreases na - k,
    {
        let ignored = any_rule_covers(ignore, &acc[k].0);
        let keep = !ignored && acc[k].1.is_diff(key_only);
        let ghost key = acc@[k as int].0@;
        let ghost preo = out@;
        proof {
            lemma_entries_map_value(acc@, k as int);
            assert(merged_map(lf, rf).contains_key(key));
            assert(acc@[k as int].1@ == (spec_lookup(lf, key), spec_lookup(rf, key)));
            assert(keep == dm.contains_key(key));
        }
        if keep {
            let p2 = acc[k].0.duplicate();
            let d2 = acc[k].1.duplicate();
            proof {
                lemma_entries_map_push(preo, (p2, d2));
                if entries_map(preo).contains_key(key) {
                    let i = choose|i: int| 0 <= i < k && (#[trigger] acc@[i]).0@ == key;
                    assert(false);
                }
            }
            out.push((p2, d2));
            proof {
                assert(out@.drop_last() =~= preo);
                assert forall|a: int, b: int| 0 <= a < b < out@.len() implies (
                #[trigger] out@[a]).0@ != (#[trigger] out@[b]).0@ by {
                    if b < out@.len() - 1 {
                        assert(out@[a] == preo[a] && out@[b] == preo[b]);
                    } else {
                        assert(out@[a] == preo[a]);
                        lemma_entries_map_contains(preo, out@[b].0@);
                        assert(entries_map(preo).contains_key(out@[a].0@)
                            || !entries_map(preo).contains_key(out@[a].0@));
                        lemma_entries_map_contains(preo, out@[a].0@);
                    }
                }
            }
        }
        proof {
            assert forall|p: Seq<PathIndexView>| #[trigger]
                entries_map(out@).contains_key(p) <==> (dm.contains_key(p) && exists|i: int|
                    0 <= i < k + 1 && (#[trigger] acc@[i]).0@ == p) by {
                if entries_map(out@).contains_key(p) {
                    if p != key && entries_map(preo).contains_key(p) {
                        let i = choose|i: int| 0 <= i < k && (#[trigger] acc@[i]).0@ == p;
                        assert(0 <= i < k + 1 && acc@[i].0@ == p);
                    }
                    if p == key {
                        assert(0 <= k < k + 1 && acc@[k as int].0@ == p);
                    }
                }
                if dm.contains_key(p) && exists|i: int|
                    0 <= i < k + 1 && (#[trigger] acc@[i]).0@ == p {
                    let i = choose|i: int| 0 <= i < k + 1 && (#[trigger] acc@[i]).0@ == p;
                    if i < k {
                        assert(dm.contains_key(p) && exists|t: int|
                            0 <= t < k && (#[trigger] acc@[t]).0@ == p);
                    }
                }
            }
        }
        k += 1;
    }
    proof {
        assert(entries_map(out@) =~= dm) by {
            assert forall|p: Seq<PathIndexView>| #[trigger]
                dm.contains_key(p) implies entries_map(out@).contains_key(p) by {
                assert(merged_map(lf, rf).contains_key(p));
                lemma_entries_map_contains(acc@, p);
            }
        }
    }
    out
}

/// Compares two documents: flattens both, merges the flattenings by path,
/// discards every path that some ignore rule covers, and keeps an entry
/// exactly when its two sides differ under the command's mode. The result
/// is a set: entries keyed by pairwise distinct paths, in no meaningful
/// order.
///
/// The command's concurrency flag selects a computation strategy only and
/// never changes the result, so the engine computes sequentially; a caller
/// that flattens the two sides on concurrent tasks hands both flattenings
/// to [`merge_diff`] and gets the identical entries.
pub fn diff_json(left: &Json, right: &Json, command: &DiffCommand) -> (r: Vec<
    (JsonPath, JsonDiff),
>)
    requires
        forall|k: int|
            0 <= k < command.ignore_case@.len() ==> (#[trigger] command.ignore_case@[k]).wf(),
    ensures
        entries_distinct(r@),
        entries_map(r@) == spec_compare(
            *left,
            *right,
            rules_view(command.ignore_case@),
            command.key_only,
        ),
{
    let left_pairs = extract_json_pair(left, JsonPath::new());
    let right_pairs = extract_json_pair(right, JsonPath::new());
    merge_diff(&left_pairs, &right_pairs, &command.ignore_case, command.key_only)
}

/// Like [`diff_json`], but first checks that every ignore rule's regex
/// segments compile: `None` exactly when one of them does not.
pub fn try_diff_json(left: &Json, right: &Json, command: &DiffCommand) -> (r: Option<
    Vec<(JsonPath, JsonDiff)>,
>)
    ensures
        r is Some <==> (forall|k: int|
            0 <= k < command.ignore_case@.len() ==> (#[trigger] command.ignore_case@[k]).wf()),
        r matches Some(v) ==> entries_distinct(v@) && entries_map(v@) == spec_compare(
            *left,
            *right,
            rules_view(command.ignore_case@),
            command.key_only,
        ),
{
    let n = command.ignore_case.len();
    let mut i: usize = 0;
    while i < n
        invariant
            i <= n,
            n == command.ignore_case@.len(),
            forall|k: int| 0 <= k < i ==> (#[trigger] command.ignore_case@[k]).wf(),
        decreases n - i,
    {
        if !command.ignore_case[i].is_wf() {
            return None;
        }
        i += 1;
    }
    Some(diff_json(left, right, command))
}

/// Law: flattening is a function of the tree and the root path alone.
/// Two flattenings of one tree — run twice, or on two concurrent tasks —
/// are identical: same paths, same leaves, same order.
pub proof fn lemma_flatten_deterministic(
    a: Seq<(Seq<PathIndexView>, LeafView)>,
    b: Seq<(Seq<PathIndexView>, LeafView)>,
    j: Json,
    p: Seq<PathIndexView>,
)
    requires
        a == spec_flatten(j, p),
        b == spec_flatten(j, p),
    ensures
        a == b,
{
}

/// Law: reflexivity. A tree compared against itself, under no ignore
/// rules, in full-value mode, yields no difference at all.
pub proof fn lemma_compare_reflexive(j: Json)
    ensures
        spec_compare(j, j, Seq::empty(), false) == Map::<
            Seq<PathIndexView>,
            (Option<LeafView>, Option<LeafView>),
        >::empty(),
{
    let f = spec_flatten(j, Seq::empty());
    assert(spec_diff_map(f, f, Seq::empty(), false) =~= Map::<
        Seq<PathIndexView>,
        (Option<LeafView>, Option<LeafView>),
    >::empty());
}

/// Law: every reported entry holds at least one side. An entry exists
/// only for a path seen in at least one document, and its two halves are
/// exactly what the two flattenings hold at that path.
pub proof fn lemma_entry_one_side_present(
    lf: Seq<(Seq<PathIndexView>, LeafView)>,
    rf: Seq<(Seq<PathIndexView>, LeafView)>,
    rules: Seq<Seq<PathIndexView>>,
    key_only: bool,
    p: Seq<PathIndexView>,
)
    requires
        spec_diff_map(lf, rf, rules, key_only).contains_key(p),
    ensures
        spec_diff_map(lf, rf, rules, key_only)[p].0 is Some || spec_diff_map(
            lf,
            rf,
            rules,
            key_only,
        )[p].1 is Some,
        spec_diff_map(lf, rf, rules, key_only)[p] == (spec_lookup(lf, p), spec_lookup(rf, p)),
{
}

/// Law: strategy equivalence. The diff is a function of the two
/// flattenings alone, so a caller that computed them on two concurrent
/// tasks and merges them gets exactly the sequential comparison of the
/// two trees.
pub proof fn lemma_strategy_agreement(
    lf: Seq<(Seq<PathIndexView>, LeafView)>,
    rf: Seq<(Seq<PathIndexView>, LeafView)>,
    left: Json,
    right: Json,
    rules: Seq<Seq<PathIndexView>>,
    key_only: bool,
)
    requires
        lf == spec_flatten(left, Seq::empty()),
        rf == spec_flatten(right, Seq::empty()),
    ensures
        spec_diff_map(lf, rf, rules, key_only) == spec_compare(left, right, rules, key_only),
{
}

} // verus!
