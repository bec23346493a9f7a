//! The document tree the engine works on.
//!
//! A tree is either a scalar leaf (null, boolean, number, string) or a
//! container (array, object). Containers are recursed into and never
//! compared as a unit; only scalar leaves are diffed. A number is carried
//! as its canonical decimal rendering, so two numbers are equal exactly
//! when their renderings are equal.

use crate::jsonpath::PathIndexView;
use vstd::prelude::*;

verus! {

/// A scalar leaf of a document, owned.
#[derive(Clone, Debug, PartialEq, Eq)]
pub enum Leaf {
    Null,
    Bool(bool),
    Num(String),
    Str(String),
}

/// Mathematical model of a [`Leaf`]: strings become character sequences.
pub enum LeafView {
    Null,
    Bool(bool),
    Num(Seq<char>),
    Str(Seq<char>),
}

impl View for Leaf {
    type V = LeafView;

    open spec fn view(&self) -> LeafView {
        match self {
            Leaf::Null => LeafView::Null,
            Leaf::Bool(b) => LeafView::Bool(*b),
            Leaf::Num(s) => LeafView::Num(s@),
            Leaf::Str(s) => LeafView::Str(s@),
        }
    }
}

/// Structural equality of two leaves, as the models see it.
pub fn leaf_eq(a: &Leaf, b: &Leaf) -> (r: bool)
    ensures
        r == (a@ == b@),
{
    match (a, b) {
        (Leaf::Null, Leaf::Null) => true,
        (Leaf::Bool(x), Leaf::Bool(y)) => *x == *y,
        (Leaf::Num(x), Leaf::Num(y)) => *x == *y,
        (Leaf::Str(x), Leaf::Str(y)) => *x == *y,
        _ => false,
    }
}

/// A JSON-like document tree.
#[derive(Debug, PartialEq, Eq)]
pub enum Json {
    Null,
    Bool(bool),
    Num(String),
    Str(String),
    Arr(Vec<Json>),
    Obj(Vec<(String, Json)>),
}

impl Leaf {
    /// A copy of the leaf.
    pub fn duplicate(&self) -> (r: Leaf)
        ensures
            r@ == self@,
    {
        match self {
            Leaf::Null => Leaf::Null,
            Leaf::Bool(b) => Leaf::Bool(*b),
            Leaf::Num(s) => Leaf::Num(s.clone()),
            Leaf::Str(s) => Leaf::Str(s.clone()),
        }
    }
}

/// The flattening of `j` rooted at `path`: one `(path, leaf)` pair for
/// every scalar descendant — array elements under their index in index
/// order, object fields under their key in field order. Containers
/// contribute no pair of their own.
pub open spec fn spec_flatten(j: Json, path: Seq<PathIndexView>) -> Seq<
    (Seq<PathIndexView>, LeafView),
>
    decreases j, 0int,
{
    match j {
        Json::Null => seq![(path, LeafView::Null)],
        Json::Bool(b) => seq![(path, LeafView::Bool(b))],
        Json::Num(s) => seq![(path, LeafView::Num(s@))],
        Json::Str(s) => seq![(path, LeafView::Str(s@))],
        Json::Arr(v) => spec_flatten_arr(v, path, 0),
        Json::Obj(m) => spec_flatten_obj(m, path, 0),
    }
}

/// The flattenings of the array elements from index `i` on, concatenated.
pub open spec fn spec_flatten_arr(v: Vec<Json>, path: Seq<PathIndexView>, i: int) -> Seq<
    (Seq<PathIndexView>, LeafView),
>
    decreases v, v@.len() - i,
{
    if i < 0 || i >= v@.len() {
        Seq::empty()
    } else {
        spec_flatten(v@[i], path.push(PathIndexView::Index(i as nat))) + spec_flatten_arr(
            v,
            path,
            i + 1,
        )
    }
}

/// The flattenings of the object fields from position `i` on, concatenated.
pub open spec fn spec_flatten_obj(m: Vec<(String, Json)>, path: Seq<PathIndexView>, i: int) -> Seq<
    (Seq<PathIndexView>, LeafView),
>
    decreases m, m@.len() - i,
{
    if i < 0 || i >= m@.len() {
        Seq::empty()
    } else {
        spec_flatten(m@[i].1, path.push(PathIndexView::Key(m@[i].0@))) + spec_flatten_obj(
            m,
            path,
            i + 1,
        )
    }
}

/// Every object of the tree names each of its fields once.
pub open spec fn json_wf(j: Json) -> bool
    decreases j,
{
    match j {
        Json::Arr(v) => forall|i: int| 0 <= i < v@.len() ==> json_wf(#[trigger] v@[i]),
        Json::Obj(m) => (forall|i: int, t: int|
            0 <= i < t < m@.len() ==> (#[trigger] m@[i]).0@ != (#[trigger] m@[t]).0@) && (forall|
            i: int,
        |
            0 <= i < m@.len() ==> json_wf(#[trigger] m@[i].1)),
        _ => true,
    }
}

/// Every path of a flattening extends the root path it was built from.
proof fn lemma_flatten_extends(j: Json, p: Seq<PathIndexView>, t: int)
    requires
        0 <= t < spec_flatten(j, p).len(),
    ensures
        spec_flatten(j, p)[t].0.len() >= p.len(),
        spec_flatten(j, p)[t].0.take(p.len() as int) == p,
    decreases j, 0int,
{
    match j {
        Json::Arr(v) => {
            lemma_flatten_arr_seg(v, p, 0, t);
        },
        Json::Obj(m) => {
            lemma_flatten_obj_seg(m, p, 0, t);
        },
        _ => {
            assert(spec_flatten(j, p)[t].0 == p);
            assert(p.take(p.len() as int) =~= p);
        },
    }
}

/// An entry of the array flattening from index `i` on sits under some
/// element: its path extends `p` by that element's index segment.
proof fn lemma_flatten_arr_seg(v: Vec<Json>, p: Seq<PathIndexView>, i: int, t: int)
    requires
        0 <= i,
        0 <= t < spec_flatten_arr(v, p, i).len(),
    ensures
        ({
            let q = spec_flatten_arr(v, p, i)[t].0;
            q.len() > p.len() && q.take(p.len() as int) == p && (q[p.len() as int] matches PathIndexView::Index(c) && i <= c < v@.len())
        }),
    decreases v, v@.len() - i,
{
    let child_p = p.push(PathIndexView::Index(i as nat));
    let child = spec_flatten(v@[i], child_p);
    let q = spec_flatten_arr(v, p, i)[t].0;
    if t < child.len() {
        lemma_flatten_extends(v@[i], child_p, t);
        assert(q == child[t].0);
        assert(q.take(child_p.len() as int) == child_p);
        assert(q.take(p.len() as int) =~= q.take(child_p.len() as int).take(p.len() as int));
        assert(q[p.len() as int] == child_p[p.len() as int]);
        assert(i <= i < v@.len() && q[p.len() as int] == PathIndexView::Index(i as nat));
    } else {
        lemma_flatten_arr_seg(v, p, i + 1, t - child.len());
        assert(q == spec_flatten_arr(v, p, i + 1)[t - child.len()].0);
    }
}

/// An entry of the object flattening from position `i` on sits under some
/// field: its path extends `p` by that field's key segment.
proof fn lemma_flatten_obj_seg(m: Vec<(String, Json)>, p: Seq<PathIndexView>, i: int, t: int)
    requires
        0 <= i,
        0 <= t < spec_flatten_obj(m, p, i).len(),
    ensures
        ({
            let q = spec_flatten_obj(m, p, i)[t].0;
            q.len() > p.len() && q.take(p.len() as int) == p && exists|c: int|
                i <= c < m@.len() && q[p.len() as int] == PathIndexView::Key((#[trigger] m@[c]).0@)
        }),
    decreases m, m@.len() - i,
{
    let child_p = p.push(PathIndexView::Key(m@[i].0@));
    let child = spec_flatten(m@[i].1, child_p);
    let q = spec_flatten_obj(m, p, i)[t].0;
    if t < child.len() {
        lemma_flatten_extends(m@[i].1, child_p, t);
        assert(q == child[t].0);
        assert(q.take(child_p.len() as int) == child_p);
        assert(q.take(p.len() as int) =~= q.take(child_p.len() as int).take(p.len() as int));
        assert(q[p.len() as int] == child_p[p.len() as int]);
        assert(i <= i < m@.len() && q[p.len() as int] == PathIndexView::Key(m@[i].0@));
    } else {
        lemma_flatten_obj_seg(m, p, i + 1, t - child.len());
        assert(q == spec_flatten_obj(m, p, i + 1)[t - child.len()].0);
    }
}

/// Law: a flattening's keys are unique by construction. In a tree whose
/// objects name each field once, the traversal visits each concrete path
/// exactly once: any two entries of the flattening carry distinct paths.
pub proof fn lemma_flatten_paths_unique(j: Json, p: Seq<PathIndexView>, t1: int, t2: int)
    requires
        json_wf(j),
        0 <= t1 < t2 < spec_flatten(j, p).len(),
    ensures
        spec_flatten(j, p)[t1].0 != spec_flatten(j, p)[t2].0,
    decreases j, 0int,
{
    match j {
        Json::Arr(v) => {
            lemma_flatten_arr_distinct(v, p, 0, t1, t2);
        },
        Json::Obj(m) => {
            lemma_flatten_obj_distinct(m, p, 0, t1, t2);
        },
        _ => {
        },
    }
}

proof fn lemma_flatten_arr_distinct(v: Vec<Json>, p: Seq<PathIndexView>, i: int, t1: int, t2: int)
    requires
        forall|c: int| 0 <= c < v@.len() ==> json_wf(#[trigger] v@[c]),
        0 <= i,
        0 <= t1 < t2 < spec_flatten_arr(v, p, i).len(),
    ensures
        spec_flatten_arr(v, p, i)[t1].0 != spec_flatten_arr(v, p, i)[t2].0,
    decreases v, v@.len() - i,
{
    let child_p = p.push(PathIndexView::Index(i as nat));
    let child = spec_flatten(v@[i], child_p);
    if t2 < child.len() {
        lemma_flatten_paths_unique(v@[i], child_p, t1, t2);
    } else if t1 >= child.len() {
        lemma_flatten_arr_distinct(v, p, i + 1, t1 - child.len(), t2 - child.len());
    } else {
        let q1 = spec_flatten_arr(v, p, i)[t1].0;
        let q2 = spec_flatten_arr(v, p, i)[t2].0;
        lemma_flatten_extends(v@[i], child_p, t1);
        assert(q1[p.len() as int] == child_p[p.len() as int]);
        lemma_flatten_arr_seg(v, p, i + 1, t2 - child.len());
        assert(q1[p.len() as int] == PathIndexView::Index(i as nat));
        assert(q1[p.len() as int] != q2[p.len() as int]);
    }
}

proof fn lemma_flatten_obj_distinct(
    m: Vec<(String, Json)>,
    p: Seq<PathIndexView>,
    i: int,
    t1: int,
    t2: int,
)
    requires
        forall|a: int, b: int| 0 <= a < b < m@.len() ==> (#[trigger] m@[a]).0@ != (
        #[trigger] m@[b]).0@,
        forall|c: int| 0 <= c < m@.len() ==> json_wf(#[trigger] m@[c].1),
        0 <= i,
        0 <= t1 < t2 < spec_flatten_obj(m, p, i).len(),
    ensures
        spec_flatten_obj(m, p, i)[t1].0 != spec_flatten_obj(m, p, i)[t2].0,
    decreases m, m@.len() - i,
{
    let child_p = p.push(PathIndexView::Key(m@[i].0@));
    let child = spec_flatten(m@[i].1, child_p);
    if t2 < child.len() {
        lemma_flatten_paths_unique(m@[i].1, child_p, t1, t2);
    } else if t1 >= child.len() {
        lemma_flatten_obj_distinct(m, p, i + 1, t1 - child.len(), t2 - child.len());
    } else {
        let q1 = spec_flatten_obj(m, p, i)[t1].0;
        let q2 = spec_flatten_obj(m, p, i)[t2].0;
        lemma_flatten_extends(m@[i].1, child_p, t1);
        assert(q1[p.len() as int] == child_p[p.len() as int]);
        lemma_flatten_obj_seg(m, p, i + 1, t2 - child.len());
        let c = choose|c: int|
            i + 1 <= c < m@.len() && q2[p.len() as int] == PathIndexView::Key((#[trigger] m@[c]).0@);
        assert(q1[p.len() as int] == PathIndexView::Key(m@[i].0@));
        assert(m@[i].0@ != m@[c].0@);
        assert(q1[p.len() as int] != q2[p.len() as int]);
    }
}

} // verus!
