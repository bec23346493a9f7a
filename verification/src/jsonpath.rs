//! Structural paths into a document, and the ignore-pattern matcher.
//!
//! A path is an ordered sequence of segments; a segment is an array index,
//! an object key, the wildcard `*`, or a regular expression matched against
//! keys. Paths double as ignore patterns: [`JsonPath::can_ignore`] decides
//! whether a pattern covers a concrete path.

use vstd::prelude::*;
use vstd::string::StrSliceExecFns;
use vstd::string::StringExecFns;

verus! {

/// One step of a structural path.
#[derive(Clone, Debug, PartialEq, Eq)]
pub enum PathIndex {
    /// An array position.
    Index(usize),
    /// An object field name.
    Key(String),
    /// Wildcard: matches one segment of any kind and everything after it.
    Any,
    /// A regular expression; it covers a `Key` segment exactly when the
    /// key's whole text matches it, and never covers an `Index`.
    Regex(String),
}

/// Mathematical model of a [`PathIndex`].
pub enum PathIndexView {
    Index(nat),
    Key(Seq<char>),
    Any,
    Regex(Seq<char>),
}

impl View for PathIndex {
    type V = PathIndexView;

    open spec fn view(&self) -> PathIndexView {
        match self {
            PathIndex::Index(i) => PathIndexView::Index(*i as nat),
            PathIndex::Key(k) => PathIndexView::Key(k@),
            PathIndex::Any => PathIndexView::Any,
            PathIndex::Regex(r) => PathIndexView::Regex(r@),
        }
    }
}

/// Structural equality of two segments, as the models see it.
pub fn seg_eq(a: &PathIndex, b: &PathIndex) -> (r: bool)
    ensures
        r == (a@ == b@),
{
    match (a, b) {
        (PathIndex::Index(x), PathIndex::Index(y)) => *x == *y,
        (PathIndex::Key(x), PathIndex::Key(y)) => *x == *y,
        (PathIndex::Any, PathIndex::Any) => true,
        (PathIndex::Regex(x), PathIndex::Regex(y)) => *x == *y,
        _ => false,
    }
}

/// An ordered sequence of segments, root-implicit.
#[derive(Clone, Debug, PartialEq, Eq)]
pub struct JsonPath(pub Vec<PathIndex>);

impl View for JsonPath {
    type V = Seq<PathIndexView>;

    open spec fn view(&self) -> Seq<PathIndexView> {
        Seq::new(self.0@.len(), |i: int| self.0@[i]@)
    }
}

impl JsonPath {
    /// The empty path: the document root.
    pub fn new() -> (r: JsonPath)
        ensures
            r@ == Seq::<PathIndexView>::empty(),
    {
        let r = JsonPath(Vec::new());
        proof {
            assert(r@ =~= Seq::<PathIndexView>::empty());
        }
        r
    }

    /// Appends one segment at the end.
    pub fn extend(&mut self, exp: PathIndex)
        ensures
            final(self)@ == old(self)@.push(exp@),
    {
        let ghost pre = self@;
        let ghost ev = exp@;
        self.0.push(exp);
        proof {
            assert(self@ =~= pre.push(ev));
        }
    }

    /// The human-readable text of the path: segment renderings joined by
    /// `.`. Nothing is escaped; this is a diagnostic rendering, not a
    /// parseable serialization.
    pub fn show(&self) -> (r: String)
        ensures
            r@ == spec_show(self@),
    {
        let mut out: Vec<char> = Vec::new();
        let n = self.0.len();
        let mut i: usize = 0;
        while i < n
            invariant
                i <= n,
                n == self.0.len(),
                out@ == spec_show(self@.take(i as int)),
            decreases n - i,
        {
            if i > 0 {
                out.push('.');
            }
            let seg = self.0[i].to_string();
            let mut chars = str_to_chars(seg.as_str());
            proof {
                assert(chars@ == spec_seg_str(self@[i as int]));
                lemma_show_step(self@, i as int);
            }
            out.append(&mut chars);
            proof {
                assert(out@ =~= spec_show(self@.take(i + 1)));
            }
            i += 1;
        }
        proof {
            assert(self@.take(n as int) =~= self@);
        }
        chars_to_string(&out)
    }
}

/// One step of the rendering of a path: rendering one more segment appends
/// a dot (except before the first) and that segment's text.
proof fn lemma_show_step(p: Seq<PathIndexView>, i: int)
    requires
        0 <= i < p.len(),
    ensures
        spec_show(p.take(i + 1)) == if i == 0 {
            spec_seg_str(p[0])
        } else {
            spec_show(p.take(i)) + seq!['.'] + spec_seg_str(p[i])
        },
{
    let t = p.take(i + 1);
    if i == 0 {
        assert(t[0] == p[0]);
    } else {
        assert(t.drop_last() =~= p.take(i));
        assert(t.last() == p[i]);
    }
}

impl PathIndex {
    /// A copy of the segment.
    pub fn duplicate(&self) -> (r: PathIndex)
        ensures
            r@ == self@,
    {
        match self {
            PathIndex::Index(i) => PathIndex::Index(*i),
            PathIndex::Key(k) => PathIndex::Key(k.clone()),
            PathIndex::Any => PathIndex::Any,
            PathIndex::Regex(s) => PathIndex::Regex(s.clone()),
        }
    }
}

impl JsonPath {
    /// A copy of the path; extending the copy never touches the original,
    /// so sibling branches of a traversal may extend one parent path
    /// independently.
    pub fn duplicate(&self) -> (r: JsonPath)
        ensures
            r@ == self@,
    {
        let n = self.0.len();
        let mut v: Vec<PathIndex> = Vec::new();
        let mut i: usize = 0;
        while i < n
            invariant
                i <= n,
                n == self.0.len(),
                v@.len() == i,
                forall|j: int| 0 <= j < i ==> v@[j]@ == self@[j],
            decreases n - i,
        {
            v.push(self.0[i].duplicate());
            i += 1;
        }
        let r = JsonPath(v);
        proof {
            assert(r@ =~= self@);
        }
        r
    }
}

/// Structural equality of two paths, as the models see it.
pub fn path_eq(a: &JsonPath, b: &JsonPath) -> (r: bool)
    ensures
        r == (a@ == b@),
{
    if a.0.len() != b.0.len() {
        proof {
            assert(a@.len() != b@.len());
        }
        return false;
    }
    let n = a.0.len();
    let mut i: usize = 0;
    while i < n
        invariant
            i <= n,
            n == a.0.len(),
            n == b.0.len(),
            forall|j: int| 0 <= j < i ==> a@[j] == b@[j],
        decreases n - i,
    {
        if !seg_eq(&a.0[i], &b.0[i]) {
            proof {
                assert(a@[i as int] != b@[i as int]);
            }
            return false;
        }
        i += 1;
    }
    proof {
        assert(a@ =~= b@);
    }
    true
}

/// The decimal digit `d` as a character.
pub open spec fn spec_digit(d: nat) -> char
    recommends
        d < 10,
{
    (((d + 48) as nat) as u8) as char
}

/// The decimal rendering of `n`, most significant digit first, no sign and
/// no leading zero (`0` itself renders as one digit).
pub open spec fn spec_dec(n: nat) -> Seq<char>
    decreases n,
{
    if n < 10 {
        seq![spec_digit(n)]
    } else {
        spec_dec(n / 10) + seq![spec_digit(n % 10)]
    }
}

/// Appends the decimal rendering of `n` to `out`.
fn push_dec(n: usize, out: &mut Vec<char>)
    ensures
        final(out)@ == old(out)@ + spec_dec(n as nat),
    decreases n,
{
    if n < 10 {
        out.push(((n + 48) as u8) as char);
        proof {
            assert(out@ =~= old(out)@ + spec_dec(n as nat));
        }
    } else {
        push_dec(n / 10, out);
        out.push(((n % 10 + 48) as u8) as char);
        proof {
            assert(out@ =~= old(out)@ + spec_dec(n as nat));
        }
    }
}

/// The rendering of one segment: an index as its decimal value, a key as
/// its literal text, the wildcard as `*`, a regex as its pattern text.
pub open spec fn spec_seg_str(s: PathIndexView) -> Seq<char> {
    match s {
        PathIndexView::Index(n) => spec_dec(n),
        PathIndexView::Key(k) => k,
        PathIndexView::Any => seq!['*'],
        PathIndexView::Regex(r) => r,
    }
}

/// The rendering of a whole path: segment renderings joined by `.`.
pub open spec fn spec_show(p: Seq<PathIndexView>) -> Seq<char>
    decreases p.len(),
{
    if p.len() == 0 {
        Seq::empty()
    } else if p.len() == 1 {
        spec_seg_str(p[0])
    } else {
        spec_show(p.drop_last()) + seq!['.'] + spec_seg_str(p.last())
    }
}

/// The characters of `s`, in order.
fn str_to_chars(s: &str) -> (v: Vec<char>)
    ensures
        v@ == s@,
{
    let n = s.unicode_len();
    let mut v: Vec<char> = Vec::new();
    let mut i: usize = 0;
    while i < n
        invariant
            i <= n,
            n == s@.len(),
            v@ == s@.take(i as int),
        decreases n - i,
    {
        v.push(s.get_char(i));
        proof {
            assert(v@ =~= s@.take(i + 1));
        }
        i += 1;
    }
    proof {
        assert(v@ =~= s@);
    }
    v
}

/// Relies on `core::iter::Iterator::collect`: collecting characters into a
/// `String` yields exactly those characters, in order.
#[verifier::external_body]
fn chars_to_string(v: &Vec<char>) -> (s: String)
    ensures
        s@ == v@,
{
    v.iter().collect()
}

impl PathIndex {
    /// The human-readable text of this segment.
    pub fn to_string(&self) -> (r: String)
        ensures
            r@ == spec_seg_str(self@),
    {
        match self {
            PathIndex::Index(i) => {
                let mut v: Vec<char> = Vec::new();
                push_dec(*i, &mut v);
                chars_to_string(&v)
            },
            PathIndex::Key(k) => k.clone(),
            PathIndex::Any => {
                proof {
                    reveal_strlit("*");
                }
                let r = String::from_str("*");
                proof {
                    assert(r@ =~= seq!['*']);
                }
                r
            },
            PathIndex::Regex(r) => r.clone(),
        }
    }
}

/// Whether the pattern text `pat` is a valid regular expression.
pub uninterp spec fn regex_valid(pat: Seq<char>) -> bool;

/// Whether the whole of `text` matches the regular expression `pat`.
pub uninterp spec fn regex_full_matches(pat: Seq<char>, text: Seq<char>) -> bool;

/// Relies on `regex::Regex::new` (whether `pat` — and with it the anchored
/// form built here — compiles depends on `pat` alone) and
/// `regex::Regex::is_match`, called on the pattern anchored at both ends
/// (`^(?:pat)$`), so the result says whether `text` as a whole matches
/// `pat`; it depends on the two strings alone.
#[verifier::external_body]
fn regex_full_is_match(pat: &str, text: &str) -> (r: Option<bool>)
    ensures
        r is Some <==> regex_valid(pat@),
        r matches Some(b) ==> b == regex_full_matches(pat@, text@),
{
    if regex::Regex::new(pat).is_err() {
        return None;
    }
    match regex::Regex::new(&format!("^(?:{})$", pat)) {
        Ok(re) => Some(re.is_match(text)),
        Err(_) => None,
    }
}

/// The segment of `s` at position `i`, or `None` past the end.
pub open spec fn seg_at(s: Seq<PathIndexView>, i: int) -> Option<PathIndexView> {
    if 0 <= i < s.len() {
        Some(s[i])
    } else {
        None
    }
}

/// The longest-zip coverage walk from position `i` on: both sequences are
/// scanned together up to the length of the longer one.
///
/// At each position: a pattern `Any` decides true at once (it covers the
/// rest of the candidate, whatever it is); a pattern `Regex` against a
/// present candidate `Key` decides false at once when the key does not
/// match it as a whole; two present, unequal segments decide false; everything else —
/// equal segments, or a position past the end of either sequence — leaves
/// the walk undecided, and a walk that ends undecided is true. A pattern
/// that is a prefix of the candidate (or the other way round) with no
/// conflicting segment is therefore covering; that prefix absorption is
/// specified behaviour, not an accident.
pub open spec fn spec_covers_from(pat: Seq<PathIndexView>, cand: Seq<PathIndexView>, i: int) -> bool
    decreases (if pat.len() > cand.len() {
        pat.len() as int
    } else {
        cand.len() as int
    }) - i,
{
    if i >= pat.len() && i >= cand.len() {
        true
    } else {
        match (seg_at(pat, i), seg_at(cand, i)) {
            (Some(PathIndexView::Any), _) => true,
            (Some(PathIndexView::Regex(re)), Some(PathIndexView::Key(k))) => regex_full_matches(
                re,
                k,
            ) && spec_covers_from(pat, cand, i + 1),
            (Some(x), Some(y)) => x == y && spec_covers_from(pat, cand, i + 1),
            _ => spec_covers_from(pat, cand, i + 1),
        }
    }
}

/// Whether the ignore pattern `pat` covers the path `cand`: either the two
/// are equal segment for segment, or the longest-zip walk ends without a
/// conflict.
pub open spec fn spec_covers(pat: Seq<PathIndexView>, cand: Seq<PathIndexView>) -> bool {
    pat == cand || spec_covers_from(pat, cand, 0)
}

/// The walk from position `i` on ends without a conflict whenever the two
/// sequences agree at every later position where both are present.
proof fn lemma_covers_from_agreeing(pat: Seq<PathIndexView>, cand: Seq<PathIndexView>, i: int)
    requires
        0 <= i,
        forall|j: int| i <= j < pat.len() && j < cand.len() ==> pat[j] == cand[j],
    ensures
        spec_covers_from(pat, cand, i),
    decreases (if pat.len() > cand.len() {
        pat.len() as int
    } else {
        cand.len() as int
    }) - i,
{
    if i >= pat.len() && i >= cand.len() {
    } else {
        lemma_covers_from_agreeing(pat, cand, i + 1);
    }
}

/// Law: coverage is reflexive. A rule covers the very path it names.
pub proof fn lemma_covers_reflexive(p: Seq<PathIndexView>)
    ensures
        spec_covers(p, p),
{
}

/// Law: prefix absorption. A rule that agrees with the candidate at every
/// position where both have a segment covers the candidate; in particular a
/// rule that is a strict prefix of the candidate covers it, and so does a
/// candidate that is a strict prefix of the rule. This is specified
/// behaviour of the matcher, not an accident.
pub proof fn lemma_covers_agreeing(pat: Seq<PathIndexView>, cand: Seq<PathIndexView>)
    requires
        forall|j: int| 0 <= j < pat.len() && j < cand.len() ==> pat[j] == cand[j],
    ensures
        spec_covers(pat, cand),
{
    lemma_covers_from_agreeing(pat, cand, 0);
}

/// Law: wildcard universality. The pattern of one `Any` segment covers
/// every candidate path, of any length and content.
pub proof fn lemma_any_covers_all(cand: Seq<PathIndexView>)
    ensures
        spec_covers(seq![PathIndexView::Any], cand),
{
    let pat = seq![PathIndexView::Any];
    assert(seg_at(pat, 0) == Some(PathIndexView::Any));
    assert(spec_covers_from(pat, cand, 0));
}

/// Law: a pattern `k.*` — the key `k` then a wildcard — covers every
/// candidate whose first segment is that key, whatever the rest.
pub proof fn lemma_key_any_covers(k: Seq<char>, cand: Seq<PathIndexView>)
    requires
        cand.len() >= 1,
        cand[0] == PathIndexView::Key(k),
    ensures
        spec_covers(seq![PathIndexView::Key(k), PathIndexView::Any], cand),
{
    let pat = seq![PathIndexView::Key(k), PathIndexView::Any];
    assert(seg_at(pat, 0) == Some(PathIndexView::Key(k)));
    assert(seg_at(cand, 0) == Some(cand[0]));
    assert(seg_at(pat, 1) == Some(PathIndexView::Any));
    assert(spec_covers_from(pat, cand, 1));
    assert(spec_covers_from(pat, cand, 0));
}

impl JsonPath {
    /// Every regex segment of the path holds a pattern that compiles.
    pub open spec fn wf(&self) -> bool {
        forall|i: int|
            0 <= i < self@.len() ==> (#[trigger] self@[i] matches PathIndexView::Regex(re)
                ==> regex_valid(re))
    }

    /// Checks that every regex segment of the path compiles.
    pub fn is_wf(&self) -> (r: bool)
        ensures
            r == self.wf(),
    {
        let n = self.0.len();
        let mut i: usize = 0;
        while i < n
            invariant
                i <= n,
                n == self.0.len(),
                forall|j: int|
                    0 <= j < i ==> (#[trigger] self@[j] matches PathIndexView::Regex(re)
                        ==> regex_valid(re)),
            decreases n - i,
        {
            if let PathIndex::Regex(re) = &self.0[i] {
                if regex_full_is_match(re.as_str(), "").is_none() {
                    proof {
                        assert(self@[i as int] == PathIndexView::Regex(re@));
                    }
                    return false;
                }
            }
            i += 1;
        }
        true
    }

    /// Whether this path, read as an ignore pattern, covers `child`.
    ///
    /// The pattern's regex segments must compile; [`JsonPath::try_can_ignore`]
    /// checks that first instead of asking for it.
    pub fn can_ignore(&self, child: &JsonPath) -> (r: bool)
        requires
            self.wf(),
        ensures
            r == spec_covers(self@, child@),
    {
        if path_eq(self, child) {
            return true;
        }
        let plen = self.0.len();
        let clen = child.0.len();
        let n = if plen > clen {
            plen
        } else {
            clen
        };
        let mut i: usize = 0;
        while i < n
            invariant
                i <= n,
                plen == self.0.len(),
                clen == child.0.len(),
                n == (if plen > clen {
                    plen
                } else {
                    clen
                }),
                self.wf(),
                spec_covers_from(self@, child@, 0) == spec_covers_from(self@, child@, i as int),
            decreases n - i,
        {
            if i < plen {
                proof {
                    assert(seg_at(self@, i as int) == Some(self@[i as int]));
                }
                match &self.0[i] {
                    PathIndex::Any => {
                        return true;
                    },
                    PathIndex::Regex(re) => {
                        if i < clen {
                            proof {
                                assert(seg_at(child@, i as int) == Some(child@[i as int]));
                            }
                            if let PathIndex::Key(k) = &child.0[i] {
                                proof {
                                    assert(self@[i as int] == PathIndexView::Regex(re@));
                                }
                                let m = regex_full_is_match(re.as_str(), k.as_str());
                                if !m.unwrap() {
                                    return false;
                                }
                            } else {
                                if !seg_eq(&self.0[i], &child.0[i]) {
                                    return false;
                                }
                            }
                        }
                    },
                    _ => {
                        if i < clen {
                            proof {
                                assert(seg_at(child@, i as int) == Some(child@[i as int]));
                            }
                            if !seg_eq(&self.0[i], &child.0[i]) {
                                return false;
                            }
                        }
                    },
                }
            }
            i += 1;
        }
        true
    }

    /// Like [`JsonPath::can_ignore`], but checks first that the pattern's
    /// regex segments compile: `None` exactly when one of them does not.
    pub fn try_can_ignore(&self, child: &JsonPath) -> (r: Option<bool>)
        ensures
            r is Some <==> self.wf(),
            r matches Some(b) ==> b == spec_covers(self@, child@),
    {
        if self.is_wf() {
            Some(self.can_ignore(child))
        } else {
            None
        }
    }
}

/// The position of the first `c` in `s` at or after `i`, or `s.len()` if
/// there is none.
pub open spec fn spec_find(s: Seq<char>, i: int, c: char) -> int
    decreases s.len() - i,
{
    if i < 0 || i >= s.len() {
        s.len() as int
    } else if s[i] == c {
        i
    } else {
        spec_find(s, i + 1, c)
    }
}

proof fn lemma_find(s: Seq<char>, i: int, c: char)
    requires
        0 <= i <= s.len(),
    ensures
        i <= spec_find(s, i, c) <= s.len(),
        spec_find(s, i, c) < s.len() ==> s[spec_find(s, i, c)] == c,
        forall|j: int| i <= j < spec_find(s, i, c) ==> s[j] != c,
    decreases s.len() - i,
{
    if i < s.len() && s[i] != c {
        lemma_find(s, i + 1, c);
    }
}

/// Whether `c` is a decimal digit.
pub open spec fn spec_is_digit(c: char) -> bool {
    48 <= c as int <= 57
}

/// Every character of `s` is a decimal digit.
pub open spec fn spec_all_digits(s: Seq<char>) -> bool {
    forall|j: int| 0 <= j < s.len() ==> spec_is_digit(#[trigger] s[j])
}

/// The numeric value of a run of decimal digits, most significant first.
pub open spec fn spec_digits_val(s: Seq<char>) -> nat
    decreases s.len(),
{
    if s.len() == 0 {
        0
    } else {
        spec_digits_val(s.drop_last()) * 10 + (s.last() as int - 48) as nat
    }
}

/// The model of a sequence of segments.
pub open spec fn segs_view(v: Seq<PathIndex>) -> Seq<PathIndexView> {
    Seq::new(v.len(), |i: int| v[i]@)
}

proof fn lemma_segs_view_push(v: Seq<PathIndex>, x: PathIndex)
    ensures
        segs_view(v.push(x)) == segs_view(v) + seq![x@],
{
    assert(segs_view(v.push(x)) =~= segs_view(v) + seq![x@]);
}

/// The segments parsed from position `i` of a pattern text on, or `None`
/// if the text from `i` on is malformed.
///
/// At `i` the text must be exhausted or hold `.` followed by one token:
/// `"k"` a quoted key, `[n]` a decimal index that fits the machine, `<r>` a
/// regular expression that compiles, `*` alone the wildcard, and any other
/// non-empty run up to the next `.` a bare key.
pub open spec fn spec_parse_from(s: Seq<char>, i: int) -> Option<Seq<PathIndexView>>
    recommends
        0 <= i <= s.len(),
    decreases s.len() - i,
    via spec_parse_from_dec
{
    if i >= s.len() {
        Some(Seq::empty())
    } else if s[i] != '.' {
        None
    } else if i + 1 >= s.len() {
        None
    } else if s[i + 1] == '"' {
        let j = spec_find(s, i + 2, '"');
        if j >= s.len() {
            None
        } else {
            match spec_parse_from(s, j + 1) {
                Some(rest) => Some(seq![PathIndexView::Key(s.subrange(i + 2, j))] + rest),
                None => None,
            }
        }
    } else if s[i + 1] == '[' {
        let j = spec_find(s, i + 2, ']');
        let digits = s.subrange(i + 2, j);
        if j >= s.len() || digits.len() == 0 || !spec_all_digits(digits) || spec_digits_val(digits)
            > usize::MAX as nat {
            None
        } else {
            match spec_parse_from(s, j + 1) {
                Some(rest) => Some(seq![PathIndexView::Index(spec_digits_val(digits))] + rest),
                None => None,
            }
        }
    } else if s[i + 1] == '<' {
        let j = spec_find(s, i + 2, '>');
        if j >= s.len() || !regex_valid(s.subrange(i + 2, j)) {
            None
        } else {
            match spec_parse_from(s, j + 1) {
                Some(rest) => Some(seq![PathIndexView::Regex(s.subrange(i + 2, j))] + rest),
                None => None,
            }
        }
    } else if s[i + 1] == '*' && (i + 2 >= s.len() || s[i + 2] == '.') {
        match spec_parse_from(s, i + 2) {
            Some(rest) => Some(seq![PathIndexView::Any] + rest),
            None => None,
        }
    } else {
        let j = spec_find(s, i + 1, '.');
        if j == i + 1 {
            None
        } else {
            match spec_parse_from(s, j) {
                Some(rest) => Some(seq![PathIndexView::Key(s.subrange(i + 1, j))] + rest),
                None => None,
            }
        }
    }
}

#[via_fn]
proof fn spec_parse_from_dec(s: Seq<char>, i: int) {
    if 0 <= i + 2 && i + 2 <= s.len() {
        lemma_find(s, i + 2, '"');
        lemma_find(s, i + 2, ']');
        lemma_find(s, i + 2, '>');
    }
    if 0 <= i + 1 && i + 1 <= s.len() {
        lemma_find(s, i + 1, '.');
    }
}

/// The path parsed from a whole pattern text: a leading `$` marks the
/// root and is not itself a segment; the segments follow.
pub open spec fn spec_parse(s: Seq<char>) -> Option<Seq<PathIndexView>> {
    if s.len() == 0 || s[0] != '$' {
        None
    } else {
        spec_parse_from(s, 1)
    }
}

/// The position of the first `c` in `s` at or after `i`, or the length.
fn find_char(s: &Vec<char>, i: usize, c: char) -> (r: usize)
    requires
        i <= s@.len(),
    ensures
        r as int == spec_find(s@, i as int, c),
{
    let n = s.len();
    let mut k: usize = i;
    while k < n
        invariant
            i <= k <= n,
            n == s@.len(),
            spec_find(s@, i as int, c) == spec_find(s@, k as int, c),
        decreases n - k,
    {
        if s[k] == c {
            return k;
        }
        k += 1;
    }
    n
}

/// The characters of `s` from `a` up to `b`.
fn sub_chars(s: &Vec<char>, a: usize, b: usize) -> (v: Vec<char>)
    requires
        a <= b <= s@.len(),
    ensures
        v@ == s@.subrange(a as int, b as int),
{
    let mut v: Vec<char> = Vec::new();
    let mut k: usize = a;
    while k < b
        invariant
            a <= k <= b <= s@.len(),
            v@ == s@.subrange(a as int, k as int),
        decreases b - k,
    {
        v.push(s[k]);
        proof {
            assert(v@ =~= s@.subrange(a as int, k + 1));
        }
        k += 1;
    }
    v
}

/// The value of the digit run `s[a..b]`: `None` when the run is empty,
/// holds a non-digit, or does not fit the machine.
fn parse_digits(s: &Vec<char>, a: usize, b: usize) -> (r: Option<usize>)
    requires
        a <= b <= s@.len(),
    ensures
        r is Some <==> (b > a && spec_all_digits(s@.subrange(a as int, b as int))
            && spec_digits_val(s@.subrange(a as int, b as int)) <= usize::MAX as nat),
        r matches Some(v) ==> v as nat == spec_digits_val(s@.subrange(a as int, b as int)),
{
    let ghost whole = s@.subrange(a as int, b as int);
    if b == a {
        return None;
    }
    let mut val: Option<usize> = Some(0);
    let mut k: usize = a;
    while k < b
        invariant
            a <= k <= b <= s@.len(),
            whole == s@.subrange(a as int, b as int),
            spec_all_digits(s@.subrange(a as int, k as int)),
            match val {
                Some(v) => v as nat == spec_digits_val(s@.subrange(a as int, k as int)),
                None => spec_digits_val(s@.subrange(a as int, k as int)) > usize::MAX as nat,
            },
        decreases b - k,
    {
        let c = s[k];
        if !('0' <= c && c <= '9') {
            proof {
                assert(whole[k - a] == c);
                assert(!spec_is_digit(whole[k - a]));
            }
            return None;
        }
        let d: usize = (c as u8 - 48) as usize;
        let ghost pre = s@.subrange(a as int, k as int);
        let ghost cur = s@.subrange(a as int, k + 1);
        proof {
            assert(cur.drop_last() =~= pre);
            assert(cur.last() == c);
        }
        val = match val {
            Some(v) => {
                match v.checked_mul(10) {
                    Some(m) => m.checked_add(d),
                    None => None,
                }
            },
            None => {
                proof {
                    assert(spec_digits_val(cur) >= spec_digits_val(pre)) by (nonlinear_arith)
                        requires
                            spec_digits_val(cur) == spec_digits_val(pre) * 10 + (c as int - 48)
                                as nat,
                            48 <= c as int <= 57,
                    ;
                }
                None
            },
        };
        k += 1;
    }
    proof {
        assert(s@.subrange(a as int, b as int) =~= whole);
    }
    val
}

/// One parsing step: consuming the token that starts at `i` prepends its
/// segment to whatever the rest parses to.
proof fn lemma_parse_cons(all: Seq<PathIndexView>, acc: Seq<PathIndex>, x: PathIndex, rest: Seq<
    PathIndexView,
>)
    requires
        all == segs_view(acc) + (seq![x@] + rest),
    ensures
        all == segs_view(acc.push(x)) + rest,
{
    lemma_segs_view_push(acc, x);
    assert(segs_view(acc.push(x)) + rest =~= segs_view(acc) + (seq![x@] + rest));
}

/// Parses the `.`-separated tokens of `s` from position `start` on.
fn parse_from(s: &Vec<char>, start: usize) -> (r: Option<Vec<PathIndex>>)
    requires
        start <= s@.len(),
    ensures
        r is Some <==> spec_parse_from(s@, start as int) is Some,
        r matches Some(v) ==> Some(segs_view(v@)) == spec_parse_from(s@, start as int),
{
    let n = s.len();
    let mut acc: Vec<PathIndex> = Vec::new();
    let mut cur: usize = start;
    while cur < n
        invariant
            start <= cur <= n,
            n == s@.len(),
            spec_parse_from(s@, start as int) is Some <==> spec_parse_from(s@, cur as int) is Some,
            spec_parse_from(s@, start as int) matches Some(all) ==> all == segs_view(acc@)
                + spec_parse_from(s@, cur as int)->Some_0,
        decreases n - cur,
    {
        let ghost prev = cur as int;
        if s[cur] != '.' {
            return None;
        }
        let t = cur + 1;
        if t >= n {
            return None;
        }
        let c = s[t];
        let seg: PathIndex;
        if c == '"' {
            let j = find_char(s, t + 1, '"');
            proof {
                lemma_find(s@, t + 1 as int, '"');
            }
            if j >= n {
                return None;
            }
            let key = chars_to_string(&sub_chars(s, t + 1, j));
            seg = PathIndex::Key(key);
            cur = j + 1;
        } else if c == '[' {
            let j = find_char(s, t + 1, ']');
            proof {
                lemma_find(s@, t + 1 as int, ']');
            }
            if j >= n {
                return None;
            }
            match parse_digits(s, t + 1, j) {
                Some(v) => {
                    seg = PathIndex::Index(v);
                    cur = j + 1;
                },
                None => {
                    return None;
                },
            }
        } else if c == '<' {
            let j = find_char(s, t + 1, '>');
            proof {
                lemma_find(s@, t + 1 as int, '>');
            }
            if j >= n {
                return None;
            }
            let pat = chars_to_string(&sub_chars(s, t + 1, j));
            if regex_full_is_match(pat.as_str(), "").is_none() {
                return None;
            }
            seg = PathIndex::Regex(pat);
            cur = j + 1;
        } else if c == '*' && (t + 1 >= n || s[t + 1] == '.') {
            seg = PathIndex::Any;
            cur = t + 1;
        } else {
            let j = find_char(s, t, '.');
            proof {
                lemma_find(s@, t as int, '.');
            }
            if j == t {
                return None;
            }
            let key = chars_to_string(&sub_chars(s, t, j));
            seg = PathIndex::Key(key);
            cur = j;
        }
        proof {
            let ghost segv = seg@;
            let ghost rest = spec_parse_from(s@, cur as int);
            assert(spec_parse_from(s@, prev) == match rest {
                Some(r) => Some(seq![segv] + r),
                None => None,
            });
            if let Some(all) = spec_parse_from(s@, start as int) {
                lemma_parse_cons(all, acc@, seg, rest->Some_0);
            }
        }
        acc.push(seg);
    }
    proof {
        assert(spec_parse_from(s@, n as int) == Some(Seq::<PathIndexView>::empty()));
        if let Some(all) = spec_parse_from(s@, start as int) {
            assert(all =~= segs_view(acc@));
        }
    }
    Some(acc)
}

impl JsonPath {
    /// Parses an ignore-pattern text: a leading `$` for the root, then
    /// `.`-separated segments — `"k"` a quoted key, `[n]` an index, `<r>`
    /// a regex, `*` the wildcard, any other non-empty token a bare key.
    /// A text without the `$`, a malformed token, or a regex that does not
    /// compile is rejected; the error message ends with the offending text.
    pub fn from_str(exp: &str) -> (r: Result<JsonPath, String>)
        ensures
            r is Ok <==> spec_parse(exp@) is Some,
            r matches Ok(p) ==> Some(p@) == spec_parse(exp@),
            r matches Err(e) ==> e@.len() >= exp@.len() && e@.subrange(
                e@.len() - exp@.len(),
                e@.len() as int,
            ) == exp@,
    {
        let chars = str_to_chars(exp);
        if chars.len() == 0 || chars[0] != '$' {
            let mut msg = String::from_str("Invalid expression! Expression must start with '$': ");
            msg.append(exp);
            proof {
                assert(msg@.subrange(msg@.len() - exp@.len(), msg@.len() as int) =~= exp@);
            }
            return Err(msg);
        }
        match parse_from(&chars, 1) {
            Some(v) => {
                let p = JsonPath(v);
                proof {
                    assert(p@ =~= segs_view(v@));
                }
                Ok(p)
            },
            None => {
                let mut msg = String::from_str("Invalid path expression: ");
                msg.append(exp);
                proof {
                    assert(msg@.subrange(msg@.len() - exp@.len(), msg@.len() as int) =~= exp@);
                }
                Err(msg)
            },
        }
    }
}

} // verus!
