use vstd::prelude::*;
use vstd::string::StringSliceAdditionalSpecFns;
use vstd::utf8::*;

use core::ops::Range;

use crate::attribute::Attribute;
use crate::events::{
    events_of, insert_event, lemma_encode_utf8_add, lemma_walk_renders, lemma_with_key_add,
    sorted_by_key, walk, with_key, Event,
};

verus! {

broadcast use vstd::utf8::group_utf8_lib;

/// An attribute attached to a half-open byte range.
pub struct AttributeRange {
    pub attr: Attribute,
    pub range: Range<usize>,
}

impl Clone for AttributeRange {
    fn clone(&self) -> (r: Self)
        ensures
            r == *self,
    {
        AttributeRange { attr: self.attr, range: Range { start: self.range.start, end: self.range.end } }
    }
}

/// A string together with attributes attached to byte ranges of it.
#[derive(Clone)]
pub struct AttributedString {
    attr_ranges: Vec<AttributeRange>,
    string: String,
}

/// `[start, end)` is an ordered range of `t` whose bounds fall on character
/// boundaries.
pub open spec fn valid_range(t: Seq<u8>, start: int, end: int) -> bool {
    &&& 0 <= start <= end <= t.len()
    &&& is_char_boundary(t, start)
    &&& is_char_boundary(t, end)
}

/// `[s1, e1)` and `[s2, e2)` overlap or touch.
pub open spec fn overlapping_or_adjacent(s1: int, e1: int, s2: int, e2: int) -> bool {
    (s1 <= e2 && e1 >= s2) || (s2 <= e1 && e2 >= s1)
}

pub open spec fn min_int(a: int, b: int) -> int {
    if a <= b { a } else { b }
}

pub open spec fn max_int(a: int, b: int) -> int {
    if a >= b { a } else { b }
}

/// A stored entry into which attaching `a` to `[s, e)` merges.
pub open spec fn mergeable(r: AttributeRange, a: Attribute, s: int, e: int) -> bool {
    r.attr == a && overlapping_or_adjacent(r.range.start as int, r.range.end as int, s, e)
}

/// The index of the first entry of `rs` into which attaching `a` to `[s, e)`
/// merges, or `rs.len()` when there is none.
pub open spec fn first_mergeable(rs: Seq<AttributeRange>, a: Attribute, s: int, e: int) -> int
    decreases rs.len(),
{
    if rs.len() == 0 {
        0
    } else {
        let f = first_mergeable(rs.drop_last(), a, s, e);
        if f < rs.len() - 1 {
            f
        } else if mergeable(rs.last(), a, s, e) {
            rs.len() - 1
        } else {
            rs.len() as int
        }
    }
}

/// The start of the entry that attaching `a` to `[s, e)` leaves: the least of
/// `s` and the starts of the entries that merge with the range.
pub open spec fn merged_start(rs: Seq<AttributeRange>, a: Attribute, s: usize, e: usize) -> usize
    decreases rs.len(),
{
    if rs.len() == 0 {
        s
    } else {
        let m = merged_start(rs.drop_last(), a, s, e);
        let r = rs.last();
        if mergeable(r, a, s as int, e as int) && r.range.start < m {
            r.range.start
        } else {
            m
        }
    }
}

/// The end of the entry that attaching `a` to `[s, e)` leaves: the greatest of
/// `e` and the ends of the entries that merge with the range.
pub open spec fn merged_end(rs: Seq<AttributeRange>, a: Attribute, s: usize, e: usize) -> usize
    decreases rs.len(),
{
    if rs.len() == 0 {
        e
    } else {
        let m = merged_end(rs.drop_last(), a, s, e);
        let r = rs.last();
        if mergeable(r, a, s as int, e as int) && r.range.end > m {
            r.range.end
        } else {
            m
        }
    }
}

/// The first `n` entries of `rs` after merging: entry `f` is replaced by `m`,
/// the other entries that merge with `[s, e)` are dropped, and the rest stay
/// in order.
pub open spec fn rebuilt(
    rs: Seq<AttributeRange>,
    n: int,
    f: int,
    m: AttributeRange,
    a: Attribute,
    s: usize,
    e: usize,
) -> Seq<AttributeRange>
    decreases n,
{
    if n <= 0 {
        seq![]
    } else {
        rebuilt(rs, n - 1, f, m, a, s, e) + if n - 1 == f {
            seq![m]
        } else if mergeable(rs[n - 1], a, s as int, e as int) {
            seq![]
        } else {
            seq![rs[n - 1]]
        }
    }
}

/// The entries after attaching `a` to `[s, e)`. An empty range changes
/// nothing. Otherwise every entry of `a` that overlaps or touches the range is
/// folded into one entry covering them all and the range; it stands where the
/// first of them stood, or at the end when there was none.
pub open spec fn attach(rs: Seq<AttributeRange>, a: Attribute, s: usize, e: usize) -> Seq<
    AttributeRange,
> {
    if s == e {
        rs
    } else {
        let f = first_mergeable(rs, a, s as int, e as int);
        let m = AttributeRange {
            attr: a,
            range: Range { start: merged_start(rs, a, s, e), end: merged_end(rs, a, s, e) },
        };
        let kept = rebuilt(rs, rs.len() as int, f, m, a, s, e);
        if f < rs.len() {
            kept
        } else {
            kept.push(m)
        }
    }
}

/// Two entries of different attributes, or of one attribute with at least one
/// byte between them.
pub open spec fn separate(x: AttributeRange, y: AttributeRange) -> bool {
    x.attr != y.attr || x.range.end < y.range.start || y.range.end < x.range.start
}

/// Every entry is a non-empty range on character boundaries of `t`, and no two
/// entries of one attribute overlap or touch.
pub open spec fn well_formed(t: Seq<u8>, rs: Seq<AttributeRange>) -> bool {
    &&& forall|i: int|
        0 <= i < rs.len() ==> {
            let r = #[trigger] rs[i].range;
            &&& r.start < r.end
            &&& valid_range(t, r.start as int, r.end as int)
        }
    &&& forall|i: int, j: int|
        0 <= i < rs.len() && 0 <= j < rs.len() && i != j ==> separate(#[trigger] rs[i], #[trigger] rs[j])
}

pub proof fn lemma_merged_bounds(rs: Seq<AttributeRange>, a: Attribute, s: usize, e: usize)
    ensures
        merged_start(rs, a, s, e) <= s,
        merged_start(rs, a, s, e) == s || exists|j: int|
            0 <= j < rs.len() && mergeable(#[trigger] rs[j], a, s as int, e as int)
                && rs[j].range.start == merged_start(rs, a, s, e),
        forall|j: int|
            0 <= j < rs.len() && mergeable(#[trigger] rs[j], a, s as int, e as int)
                ==> merged_start(rs, a, s, e) <= rs[j].range.start,
        merged_end(rs, a, s, e) >= e,
        merged_end(rs, a, s, e) == e || exists|j: int|
            0 <= j < rs.len() && mergeable(#[trigger] rs[j], a, s as int, e as int)
                && rs[j].range.end == merged_end(rs, a, s, e),
        forall|j: int|
            0 <= j < rs.len() && mergeable(#[trigger] rs[j], a, s as int, e as int)
                ==> rs[j].range.end <= merged_end(rs, a, s, e),
    decreases rs.len(),
{
    if rs.len() > 0 {
        let p = rs.drop_last();
        lemma_merged_bounds(p, a, s, e);
        assert forall|j: int| 0 <= j < p.len() implies p[j] == rs[j] by {}
        let ms = merged_start(p, a, s, e);
        let me = merged_end(p, a, s, e);
        if ms != s {
            let j = choose|j: int|
                0 <= j < p.len() && mergeable(#[trigger] p[j], a, s as int, e as int)
                    && p[j].range.start == ms;
            assert(rs[j] == p[j]);
        }
        if me != e {
            let j = choose|j: int|
                0 <= j < p.len() && mergeable(#[trigger] p[j], a, s as int, e as int)
                    && p[j].range.end == me;
            assert(rs[j] == p[j]);
        }
        assert(rs[rs.len() - 1] == rs.last());
    }
}

/// An entry that stays apart from `[s, e)` stays apart from the merged entry.
proof fn lemma_kept_separate(
    t: Seq<u8>,
    rs: Seq<AttributeRange>,
    a: Attribute,
    s: usize,
    e: usize,
    j: int,
)
    requires
        well_formed(t, rs),
        s < e,
        0 <= j < rs.len(),
        !mergeable(rs[j], a, s as int, e as int),
    ensures
        separate(
            rs[j],
            AttributeRange {
                attr: a,
                range: Range { start: merged_start(rs, a, s, e), end: merged_end(rs, a, s, e) },
            },
        ),
{
    lemma_merged_bounds(rs, a, s, e);
    let x = rs[j];
    let ms = merged_start(rs, a, s, e);
    let me = merged_end(rs, a, s, e);
    assert(x.range.start < x.range.end);
    if x.attr == a {
        if x.range.end < s {
            if ms != s {
                let y = choose|y: int|
                    0 <= y < rs.len() && mergeable(#[trigger] rs[y], a, s as int, e as int)
                        && rs[y].range.start == ms;
                assert(separate(rs[j], rs[y]));
            }
        } else {
            if me != e {
                let y = choose|y: int|
                    0 <= y < rs.len() && mergeable(#[trigger] rs[y], a, s as int, e as int)
                        && rs[y].range.end == me;
                assert(separate(rs[j], rs[y]));
            }
        }
    }
}

/// What `rebuilt` holds: the merged entry only in place of entry `f`, and
/// otherwise entries of `rs` before `n` that do not merge, each once.
pub proof fn lemma_rebuilt_well_formed(
    t: Seq<u8>,
    rs: Seq<AttributeRange>,
    a: Attribute,
    s: usize,
    e: usize,
    n: int,
)
    requires
        well_formed(t, rs),
        valid_range(t, s as int, e as int),
        s < e,
        0 <= n <= rs.len(),
    ensures
        ({
            let f = first_mergeable(rs, a, s as int, e as int);
            let m = AttributeRange {
                attr: a,
                range: Range { start: merged_start(rs, a, s, e), end: merged_end(rs, a, s, e) },
            };
            let out = rebuilt(rs, n, f, m, a, s, e);
            &&& well_formed(t, out)
            &&& forall|k: int|
                0 <= k < out.len() ==> (#[trigger] out[k] == m && f < n) || exists|j: int|
                    0 <= j < n && j != f && !mergeable(rs[j], a, s as int, e as int) && out[k]
                        == #[trigger] rs[j]
            &&& forall|k: int| 0 <= k < out.len() ==> separate(#[trigger] out[k], m) || (out[k] == m && f < n)
            &&& m.range.start < m.range.end
            &&& valid_range(t, m.range.start as int, m.range.end as int)
        }),
    decreases n,
{
    let f = first_mergeable(rs, a, s as int, e as int);
    let m = AttributeRange {
        attr: a,
        range: Range { start: merged_start(rs, a, s, e), end: merged_end(rs, a, s, e) },
    };
    lemma_merged_bounds(rs, a, s, e);
    lemma_first_mergeable(rs, a, s as int, e as int);
    assert(merged_start(rs, a, s, e) < merged_end(rs, a, s, e));
    assert(valid_range(t, merged_start(rs, a, s, e) as int, merged_end(rs, a, s, e) as int)) by {
        if merged_start(rs, a, s, e) != s {
            let y = choose|y: int|
                0 <= y < rs.len() && mergeable(#[trigger] rs[y], a, s as int, e as int)
                    && rs[y].range.start == merged_start(rs, a, s, e);
            assert(valid_range(t, rs[y].range.start as int, rs[y].range.end as int));
        }
        if merged_end(rs, a, s, e) != e {
            let y = choose|y: int|
                0 <= y < rs.len() && mergeable(#[trigger] rs[y], a, s as int, e as int)
                    && rs[y].range.end == merged_end(rs, a, s, e);
            assert(valid_range(t, rs[y].range.start as int, rs[y].range.end as int));
        }
    }
    if n > 0 {
        lemma_rebuilt_well_formed(t, rs, a, s, e, n - 1);
        let prev = rebuilt(rs, n - 1, f, m, a, s, e);
        let out = rebuilt(rs, n, f, m, a, s, e);
        let x = rs[n - 1];
        if n - 1 == f {
            assert(out == prev.push(m));
        } else if mergeable(x, a, s as int, e as int) {
            assert(out =~= prev);
        } else {
            assert(out == prev.push(x));
            lemma_kept_separate(t, rs, a, s, e, n - 1);
        }
        assert forall|k: int| 0 <= k < out.len() && k < prev.len() implies out[k] == prev[k] by {}
        assert forall|k: int| 0 <= k < out.len() implies (#[trigger] out[k] == m && f < n) || exists|j: int|
            0 <= j < n && j != f && !mergeable(rs[j], a, s as int, e as int) && out[k]
                == #[trigger] rs[j] by {
            if k < prev.len() {
                assert(out[k] == prev[k]);
                if !(prev[k] == m && f < n - 1) {
                    let j = choose|j: int|
                        0 <= j < n - 1 && j != f && !mergeable(rs[j], a, s as int, e as int)
                            && prev[k] == #[trigger] rs[j];
                    assert(out[k] == rs[j]);
                }
            } else if n - 1 != f {
                assert(out[k] == rs[n - 1]);
            }
        }
        assert forall|k: int| 0 <= k < out.len() implies separate(#[trigger] out[k], m) || (out[k] == m && f < n) by {
            if k < prev.len() {
                assert(out[k] == prev[k]);
            } else if n - 1 != f {
                assert(out[k] == rs[n - 1]);
            }
        }
        assert forall|i: int, k: int|
            0 <= i < out.len() && 0 <= k < out.len() && i != k implies separate(#[trigger] out[i], #[trigger] out[k]) by {
            if i < prev.len() && k < prev.len() {
                assert(out[i] == prev[i] && out[k] == prev[k]);
            } else if n - 1 == f {
                // one of them is the merged entry, the other an earlier kept entry
                let o = if i < prev.len() { i } else { k };
                assert(out[o] == prev[o]);
                if prev[o] == m && f < n - 1 {
                } else {
                    let j = choose|j: int|
                        0 <= j < n - 1 && j != f && !mergeable(rs[j], a, s as int, e as int)
                            && prev[o] == #[trigger] rs[j];
                    lemma_kept_separate(t, rs, a, s, e, j);
                }
            } else {
                let o = if i < prev.len() { i } else { k };
                assert(out[o] == prev[o]);
                if prev[o] == m && f < n - 1 {
                } else {
                    let j = choose|j: int|
                        0 <= j < n - 1 && j != f && !mergeable(rs[j], a, s as int, e as int)
                            && prev[o] == #[trigger] rs[j];
                    assert(separate(rs[j], rs[n - 1]));
                }
            }
        }
    }
}

/// Attaching a valid range keeps the entries well formed.
pub proof fn lemma_attach_well_formed(t: Seq<u8>, rs: Seq<AttributeRange>, a: Attribute, s: usize, e: usize)
    requires
        well_formed(t, rs),
        valid_range(t, s as int, e as int),
    ensures
        well_formed(t, attach(rs, a, s, e)),
{
    if s < e {
        lemma_rebuilt_well_formed(t, rs, a, s, e, rs.len() as int);
        lemma_first_mergeable(rs, a, s as int, e as int);
        let f = first_mergeable(rs, a, s as int, e as int);
        let m = AttributeRange {
            attr: a,
            range: Range { start: merged_start(rs, a, s, e), end: merged_end(rs, a, s, e) },
        };
        let kept = rebuilt(rs, rs.len() as int, f, m, a, s, e);
        if f == rs.len() {
            let out = kept.push(m);
            assert forall|i: int, k: int|
                0 <= i < out.len() && 0 <= k < out.len() && i != k implies separate(#[trigger] out[i], #[trigger] out[k]) by {
                if i < kept.len() && k < kept.len() {
                    assert(out[i] == kept[i] && out[k] == kept[k]);
                } else if i < kept.len() {
                    assert(out[i] == kept[i]);
                } else {
                    assert(out[k] == kept[k]);
                }
            }
            assert forall|i: int| 0 <= i < out.len() implies {
                let r = #[trigger] out[i].range;
                &&& r.start < r.end
                &&& valid_range(t, r.start as int, r.end as int)
            } by {
                if i < kept.len() {
                    assert(out[i] == kept[i]);
                }
            }
        }
    }
}

/// The escape codes that close the entries of `rs` ending at byte `p`, in the
/// order of the entries.
pub open spec fn closing(rs: Seq<AttributeRange>, p: int) -> Seq<char>
    decreases rs.len(),
{
    if rs.len() == 0 {
        seq![]
    } else {
        closing(rs.drop_last(), p) + if rs.last().range.end == p {
            rs.last().attr.disable_seq()
        } else {
            seq![]
        }
    }
}

/// The escape codes that open the entries of `rs` starting at byte `p`, in the
/// order of the entries.
pub open spec fn opening(rs: Seq<AttributeRange>, p: int) -> Seq<char>
    decreases rs.len(),
{
    if rs.len() == 0 {
        seq![]
    } else {
        opening(rs.drop_last(), p) + if rs.last().range.start == p {
            rs.last().attr.enable_seq()
        } else {
            seq![]
        }
    }
}

/// The rendering of the bytes of `t` from `p` on: before each byte, and after
/// the last, the codes that close the entries ending there, then those that
/// open the entries starting there.
pub open spec fn render_from(t: Seq<u8>, rs: Seq<AttributeRange>, p: int) -> Seq<u8>
    decreases t.len() - p,
{
    let codes = encode_utf8(closing(rs, p) + opening(rs, p));
    if 0 <= p < t.len() {
        codes + seq![t[p]] + render_from(t, rs, p + 1)
    } else {
        codes
    }
}

/// The bytes of `t` interleaved with the escape codes of `rs`.
pub open spec fn rendered(t: Seq<u8>, rs: Seq<AttributeRange>) -> Seq<u8> {
    render_from(t, rs, 0)
}

pub proof fn lemma_first_mergeable(rs: Seq<AttributeRange>, a: Attribute, s: int, e: int)
    ensures
        0 <= first_mergeable(rs, a, s, e) <= rs.len(),
        first_mergeable(rs, a, s, e) < rs.len() ==> mergeable(
            rs[first_mergeable(rs, a, s, e)],
            a,
            s,
            e,
        ),
        forall|j: int| 0 <= j < first_mergeable(rs, a, s, e) ==> !mergeable(#[trigger] rs[j], a, s, e),
    decreases rs.len(),
{
    if rs.len() > 0 {
        lemma_first_mergeable(rs.drop_last(), a, s, e);
        let f = first_mergeable(rs.drop_last(), a, s, e);
        assert forall|j: int| 0 <= j < f implies rs.drop_last()[j] == rs[j] by {}
    }
}

impl AttributedString {
    /// The characters of the underlying string.
    pub closed spec fn plain(&self) -> Seq<char> {
        self.string@
    }

    /// The UTF-8 bytes of the underlying string.
    pub open spec fn text(&self) -> Seq<u8> {
        encode_utf8(self.plain())
    }

    /// The attached entries, in the order in which they were stored.
    pub closed spec fn ranges(&self) -> Seq<AttributeRange> {
        self.attr_ranges@
    }

    /// Every entry is a non-empty range on character boundaries, and no two
    /// entries of one attribute overlap or touch.
    pub open spec fn wf(&self) -> bool {
        well_formed(self.text(), self.ranges())
    }

    /// Creates an attributed string with the given string and no attributes.
    pub fn new(string: &str) -> (r: Self)
        ensures
            r.wf(),
            r.plain() == string@,
            r.ranges() == Seq::<AttributeRange>::empty(),
    {
        AttributedString { attr_ranges: Vec::new(), string: string.to_owned() }
    }

    /// Attaches `attr` to the bytes in `range`. Every entry of `attr` that
    /// overlaps or touches `range` is folded into one entry covering them all
    /// and `range`, so that entries of one attribute stay apart.
    pub fn add_attr(&mut self, attr: Attribute, range: Range<usize>)
        requires
            old(self).wf(),
            valid_range(old(self).text(), range.start as int, range.end as int),
        ensures
            final(self).wf(),
            final(self).plain() == old(self).plain(),
            final(self).ranges() == attach(old(self).ranges(), attr, range.start, range.end),
            forall|i: int, j: int|
                0 <= i < final(self).ranges().len() && 0 <= j < final(self).ranges().len() && i != j
                    ==> separate(#[trigger] final(self).ranges()[i], #[trigger] final(self).ranges()[j]),
    {
        proof {
            lemma_attach_well_formed(self.text(), self.ranges(), attr, range.start, range.end);
        }
        if range.start == range.end {
            return ;
        }
        let ghost rs = self.attr_ranges@;
        let ghost a = attr;
        let ghost s = range.start;
        let ghost e = range.end;
        let n = self.attr_ranges.len();
        let mut hull = Range { start: range.start, end: range.end };
        let mut f: usize = n;
        let mut found = false;
        let mut i: usize = 0;
        while i < n
            invariant
                self.attr_ranges@ == rs,
                n == rs.len(),
                0 <= i <= n,
                a == attr,
                s == range.start,
                e == range.end,
                hull.start == merged_start(rs.take(i as int), a, s, e),
                hull.end == merged_end(rs.take(i as int), a, s, e),
                found == (first_mergeable(rs.take(i as int), a, s as int, e as int) < i),
                found ==> f == first_mergeable(rs.take(i as int), a, s as int, e as int),
                !found ==> f == n,
            decreases n - i,
        {
            let ghost p = rs.take(i as int);
            let ghost q = rs.take(i + 1);
            assert(q.drop_last() =~= p);
            assert(q.last() == rs[i as int]);
            let ar = &self.attr_ranges[i];
            if ar.attr == attr && is_overlapping_or_adjacent(&ar.range, &range) {
                if !found {
                    found = true;
                    f = i;
                }
                extend_to_cover(&mut hull, &ar.range);
            }
            proof {
                assert(*ar == rs[i as int]);
                assert(q.last() == *ar);
                assert(mergeable(q.last(), a, s as int, e as int) == (ar.attr == attr
                    && overlapping_or_adjacent(ar.range.start as int, ar.range.end as int, s as int, e as int)));
                assert(hull.start == merged_start(q, a, s, e));
                assert(hull.end == merged_end(q, a, s, e));
            }
            i += 1;
        }
        proof {
            assert(rs.take(n as int) =~= rs);
        }
        let ghost m = AttributeRange { attr, range: Range { start: hull.start, end: hull.end } };
        let ghost fm = first_mergeable(rs, a, s as int, e as int);
        let mut out: Vec<AttributeRange> = Vec::new();
        let mut k: usize = 0;
        while k < n
            invariant
                self.attr_ranges@ == rs,
                n == rs.len(),
                0 <= k <= n,
                a == attr,
                s == range.start,
                e == range.end,
                f == (if fm < n { fm } else { n as int }),
                m == (AttributeRange { attr, range: Range { start: hull.start, end: hull.end } }),
                out@ == rebuilt(rs, k as int, fm, m, a, s, e),
            decreases n - k,
        {
            if k == f {
                out.push(AttributeRange { attr, range: Range { start: hull.start, end: hull.end } });
            } else {
                let ar = &self.attr_ranges[k];
                if !(ar.attr == attr && is_overlapping_or_adjacent(&ar.range, &range)) {
                    assert(rs[k as int] == (AttributeRange {
                        attr: ar.attr,
                        range: Range { start: ar.range.start, end: ar.range.end },
                    }));
                    out.push(
                        AttributeRange {
                            attr: ar.attr,
                            range: Range { start: ar.range.start, end: ar.range.end },
                        },
                    );
                }
            }
            k += 1;
        }
        if !found {
            out.push(AttributeRange { attr, range: Range { start: hull.start, end: hull.end } });
        }
        self.attr_ranges = out;
        proof {
            assert(self.attr_ranges@ =~= attach(rs, attr, range.start, range.end));
        }
    }

    /// Returns a string formatted by inserting ANSI escape codes: at each byte
    /// position the codes that close the entries ending there, then those that
    /// open the entries starting there, each group in the order of the entries.
    pub fn to_string(&self) -> (r: String)
        requires
            self.wf(),
        ensures
            encode_utf8(r@) == rendered(self.text(), self.ranges()),
    {
        let evs = self.attr_indices();
        let s = self.string.as_str();
        let ghost t = self.text();
        let mut buf = String::new();
        let mut src_idx: usize = 0;
        let mut j: usize = 0;
        assert(evs@.skip(0) =~= evs@);
        assert(encode_utf8(buf@) =~= Seq::<u8>::empty());
        while j < evs.len()
            invariant
                s.spec_bytes() == t,
                t == self.text(),
                0 <= j <= evs@.len(),
                src_idx <= t.len(),
                is_char_boundary(t, src_idx as int),
                forall|i: int|
                    0 <= i < evs@.len() ==> #[trigger] evs@[i].0 <= t.len() && is_char_boundary(
                        t,
                        evs@[i].0 as int,
                    ),
                encode_utf8(buf@) + walk(t, evs@.skip(j as int), src_idx as int) == walk(
                    t,
                    evs@,
                    0,
                ),
            decreases evs@.len() - j,
        {
            let ghost before = buf@;
            let ghost c = src_idx as int;
            let (idx, attr, enable) = evs[j];
            let ghost rest = evs@.skip(j as int);
            assert(rest[0] == evs@[j as int]);
            assert(rest.drop_first() =~= evs@.skip(j + 1));
            if idx > src_idx {
                let piece = byte_slice(s, src_idx, idx);
                buf.append(piece);
                src_idx = idx;
                proof {
                    lemma_encode_utf8_add(before, piece@);
                }
            }
            let ghost mid = buf@;
            let code = if enable {
                attr.initiator()
            } else {
                attr.terminator()
            };
            buf.append(code.as_str());
            proof {
                lemma_encode_utf8_add(mid, code@);
                assert(encode_utf8(buf@) + walk(t, evs@.skip(j + 1), src_idx as int) =~= encode_utf8(
                    before,
                ) + walk(t, rest, c));
            }
            j += 1;
        }
        let ghost before = buf@;
        let len = s.as_bytes().len();
        if src_idx < len {
            let piece = byte_slice(s, src_idx, len);
            buf.append(piece);
            proof {
                lemma_encode_utf8_add(before, piece@);
            }
        }
        proof {
            assert(evs@.skip(j as int) =~= Seq::<Event>::empty());
            assert(encode_utf8(buf@) =~= walk(t, evs@, 0));
            lemma_walk_renders(t, self.ranges(), evs@);
        }
        buf
    }

    /// Returns the events of the entries ordered by key, keeping the order of
    /// the entries among events of one key.
    fn attr_indices(&self) -> (r: Vec<Event>)
        requires
            self.wf(),
        ensures
            sorted_by_key(r@),
            forall|k: int| #[trigger] with_key(r@, k) == with_key(events_of(self.ranges()), k),
            forall|i: int|
                0 <= i < r@.len() ==> #[trigger] r@[i].0 <= self.text().len() && is_char_boundary(
                    self.text(),
                    r@[i].0 as int,
                ),
    {
        let mut codes: Vec<Event> = Vec::new();
        let mut i: usize = 0;
        let ghost rs = self.ranges();
        while i < self.attr_ranges.len()
            invariant
                rs == self.ranges(),
                self.wf(),
                0 <= i <= rs.len(),
                sorted_by_key(codes@),
                forall|k: int| #[trigger] with_key(codes@, k) == with_key(events_of(rs.subrange(0, i as int)), k),
                forall|m: int|
                    0 <= m < codes@.len() ==> #[trigger] codes@[m].0 <= self.text().len()
                        && is_char_boundary(self.text(), codes@[m].0 as int),
            decreases rs.len() - i,
        {
            let ar = &self.attr_ranges[i];
            let on: Event = (ar.range.start, ar.attr, true);
            let off: Event = (ar.range.end, ar.attr, false);
            let ghost c0 = codes@;
            insert_event(&mut codes, on);
            let ghost c1 = codes@;
            insert_event(&mut codes, off);
            proof {
                let prefix = rs.subrange(0, i as int);
                let next = rs.subrange(0, i + 1);
                assert(next.drop_last() =~= prefix);
                assert(next.last() == rs[i as int]);
                assert forall|k: int| #[trigger] with_key(codes@, k) == with_key(events_of(next), k) by {
                    lemma_with_key_add(events_of(prefix), seq![on, off], k);
                    lemma_with_key_add(seq![on], seq![off], k);
                    assert(seq![on, off] =~= seq![on] + seq![off]);
                    assert(with_key(codes@, k) =~= with_key(events_of(next), k));
                }
                assert forall|m: int| 0 <= m < codes@.len() implies #[trigger] codes@[m].0 <= self.text().len()
                    && is_char_boundary(self.text(), codes@[m].0 as int) by {
                    if codes@[m] != off {
                        let x = choose|x: int| 0 <= x < c1.len() && c1[x] == codes@[m];
                        if c1[x] != on {
                            let y = choose|y: int| 0 <= y < c0.len() && c0[y] == c1[x];
                            assert(c0[y].0 <= self.text().len());
                        }
                    }
                }
            }
            i += 1;
        }
        proof {
            assert(rs.subrange(0, rs.len() as int) =~= rs);
        }
        codes
    }

    /// Returns the length of the underlying string in bytes.
    pub fn len(&self) -> (r: usize)
        ensures
            r == self.text().len(),
    {
        self.string.as_str().as_bytes().len()
    }

    /// Returns the entire underlying string.
    pub fn as_plain_str(&self) -> (r: &str)
        ensures
            r@ == self.plain(),
    {
        self.string.as_str()
    }
}

/// The bytes `[a, b)` of `s`, for bounds on character boundaries.
fn byte_slice(s: &str, a: usize, b: usize) -> (r: &str)
    requires
        a <= b <= s.spec_bytes().len(),
        is_char_boundary(s.spec_bytes(), a as int),
        is_char_boundary(s.spec_bytes(), b as int),
    ensures
        r.spec_bytes() == s.spec_bytes().subrange(a as int, b as int),
{
    let ghost t = s.spec_bytes();
    let (_, tail) = s.split_at(a);
    let ghost u = tail.spec_bytes();
    proof {
        assert(u =~= t.subrange(a as int, t.len() as int));
        if b < t.len() {
            assert(u[b - a] == t[b as int]);
            is_char_boundary_iff_not_is_continuation_byte(t, b as int);
            is_char_boundary_iff_not_is_continuation_byte(u, (b - a) as int);
        } else {
            is_char_boundary_start_end_of_seq(u);
        }
    }
    let (piece, _) = tail.split_at(b - a);
    proof {
        assert(piece.spec_bytes() =~= t.subrange(a as int, b as int));
    }
    piece
}

/// Widens `a` to cover `b` as well.
fn extend_to_cover(a: &mut Range<usize>, b: &Range<usize>)
    ensures
        final(a).start == min_int(old(a).start as int, b.start as int),
        final(a).end == max_int(old(a).end as int, b.end as int),
{
    if a.start > b.start {
        a.start = b.start;
    }
    if a.end < b.end {
        a.end = b.end;
    }
}

fn is_overlapping_or_adjacent(a: &Range<usize>, b: &Range<usize>) -> (r: bool)
    ensures
        r == overlapping_or_adjacent(a.start as int, a.end as int, b.start as int, b.end as int),
{
    (a.start <= b.end && a.end >= b.start) || (b.start <= a.end && b.end >= a.start)
}

/// Whether `range` is ordered, ends within `s` and has both bounds on
/// character boundaries of `s`.
pub fn byte_range_lies_on_char_boundary(range: &Range<usize>, s: &str) -> (r: bool)
    ensures
        r == valid_range(s.spec_bytes(), range.start as int, range.end as int),
{
    if range.start > range.end || range.end > s.as_bytes().len() {
        return false;
    }
    s.is_char_boundary(range.start) && s.is_char_boundary(range.end)
}

} // verus!
