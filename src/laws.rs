use vstd::prelude::*;
use vstd::utf8::*;

use crate::attribute::Attribute;
use crate::attributed_string::{
    attach, first_mergeable, lemma_first_mergeable, lemma_merged_bounds, merged_end,
    merged_start, mergeable, overlapping_or_adjacent, rebuilt, render_from, rendered, valid_range,
    well_formed, AttributeRange, AttributedString,
};

use core::ops::Range;

verus! {

broadcast use vstd::utf8::group_utf8_lib;

proof fn lemma_render_plain(t: Seq<u8>, p: int)
    requires
        0 <= p <= t.len(),
    ensures
        render_from(t, Seq::<AttributeRange>::empty(), p) == t.subrange(p, t.len() as int),
    decreases t.len() - p,
{
    let rs = Seq::<AttributeRange>::empty();
    assert(crate::attributed_string::closing(rs, p) + crate::attributed_string::opening(rs, p)
        =~= Seq::<char>::empty());
    assert(encode_utf8(Seq::<char>::empty()) =~= Seq::<u8>::empty());
    if p < t.len() {
        lemma_render_plain(t, p + 1);
    }
    assert(render_from(t, rs, p) =~= t.subrange(p, t.len() as int));
}

/// Attaching an attribute to an empty range `[k, k)` leaves the entries as
/// they were; so a string with only such an attachment renders as its plain
/// bytes.
pub proof fn law_empty_range_is_no_op(t: Seq<u8>, rs: Seq<AttributeRange>, a: Attribute, k: usize)
    ensures
        attach(rs, a, k, k) == rs,
        rendered(t, attach(Seq::<AttributeRange>::empty(), a, k, k)) == t,
{
    lemma_render_plain(t, 0);
    assert(t.subrange(0, t.len() as int) =~= t);
}

/// Length of the first `n` entries of `rs` after attaching `a` to `[s, e)`.
spec fn pos(rs: Seq<AttributeRange>, n: int, a: Attribute, s: usize, e: usize) -> int {
    rebuilt(rs, n, first_mergeable(rs, a, s as int, e as int), merged(rs, a, s, e), a, s, e).len() as int
}

spec fn merged(rs: Seq<AttributeRange>, a: Attribute, s: usize, e: usize) -> AttributeRange {
    AttributeRange {
        attr: a,
        range: Range { start: merged_start(rs, a, s, e), end: merged_end(rs, a, s, e) },
    }
}

/// Entry `i` leaves something behind when `a` is attached to `[s, e)`.
spec fn stays(rs: Seq<AttributeRange>, i: int, a: Attribute, s: usize, e: usize) -> bool {
    i == first_mergeable(rs, a, s as int, e as int) || !mergeable(rs[i], a, s as int, e as int)
}

proof fn lemma_pos_grows(rs: Seq<AttributeRange>, a: Attribute, s: usize, e: usize, i: int, j: int)
    requires
        0 <= i <= j <= rs.len(),
    ensures
        pos(rs, i, a, s, e) <= pos(rs, j, a, s, e),
        i < j && stays(rs, i, a, s, e) ==> pos(rs, i, a, s, e) < pos(rs, j, a, s, e),
    decreases j - i,
{
    if i < j {
        lemma_pos_grows(rs, a, s, e, i, j - 1);
        if i == j - 1 {
        }
    }
}

proof fn lemma_rebuilt_prefix(
    rs: Seq<AttributeRange>,
    a: Attribute,
    s: usize,
    e: usize,
    n: int,
    big: int,
)
    requires
        0 <= n <= big <= rs.len(),
    ensures
        ({
            let f = first_mergeable(rs, a, s as int, e as int);
            let m = merged(rs, a, s, e);
            forall|k: int|
                0 <= k < rebuilt(rs, n, f, m, a, s, e).len() ==> #[trigger] rebuilt(rs, big, f, m, a, s, e)[k]
                    == rebuilt(rs, n, f, m, a, s, e)[k]
        }),
    decreases big - n,
{
    let f = first_mergeable(rs, a, s as int, e as int);
    let m = merged(rs, a, s, e);
    if n < big {
        lemma_rebuilt_prefix(rs, a, s, e, n, big - 1);
        lemma_pos_grows(rs, a, s, e, n, big - 1);
        let prev = rebuilt(rs, big - 1, f, m, a, s, e);
        assert forall|k: int| 0 <= k < prev.len() implies #[trigger] rebuilt(rs, big, f, m, a, s, e)[k] == prev[k] by {}
    }
}

proof fn lemma_rebuilt_agree(
    x: Seq<AttributeRange>,
    y: Seq<AttributeRange>,
    n: int,
    f: int,
    m: AttributeRange,
    a: Attribute,
    s: usize,
    e: usize,
)
    requires
        0 <= n <= x.len(),
        n <= y.len(),
        forall|k: int| 0 <= k < n ==> x[k] == y[k],
    ensures
        rebuilt(x, n, f, m, a, s, e) == rebuilt(y, n, f, m, a, s, e),
    decreases n,
{
    if n > 0 {
        lemma_rebuilt_agree(x, y, n - 1, f, m, a, s, e);
    }
}

/// The facts about two touching ranges and their union that the law needs.
proof fn lemma_union_mergeable(
    t: Seq<u8>,
    rs: Seq<AttributeRange>,
    a: Attribute,
    s1: usize,
    e1: usize,
    s2: usize,
    e2: usize,
    us: usize,
    ue: usize,
)
    requires
        well_formed(t, rs),
        s1 < e1,
        s2 < e2,
        overlapping_or_adjacent(s1 as int, e1 as int, s2 as int, e2 as int),
        us == (if s1 <= s2 { s1 } else { s2 }),
        ue == (if e1 >= e2 { e1 } else { e2 }),
    ensures
        forall|j: int|
            0 <= j < rs.len() ==> (mergeable(#[trigger] rs[j], a, us as int, ue as int) <==> (mergeable(
                rs[j],
                a,
                s1 as int,
                e1 as int,
            ) || mergeable(rs[j], a, s2 as int, e2 as int))),
        mergeable(merged(rs, a, s1, e1), a, s2 as int, e2 as int),
{
    assert forall|j: int| 0 <= j < rs.len() implies (mergeable(#[trigger] rs[j], a, us as int, ue as int) <==> (
        mergeable(rs[j], a, s1 as int, e1 as int) || mergeable(rs[j], a, s2 as int, e2 as int))) by {
        assert(rs[j].range.start < rs[j].range.end);
    }
    lemma_merged_bounds(rs, a, s1, e1);
}

/// Entry `j` of `rs`, where it stays, is found at `pos(j)` after attaching.
proof fn lemma_entry_at_pos(
    t: Seq<u8>,
    rs: Seq<AttributeRange>,
    a: Attribute,
    s: usize,
    e: usize,
    j: int,
)
    requires
        0 <= j < rs.len(),
        stays(rs, j, a, s, e),
    ensures
        pos(rs, j, a, s, e) < rebuilt(rs, rs.len() as int, first_mergeable(rs, a, s as int, e as int), merged(rs, a, s, e), a, s, e).len(),
        rebuilt(rs, rs.len() as int, first_mergeable(rs, a, s as int, e as int), merged(rs, a, s, e), a, s, e)[pos(rs, j, a, s, e)]
            == if j == first_mergeable(rs, a, s as int, e as int) { merged(rs, a, s, e) } else { rs[j] },
{
    lemma_rebuilt_prefix(rs, a, s, e, j + 1, rs.len() as int);
    lemma_pos_grows(rs, a, s, e, j + 1, rs.len() as int);
}

proof fn lemma_second_merge_point(
    t: Seq<u8>,
    rs: Seq<AttributeRange>,
    a: Attribute,
    s1: usize,
    e1: usize,
    s2: usize,
    e2: usize,
)
    requires
        well_formed(t, rs),
        valid_range(t, s1 as int, e1 as int),
        valid_range(t, s2 as int, e2 as int),
        s1 < e1,
        s2 < e2,
        overlapping_or_adjacent(s1 as int, e1 as int, s2 as int, e2 as int),
    ensures
        first_mergeable(attach(rs, a, s1, e1), a, s2 as int, e2 as int) == pos(
            rs,
            first_mergeable(rs, a, if s1 <= s2 { s1 } else { s2 } as int, if e1 >= e2 { e1 } else { e2 } as int),
            a,
            s1,
            e1,
        ),
{
    let us: usize = if s1 <= s2 { s1 } else { s2 };
    let ue: usize = if e1 >= e2 { e1 } else { e2 };
    let len = rs.len() as int;
    let f1 = first_mergeable(rs, a, s1 as int, e1 as int);
    let m1 = merged(rs, a, s1, e1);
    let kept = rebuilt(rs, len, f1, m1, a, s1, e1);
    let r1 = attach(rs, a, s1, e1);
    let fu = first_mergeable(rs, a, us as int, ue as int);
    lemma_union_mergeable(t, rs, a, s1, e1, s2, e2, us, ue);
    lemma_first_mergeable(rs, a, s1 as int, e1 as int);
    lemma_first_mergeable(rs, a, us as int, ue as int);
    lemma_merged_bounds(rs, a, s1, e1);
    lemma_merged_bounds(rs, a, us, ue);
    crate::attributed_string::lemma_rebuilt_well_formed(t, rs, a, s1, e1, len);
    assert(r1 == if f1 < len { kept } else { kept.push(m1) });
    // the first merging entry for the union stays after the first attach
    assert(fu <= f1);
    assert(fu < len ==> stays(rs, fu, a, s1, e1));
    lemma_pos_grows(rs, a, s1, e1, 0, len);
    // r1 holds kept first, then m1 when nothing merged
    assert forall|k: int| 0 <= k < kept.len() implies #[trigger] r1[k] == kept[k] by {}
    let p_fu = pos(rs, fu, a, s1, e1);
    // pos(fu) is where the second attach merges
    assert(p_fu < r1.len() && mergeable(r1[p_fu], a, s2 as int, e2 as int)) by {
        if fu < len {
            lemma_entry_at_pos(t, rs, a, s1, e1, fu);
        } else {
            assert(f1 == len);
        }
    }
    assert forall|k: int| 0 <= k < p_fu implies !mergeable(#[trigger] r1[k], a, s2 as int, e2 as int) by {
        lemma_rebuilt_prefix(rs, a, s1, e1, fu, len);
        lemma_pos_grows(rs, a, s1, e1, fu, len);
        crate::attributed_string::lemma_rebuilt_well_formed(t, rs, a, s1, e1, fu);
        let pre = rebuilt(rs, fu, f1, m1, a, s1, e1);
        assert(r1[k] == pre[k]);
        if !(pre[k] == m1 && f1 < fu) {
            let j = choose|j: int|
                0 <= j < fu && j != f1 && !mergeable(rs[j], a, s1 as int, e1 as int) && pre[k]
                    == #[trigger] rs[j];
            assert(!mergeable(rs[j], a, us as int, ue as int));
        }
    }
    let f2 = first_mergeable(r1, a, s2 as int, e2 as int);
    lemma_first_mergeable(r1, a, s2 as int, e2 as int);
    assert(f2 == p_fu) by {
        if f2 < p_fu {
            assert(mergeable(r1[f2], a, s2 as int, e2 as int));
        } else if f2 > p_fu {
            assert(!mergeable(r1[p_fu], a, s2 as int, e2 as int));
        }
    }
}

proof fn lemma_second_merged_entry(
    t: Seq<u8>,
    rs: Seq<AttributeRange>,
    a: Attribute,
    s1: usize,
    e1: usize,
    s2: usize,
    e2: usize,
)
    requires
        well_formed(t, rs),
        valid_range(t, s1 as int, e1 as int),
        valid_range(t, s2 as int, e2 as int),
        s1 < e1,
        s2 < e2,
        overlapping_or_adjacent(s1 as int, e1 as int, s2 as int, e2 as int),
    ensures
        merged(attach(rs, a, s1, e1), a, s2, e2) == merged(
            rs,
            a,
            if s1 <= s2 { s1 } else { s2 },
            if e1 >= e2 { e1 } else { e2 },
        ),
{
    let us: usize = if s1 <= s2 { s1 } else { s2 };
    let ue: usize = if e1 >= e2 { e1 } else { e2 };
    let len = rs.len() as int;
    let f1 = first_mergeable(rs, a, s1 as int, e1 as int);
    let m1 = merged(rs, a, s1, e1);
    let kept = rebuilt(rs, len, f1, m1, a, s1, e1);
    let r1 = attach(rs, a, s1, e1);
    let fu = first_mergeable(rs, a, us as int, ue as int);
    lemma_union_mergeable(t, rs, a, s1, e1, s2, e2, us, ue);
    lemma_first_mergeable(rs, a, s1 as int, e1 as int);
    lemma_first_mergeable(rs, a, us as int, ue as int);
    lemma_merged_bounds(rs, a, s1, e1);
    lemma_merged_bounds(rs, a, us, ue);
    crate::attributed_string::lemma_rebuilt_well_formed(t, rs, a, s1, e1, len);
    assert(r1 == if f1 < len { kept } else { kept.push(m1) });
    // the first merging entry for the union stays after the first attach
    assert(fu <= f1);
    assert(fu < len ==> stays(rs, fu, a, s1, e1));
    lemma_pos_grows(rs, a, s1, e1, 0, len);
    // r1 holds kept first, then m1 when nothing merged
    assert forall|k: int| 0 <= k < kept.len() implies #[trigger] r1[k] == kept[k] by {}
    let f2 = first_mergeable(r1, a, s2 as int, e2 as int);
    // the merged bounds agree
    let m2 = merged(r1, a, s2, e2);
    let mu = merged(rs, a, us, ue);
    lemma_merged_bounds(r1, a, s2, e2);
    assert(mergeable(m1, a, s2 as int, e2 as int));
    let p1 = if f1 < len { pos(rs, f1, a, s1, e1) } else { kept.len() as int };
    assert(0 <= p1 < r1.len() && r1[p1] == m1) by {
        if f1 < len {
            lemma_entry_at_pos(t, rs, a, s1, e1, f1);
        }
    }
    assert(m2 == mu) by {
        let x = merged_start(r1, a, s2, e2);
        let y = merged_start(rs, a, us, ue);
        let xe = merged_end(r1, a, s2, e2);
        let ye = merged_end(rs, a, us, ue);
        assert(x <= m1.range.start) by {
            assert(mergeable(r1[p1], a, s2 as int, e2 as int));
        }
        assert(xe >= m1.range.end) by {
            assert(mergeable(r1[p1], a, s2 as int, e2 as int));
        }
        if y != us {
            let j = choose|j: int|
                0 <= j < rs.len() && mergeable(#[trigger] rs[j], a, us as int, ue as int)
                    && rs[j].range.start == y;
            if !mergeable(rs[j], a, s1 as int, e1 as int) {
                lemma_entry_at_pos(t, rs, a, s1, e1, j);
                assert(r1[pos(rs, j, a, s1, e1)] == rs[j]);
            }
        }
        if ye != ue {
            let j = choose|j: int|
                0 <= j < rs.len() && mergeable(#[trigger] rs[j], a, us as int, ue as int)
                    && rs[j].range.end == ye;
            if !mergeable(rs[j], a, s1 as int, e1 as int) {
                lemma_entry_at_pos(t, rs, a, s1, e1, j);
                assert(r1[pos(rs, j, a, s1, e1)] == rs[j]);
            }
        }
        assert(x <= y);
        assert(xe >= ye);
        if x != s2 {
            let k = choose|k: int|
                0 <= k < r1.len() && mergeable(#[trigger] r1[k], a, s2 as int, e2 as int)
                    && r1[k].range.start == x;
            if k < kept.len() && !(kept[k] == m1 && f1 < len) {
                let j = choose|j: int|
                    0 <= j < len && j != f1 && !mergeable(rs[j], a, s1 as int, e1 as int) && kept[k]
                        == #[trigger] rs[j];
                assert(mergeable(rs[j], a, us as int, ue as int));
            }
        }
        if xe != e2 {
            let k = choose|k: int|
                0 <= k < r1.len() && mergeable(#[trigger] r1[k], a, s2 as int, e2 as int)
                    && r1[k].range.end == xe;
            if k < kept.len() && !(kept[k] == m1 && f1 < len) {
                let j = choose|j: int|
                    0 <= j < len && j != f1 && !mergeable(rs[j], a, s1 as int, e1 as int) && kept[k]
                        == #[trigger] rs[j];
                assert(mergeable(rs[j], a, us as int, ue as int));
            }
        }
        assert(x == y);
        assert(xe == ye);
    }
}

proof fn lemma_attach_twice(
    t: Seq<u8>,
    rs: Seq<AttributeRange>,
    a: Attribute,
    s1: usize,
    e1: usize,
    s2: usize,
    e2: usize,
)
    requires
        well_formed(t, rs),
        valid_range(t, s1 as int, e1 as int),
        valid_range(t, s2 as int, e2 as int),
        s1 < e1,
        s2 < e2,
        overlapping_or_adjacent(s1 as int, e1 as int, s2 as int, e2 as int),
    ensures
        attach(attach(rs, a, s1, e1), a, s2, e2) == attach(
            rs,
            a,
            if s1 <= s2 { s1 } else { s2 },
            if e1 >= e2 { e1 } else { e2 },
        ),
{
    let us: usize = if s1 <= s2 { s1 } else { s2 };
    let ue: usize = if e1 >= e2 { e1 } else { e2 };
    let len = rs.len() as int;
    let f1 = first_mergeable(rs, a, s1 as int, e1 as int);
    let m1 = merged(rs, a, s1, e1);
    let kept = rebuilt(rs, len, f1, m1, a, s1, e1);
    let r1 = attach(rs, a, s1, e1);
    let fu = first_mergeable(rs, a, us as int, ue as int);
    lemma_union_mergeable(t, rs, a, s1, e1, s2, e2, us, ue);
    lemma_first_mergeable(rs, a, s1 as int, e1 as int);
    lemma_first_mergeable(rs, a, us as int, ue as int);
    lemma_merged_bounds(rs, a, s1, e1);
    lemma_merged_bounds(rs, a, us, ue);
    crate::attributed_string::lemma_rebuilt_well_formed(t, rs, a, s1, e1, len);
    assert(r1 == if f1 < len { kept } else { kept.push(m1) });
    // the first merging entry for the union stays after the first attach
    assert(fu <= f1);
    assert(fu < len ==> stays(rs, fu, a, s1, e1));
    lemma_pos_grows(rs, a, s1, e1, 0, len);
    // r1 holds kept first, then m1 when nothing merged
    assert forall|k: int| 0 <= k < kept.len() implies #[trigger] r1[k] == kept[k] by {}
    lemma_second_merge_point(t, rs, a, s1, e1, s2, e2);
    lemma_second_merged_entry(t, rs, a, s1, e1, s2, e2);
    let f2 = first_mergeable(r1, a, s2 as int, e2 as int);
    let m2 = merged(r1, a, s2, e2);
    let mu = merged(rs, a, us, ue);
    lemma_walk_prefixes(t, rs, a, s1, e1, s2, e2, us, ue, len);
    let left = rebuilt(r1, kept.len() as int, f2, m2, a, s2, e2);
    assert(left == rebuilt(rs, len, fu, mu, a, us, ue));
    assert(f2 < r1.len()) by {
        if fu < len {
            lemma_entry_at_pos(t, rs, a, s1, e1, fu);
        } else {
            assert(f1 == len);
        }
    }
    assert(attach(r1, a, s2, e2) == rebuilt(r1, r1.len() as int, f2, m2, a, s2, e2));
    if f1 < len {
        assert(r1 == kept);
        assert(attach(rs, a, us, ue) == rebuilt(rs, len, fu, mu, a, us, ue));
    } else {
        assert(r1 == kept.push(m1));
        assert(r1[kept.len() as int] == m1);
        assert(mergeable(m1, a, s2 as int, e2 as int));
        assert(rebuilt(r1, r1.len() as int, f2, m2, a, s2, e2) == left + if kept.len() == f2 {
            seq![m2]
        } else {
            Seq::<AttributeRange>::empty()
        });
        if fu < len {
            lemma_entry_at_pos(t, rs, a, s1, e1, fu);
            assert(f2 < kept.len());
            assert(rebuilt(r1, r1.len() as int, f2, m2, a, s2, e2) =~= left);
            assert(attach(rs, a, us, ue) == rebuilt(rs, len, fu, mu, a, us, ue));
        } else {
            assert(attach(rs, a, us, ue) == rebuilt(rs, len, fu, mu, a, us, ue).push(mu));
        }
    }
}

/// The second attach, taken over the first `n` entries of `rs`, matches the
/// single attach of the union over them.
proof fn lemma_walk_prefixes(
    t: Seq<u8>,
    rs: Seq<AttributeRange>,
    a: Attribute,
    s1: usize,
    e1: usize,
    s2: usize,
    e2: usize,
    us: usize,
    ue: usize,
    n: int,
)
    requires
        well_formed(t, rs),
        s1 < e1,
        s2 < e2,
        overlapping_or_adjacent(s1 as int, e1 as int, s2 as int, e2 as int),
        us == (if s1 <= s2 { s1 } else { s2 }),
        ue == (if e1 >= e2 { e1 } else { e2 }),
        0 <= n <= rs.len(),
        first_mergeable(attach(rs, a, s1, e1), a, s2 as int, e2 as int) == pos(
            rs,
            first_mergeable(rs, a, us as int, ue as int),
            a,
            s1,
            e1,
        ),
        merged(attach(rs, a, s1, e1), a, s2, e2) == merged(rs, a, us, ue),
    ensures
        rebuilt(
            attach(rs, a, s1, e1),
            pos(rs, n, a, s1, e1),
            first_mergeable(attach(rs, a, s1, e1), a, s2 as int, e2 as int),
            merged(attach(rs, a, s1, e1), a, s2, e2),
            a,
            s2,
            e2,
        ) == rebuilt(
            rs,
            n,
            first_mergeable(rs, a, us as int, ue as int),
            merged(rs, a, us, ue),
            a,
            us,
            ue,
        ),
    decreases n,
{
    if n > 0 {
        let r1 = attach(rs, a, s1, e1);
        let len = rs.len() as int;
        let f1 = first_mergeable(rs, a, s1 as int, e1 as int);
        let fu = first_mergeable(rs, a, us as int, ue as int);
        let f2 = first_mergeable(r1, a, s2 as int, e2 as int);
        let m = merged(rs, a, us, ue);
        lemma_walk_prefixes(t, rs, a, s1, e1, s2, e2, us, ue, n - 1);
        lemma_union_mergeable(t, rs, a, s1, e1, s2, e2, us, ue);
        lemma_first_mergeable(rs, a, s1 as int, e1 as int);
        lemma_first_mergeable(rs, a, us as int, ue as int);
        let i = n - 1;
        if stays(rs, i, a, s1, e1) {
            lemma_entry_at_pos(t, rs, a, s1, e1, i);
            let kept = rebuilt(rs, len, f1, merged(rs, a, s1, e1), a, s1, e1);
            assert(r1[pos(rs, i, a, s1, e1)] == kept[pos(rs, i, a, s1, e1)]);
            assert(fu <= f1);
            if fu < len {
                assert(stays(rs, fu, a, s1, e1));
                if fu < i {
                    lemma_pos_grows(rs, a, s1, e1, fu, i);
                } else if i < fu {
                    lemma_pos_grows(rs, a, s1, e1, i, fu);
                }
            } else {
                lemma_pos_grows(rs, a, s1, e1, i, len);
            }
        } else {
            assert(fu <= f1);
        }
    }
}

/// Attaching `a` to two ranges that overlap or touch renders as attaching it
/// once to their union.
pub proof fn law_two_attaches_equal_union(
    t: Seq<u8>,
    rs: Seq<AttributeRange>,
    a: Attribute,
    s1: usize,
    e1: usize,
    s2: usize,
    e2: usize,
)
    requires
        well_formed(t, rs),
        valid_range(t, s1 as int, e1 as int),
        valid_range(t, s2 as int, e2 as int),
        overlapping_or_adjacent(s1 as int, e1 as int, s2 as int, e2 as int),
    ensures
        rendered(t, attach(attach(rs, a, s1, e1), a, s2, e2)) == rendered(
            t,
            attach(rs, a, if s1 <= s2 { s1 } else { s2 }, if e1 >= e2 { e1 } else { e2 }),
        ),
{
    let us: usize = if s1 <= s2 { s1 } else { s2 };
    let ue: usize = if e1 >= e2 { e1 } else { e2 };
    if s1 < e1 && s2 < e2 {
        assert(attach(attach(rs, a, s1, e1), a, s2, e2) == attach(rs, a, us, ue)) by {
            lemma_attach_twice(t, rs, a, s1, e1, s2, e2);
        }
    } else if s1 < e1 {
        assert(us == s1 && ue == e1);
    } else if s2 < e2 {
        assert(us == s2 && ue == e2);
    } else {
        assert(us == ue);
    }
}

/// Rendering depends on the text and the entries alone: two renderings of
/// an unchanged string are equal.
pub proof fn law_render_is_deterministic(s: &AttributedString, r1: Seq<char>, r2: Seq<char>)
    requires
        encode_utf8(r1) == rendered(s.text(), s.ranges()),
        encode_utf8(r2) == rendered(s.text(), s.ranges()),
    ensures
        r1 == r2,
{
    encode_utf8_decode_utf8(r1);
    encode_utf8_decode_utf8(r2);
}

/// A range that ends past the text, or whose start or end falls inside the
/// encoding of a character, is not a valid range: `add_attr` does not accept
/// it, and `byte_range_lies_on_char_boundary` reports it.
pub proof fn law_out_of_bounds_or_split_range_is_invalid(t: Seq<u8>, s: int, e: int)
    requires
        valid_utf8(t),
        e > t.len() || (0 <= s < t.len() && is_continuation_byte(t[s])) || (0 <= e < t.len()
            && is_continuation_byte(t[e])),
    ensures
        !valid_range(t, s, e),
{
    if 0 <= s < t.len() {
        is_char_boundary_iff_not_is_continuation_byte(t, s);
    }
    if 0 <= e < t.len() {
        is_char_boundary_iff_not_is_continuation_byte(t, e);
    }
}

} // verus!
