use vstd::prelude::*;
use vstd::utf8::*;

use crate::attribute::Attribute;
use crate::attributed_string::{closing, opening, render_from, AttributeRange};

verus! {

broadcast use vstd::utf8::group_utf8_lib;

/// A position in bytes, an attribute, and whether the attribute is switched
/// on (`true`) or off (`false`) there.
pub type Event = (usize, Attribute, bool);

/// The sort key of an event: by position, and at one position the events
/// that switch an attribute off before those that switch one on.
pub open spec fn key(e: Event) -> int {
    2 * e.0 + if e.2 { 1int } else { 0int }
}

/// The escape code an event stands for.
pub open spec fn code_of(e: Event) -> Seq<char> {
    if e.2 { e.1.enable_seq() } else { e.1.disable_seq() }
}

/// Two events per entry, switching its attribute on at its start and off at
/// its end, in the order of the entries.
pub open spec fn events_of(rs: Seq<AttributeRange>) -> Seq<Event>
    decreases rs.len(),
{
    if rs.len() == 0 {
        seq![]
    } else {
        let r = rs.last();
        events_of(rs.drop_last()) + seq![(r.range.start, r.attr, true), (r.range.end, r.attr, false)]
    }
}

/// The events of `evs` whose key is `k`, in their order in `evs`.
pub open spec fn with_key(evs: Seq<Event>, k: int) -> Seq<Event>
    decreases evs.len(),
{
    if evs.len() == 0 {
        seq![]
    } else {
        with_key(evs.drop_last(), k) + if key(evs.last()) == k {
            seq![evs.last()]
        } else {
            seq![]
        }
    }
}

/// The escape codes of `evs`, one after the other.
pub open spec fn codes(evs: Seq<Event>) -> Seq<char>
    decreases evs.len(),
{
    if evs.len() == 0 {
        seq![]
    } else {
        codes(evs.drop_last()) + code_of(evs.last())
    }
}

/// `evs` is ordered by key.
pub open spec fn sorted_by_key(evs: Seq<Event>) -> bool {
    forall|i: int, j: int| 0 <= i <= j < evs.len() ==> key(evs[i]) <= key(evs[j])
}

/// Rendering of the bytes of `t` from `p` on, where the codes before each
/// byte are the events with that position, off before on.
pub open spec fn grouped_from(t: Seq<u8>, evs: Seq<Event>, p: int) -> Seq<u8>
    decreases t.len() - p,
{
    let here = encode_utf8(codes(with_key(evs, 2 * p)) + codes(with_key(evs, 2 * p + 1)));
    if 0 <= p < t.len() {
        here + seq![t[p]] + grouped_from(t, evs, p + 1)
    } else {
        here
    }
}

/// Rendering by a left-to-right walk over `evs` with the cursor at `c`: the
/// text up to each event's position, then its code; at the end, the rest of
/// the text.
pub open spec fn walk(t: Seq<u8>, evs: Seq<Event>, c: int) -> Seq<u8>
    decreases evs.len(),
{
    if evs.len() == 0 {
        t.subrange(c, t.len() as int)
    } else {
        let off = evs[0].0 as int;
        let next = if off > c { off } else { c };
        (if off > c { t.subrange(c, off) } else { seq![] }) + encode_utf8(code_of(evs[0])) + walk(
            t,
            evs.drop_first(),
            next,
        )
    }
}

pub proof fn lemma_encode_utf8_add(a: Seq<char>, b: Seq<char>)
    ensures
        encode_utf8(a + b) == encode_utf8(a) + encode_utf8(b),
    decreases a.len(),
{
    if a.len() == 0 {
        assert(a + b =~= b);
        assert(encode_utf8(a) + encode_utf8(b) =~= encode_utf8(b));
    } else {
        assert((a + b).drop_first() =~= a.drop_first() + b);
        lemma_encode_utf8_add(a.drop_first(), b);
        assert(encode_utf8(a + b) =~= encode_utf8(a) + encode_utf8(b));
    }
}

pub proof fn lemma_with_key_add(a: Seq<Event>, b: Seq<Event>, k: int)
    ensures
        with_key(a + b, k) == with_key(a, k) + with_key(b, k),
    decreases b.len(),
{
    if b.len() == 0 {
        assert(a + b =~= a);
        assert(with_key(a, k) + with_key(b, k) =~= with_key(a, k));
    } else {
        assert((a + b).drop_last() =~= a + b.drop_last());
        assert((a + b).last() == b.last());
        lemma_with_key_add(a, b.drop_last(), k);
        assert(with_key(a + b, k) =~= with_key(a, k) + with_key(b, k));
    }
}

proof fn lemma_codes_add(a: Seq<Event>, b: Seq<Event>)
    ensures
        codes(a + b) == codes(a) + codes(b),
    decreases b.len(),
{
    if b.len() == 0 {
        assert(a + b =~= a);
        assert(codes(a) + codes(b) =~= codes(a));
    } else {
        assert((a + b).drop_last() =~= a + b.drop_last());
        assert((a + b).last() == b.last());
        lemma_codes_add(a, b.drop_last());
        assert(codes(a + b) =~= codes(a) + codes(b));
    }
}

proof fn lemma_with_key_single(e: Event, k: int)
    ensures
        with_key(seq![e], k) == if key(e) == k { seq![e] } else { Seq::<Event>::empty() },
{
    assert(seq![e].drop_last() =~= Seq::<Event>::empty());
    reveal_with_fuel(with_key, 2);
    assert(seq![e].last() == e);
    assert(with_key(seq![e], k) =~= if key(e) == k { seq![e] } else { Seq::<Event>::empty() });
}

proof fn lemma_with_key_none(evs: Seq<Event>, k: int)
    requires
        forall|i: int| 0 <= i < evs.len() ==> key(#[trigger] evs[i]) != k,
    ensures
        with_key(evs, k) == Seq::<Event>::empty(),
    decreases evs.len(),
{
    if evs.len() > 0 {
        assert forall|i: int| 0 <= i < evs.drop_last().len() implies key(
            #[trigger] evs.drop_last()[i],
        ) != k by {
            assert(evs.drop_last()[i] == evs[i]);
        }
        lemma_with_key_none(evs.drop_last(), k);
        assert(with_key(evs, k) =~= Seq::<Event>::empty());
    }
}

proof fn lemma_same_groups(t: Seq<u8>, r: Seq<Event>, s: Seq<Event>, p: int)
    requires
        0 <= p,
        forall|k: int| k >= 2 * p ==> #[trigger] with_key(r, k) == with_key(s, k),
    ensures
        grouped_from(t, r, p) == grouped_from(t, s, p),
    decreases t.len() - p,
{
    assert(with_key(r, 2 * p) == with_key(s, 2 * p));
    assert(with_key(r, 2 * p + 1) == with_key(s, 2 * p + 1));
    if p < t.len() {
        lemma_same_groups(t, r, s, p + 1);
    }
}

proof fn lemma_skip_text(t: Seq<u8>, r: Seq<Event>, c: int, q: int)
    requires
        0 <= c <= q <= t.len(),
        forall|i: int| 0 <= i < r.len() ==> #[trigger] r[i].0 >= q,
    ensures
        grouped_from(t, r, c) == t.subrange(c, q) + grouped_from(t, r, q),
    decreases q - c,
{
    if c < q {
        assert forall|i: int| 0 <= i < r.len() implies key(#[trigger] r[i]) != 2 * c by {
            assert(r[i].0 >= q);
        }
        assert forall|i: int| 0 <= i < r.len() implies key(#[trigger] r[i]) != 2 * c + 1 by {
            assert(r[i].0 >= q);
        }
        lemma_with_key_none(r, 2 * c);
        lemma_with_key_none(r, 2 * c + 1);
        reveal_with_fuel(codes, 1);
        assert(Seq::<char>::empty() + Seq::<char>::empty() =~= Seq::<char>::empty());
        assert(encode_utf8(Seq::<char>::empty()) =~= Seq::<u8>::empty());
        lemma_skip_text(t, r, c + 1, q);
        assert(grouped_from(t, r, c) =~= t.subrange(c, q) + grouped_from(t, r, q));
    } else {
        assert(t.subrange(c, q) + grouped_from(t, r, q) =~= grouped_from(t, r, q));
    }
}

proof fn lemma_drop_head(t: Seq<u8>, r: Seq<Event>, c: int)
    requires
        0 <= c,
        r.len() > 0,
        sorted_by_key(r),
        r[0].0 == c,
    ensures
        grouped_from(t, r, c) == encode_utf8(code_of(r[0])) + grouped_from(t, r.drop_first(), c),
{
    let rest = r.drop_first();
    assert(r =~= seq![r[0]] + rest);
    assert forall|k: int| #[trigger] with_key(r, k) == with_key(seq![r[0]], k) + with_key(rest, k) by {
        lemma_with_key_add(seq![r[0]], rest, k);
    }
    assert forall|k: int| k >= 2 * (c + 1) implies #[trigger] with_key(r, k) == with_key(rest, k) by {
        lemma_with_key_single(r[0], k);
        assert(with_key(rest, k) =~= Seq::<Event>::empty() + with_key(rest, k));
    }
    if c < t.len() {
        lemma_same_groups(t, r, rest, c + 1);
    }
    let x = codes(with_key(rest, 2 * c));
    let y = codes(with_key(rest, 2 * c + 1));
    let h = code_of(r[0]);
    lemma_with_key_single(r[0], 2 * c);
    lemma_with_key_single(r[0], 2 * c + 1);
    reveal_with_fuel(codes, 2);
    assert(codes(seq![r[0]]) =~= h) by {
        assert(seq![r[0]].drop_last() =~= Seq::<Event>::empty());
    }
    if key(r[0]) == 2 * c {
        lemma_codes_add(seq![r[0]], with_key(rest, 2 * c));
        assert(codes(with_key(r, 2 * c)) + codes(with_key(r, 2 * c + 1)) =~= h + (x + y));
    } else {
        assert forall|i: int| 0 <= i < rest.len() implies key(#[trigger] rest[i]) != 2 * c by {
            assert(rest[i] == r[i + 1]);
            assert(key(r[0]) <= key(r[i + 1]));
        }
        lemma_with_key_none(rest, 2 * c);
        lemma_codes_add(seq![r[0]], with_key(rest, 2 * c + 1));
        assert(codes(with_key(r, 2 * c)) + codes(with_key(r, 2 * c + 1)) =~= h + (x + y));
    }
    lemma_encode_utf8_add(h, x + y);
    assert(grouped_from(t, r, c) =~= encode_utf8(h) + grouped_from(t, rest, c));
}

/// The walk over events sorted by key renders as the grouping by position.
proof fn lemma_walk(t: Seq<u8>, r: Seq<Event>, c: int)
    requires
        0 <= c <= t.len(),
        sorted_by_key(r),
        forall|i: int| 0 <= i < r.len() ==> c <= #[trigger] r[i].0 <= t.len(),
    ensures
        walk(t, r, c) == grouped_from(t, r, c),
    decreases r.len(),
{
    if r.len() == 0 {
        lemma_skip_text(t, r, c, t.len() as int);
        assert(with_key(r, 2 * (t.len() as int)) =~= Seq::<Event>::empty());
        assert(with_key(r, 2 * (t.len() as int) + 1) =~= Seq::<Event>::empty());
        assert(encode_utf8(Seq::<char>::empty()) =~= Seq::<u8>::empty());
        assert(codes(Seq::<Event>::empty()) + codes(Seq::<Event>::empty()) =~= Seq::<char>::empty());
        assert(grouped_from(t, r, t.len() as int) =~= Seq::<u8>::empty());
        assert(walk(t, r, c) =~= grouped_from(t, r, c));
    } else {
        let off = r[0].0 as int;
        let rest = r.drop_first();
        assert forall|i: int| 0 <= i < r.len() implies off <= #[trigger] r[i].0 by {
            assert(key(r[0]) <= key(r[i]));
        }
        assert forall|i: int| 0 <= i < rest.len() implies off <= #[trigger] rest[i].0 <= t.len() by {
            assert(rest[i] == r[i + 1]);
        }
        assert(sorted_by_key(rest)) by {
            assert forall|i: int, j: int| 0 <= i <= j < rest.len() implies key(rest[i]) <= key(rest[j]) by {
                assert(rest[i] == r[i + 1]);
                assert(rest[j] == r[j + 1]);
            }
        }
        lemma_walk(t, rest, off);
        lemma_drop_head(t, r, off);
        if off > c {
            lemma_skip_text(t, r, c, off);
            assert(walk(t, r, c) =~= grouped_from(t, r, c));
        } else {
            assert(walk(t, r, c) =~= grouped_from(t, r, c));
        }
    }
}

proof fn lemma_events_groups(rs: Seq<AttributeRange>, p: int)
    ensures
        codes(with_key(events_of(rs), 2 * p)) == closing(rs, p),
        codes(with_key(events_of(rs), 2 * p + 1)) == opening(rs, p),
    decreases rs.len(),
{
    if rs.len() == 0 {
        assert(events_of(rs) =~= Seq::<Event>::empty());
    } else {
        let r = rs.last();
        let on: Event = (r.range.start, r.attr, true);
        let off: Event = (r.range.end, r.attr, false);
        let prev = events_of(rs.drop_last());
        lemma_events_groups(rs.drop_last(), p);
        assert(seq![on, off] =~= seq![on] + seq![off]);
        reveal_with_fuel(codes, 2);
        assert(seq![on].drop_last() =~= Seq::<Event>::empty());
        assert(seq![off].drop_last() =~= Seq::<Event>::empty());
        assert forall|k: int| #[trigger] with_key(events_of(rs), k) == with_key(prev, k) + with_key(seq![on], k) + with_key(seq![off], k) by {
            lemma_with_key_add(prev, seq![on, off], k);
            lemma_with_key_add(seq![on], seq![off], k);
            assert(prev + seq![on, off] == events_of(rs));
            assert(with_key(prev, k) + (with_key(seq![on], k) + with_key(seq![off], k)) =~= with_key(prev, k) + with_key(seq![on], k) + with_key(seq![off], k));
        }
        lemma_with_key_single(on, 2 * p);
        lemma_with_key_single(off, 2 * p);
        lemma_with_key_single(on, 2 * p + 1);
        lemma_with_key_single(off, 2 * p + 1);
        lemma_codes_add(with_key(prev, 2 * p) + with_key(seq![on], 2 * p), with_key(seq![off], 2 * p));
        lemma_codes_add(with_key(prev, 2 * p), with_key(seq![on], 2 * p));
        lemma_codes_add(with_key(prev, 2 * p + 1) + with_key(seq![on], 2 * p + 1), with_key(seq![off], 2 * p + 1));
        lemma_codes_add(with_key(prev, 2 * p + 1), with_key(seq![on], 2 * p + 1));
        assert(codes(with_key(events_of(rs), 2 * p)) =~= closing(rs, p));
        assert(codes(with_key(events_of(rs), 2 * p + 1)) =~= opening(rs, p));
    }
}

/// Grouping the events of `rs` by position renders as `render_from`.
pub proof fn lemma_grouped_render(t: Seq<u8>, rs: Seq<AttributeRange>, p: int)
    requires
        0 <= p,
    ensures
        grouped_from(t, events_of(rs), p) == render_from(t, rs, p),
    decreases t.len() - p,
{
    lemma_events_groups(rs, p);
    if p < t.len() {
        lemma_grouped_render(t, rs, p + 1);
    }
}

/// Rendering by walking events sorted by key, grouped by key as the events of
/// `rs` are, gives the rendering of `rs`.
pub proof fn lemma_walk_renders(t: Seq<u8>, rs: Seq<AttributeRange>, r: Seq<Event>)
    requires
        sorted_by_key(r),
        forall|i: int| 0 <= i < r.len() ==> #[trigger] r[i].0 <= t.len(),
        forall|k: int| #[trigger] with_key(r, k) == with_key(events_of(rs), k),
    ensures
        walk(t, r, 0) == render_from(t, rs, 0),
{
    lemma_walk(t, r, 0);
    lemma_same_groups(t, r, events_of(rs), 0);
    lemma_grouped_render(t, rs, 0);
}

/// Inserts `e` into the sorted `v` after every event whose key is not
/// greater than its own.
pub(crate) fn insert_event(v: &mut Vec<Event>, e: Event)
    requires
        sorted_by_key(old(v)@),
    ensures
        sorted_by_key(final(v)@),
        final(v)@.len() == old(v)@.len() + 1,
        forall|k: int| with_key(final(v)@, k) == with_key(old(v)@, k) + with_key(seq![e], k),
        forall|i: int|
            0 <= i < final(v)@.len() ==> #[trigger] final(v)@[i] == e || old(v)@.contains(
                final(v)@[i],
            ),
{
    let mut q: usize = 0;
    while q < v.len() && key_le(&v[q], &e)
        invariant
            0 <= q <= v@.len(),
            v@ == old(v)@,
            forall|j: int| 0 <= j < q ==> key(#[trigger] v@[j]) <= key(e),
        decreases v@.len() - q,
    {
        q += 1;
    }
    let ghost before = v@;
    v.insert(q, e);
    proof {
        let a = before.subrange(0, q as int);
        let b = before.subrange(q as int, before.len() as int);
        assert(before =~= a + b);
        assert(v@ =~= a + seq![e] + b);
        assert forall|j: int| 0 <= j < b.len() implies key(#[trigger] b[j]) > key(e) by {
            assert(b[j] == before[q + j]);
            assert(key(before[q as int]) > key(e));
        }
        assert forall|k: int| with_key(v@, k) == with_key(before, k) + with_key(seq![e], k) by {
            lemma_with_key_add(a + seq![e], b, k);
            lemma_with_key_add(a, seq![e], k);
            lemma_with_key_add(a, b, k);
            lemma_with_key_single(e, k);
            if k == key(e) {
                lemma_with_key_none(b, k);
                assert(with_key(v@, k) =~= with_key(before, k) + with_key(seq![e], k));
            } else {
                assert(with_key(v@, k) =~= with_key(before, k) + with_key(seq![e], k));
            }
        }
        assert forall|i: int, j: int| 0 <= i <= j < v@.len() implies key(v@[i]) <= key(v@[j]) by {
            if j < q {
            } else if j == q {
            } else if i > q {
                assert(v@[i] == before[i - 1]);
                assert(v@[j] == before[j - 1]);
            } else if i == q {
                assert(v@[j] == b[j - q - 1]);
            } else {
                assert(v@[j] == before[j - 1]);
            }
        }
        assert forall|i: int| 0 <= i < v@.len() implies #[trigger] v@[i] == e || before.contains(
            v@[i],
        ) by {
            if i < q {
                assert(v@[i] == before[i]);
            } else if i > q {
                assert(v@[i] == before[i - 1]);
            }
        }
    }
}

/// Whether the key of `a` is not greater than that of `b`.
fn key_le(a: &Event, b: &Event) -> (r: bool)
    ensures
        r == (key(*a) <= key(*b)),
{
    a.0 < b.0 || (a.0 == b.0 && (!a.2 || b.2))
}

} // verus!
