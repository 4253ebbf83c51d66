//! Address ranges: sorting and coalescing contiguous delegations.

use crate::error::Error;
use vstd::prelude::*;

verus! {

/// A non-empty interval of addresses; both endpoints belong to the range.
#[derive(Clone, Copy, PartialEq, Eq, Structural, Debug)]
pub struct AddressRange {
    pub start: u128,
    pub last: u128,
}

pub open spec fn range_ok(r: AddressRange) -> bool {
    r.start <= r.last
}

pub open spec fn ranges_ok(s: Seq<AddressRange>) -> bool {
    forall|i: int| 0 <= i < s.len() ==> range_ok(#[trigger] s[i])
}

pub open spec fn in_range(r: AddressRange, a: int) -> bool {
    r.start <= a <= r.last
}

/// The set of addresses covered by a list of ranges.
pub open spec fn addr_union(s: Seq<AddressRange>) -> Set<int> {
    Set::new(|a: int| exists|i: int| 0 <= i < s.len() && in_range(#[trigger] s[i], a))
}

/// Ordering by start address, ties broken by the end.
pub open spec fn range_le(a: AddressRange, b: AddressRange) -> bool {
    a.start < b.start || (a.start == b.start && a.last <= b.last)
}

pub open spec fn sorted_ranges(s: Seq<AddressRange>) -> bool {
    forall|i: int, j: int| #![trigger s[i], s[j]] 0 <= i < j < s.len() ==> range_le(s[i], s[j])
}

pub open spec fn sorted_starts(s: Seq<AddressRange>) -> bool {
    forall|i: int, j: int| #![trigger s[i], s[j]] 0 <= i < j < s.len() ==> s[i].start <= s[j].start
}

/// No address lies in two of the ranges.
pub open spec fn pairwise_disjoint(s: Seq<AddressRange>) -> bool {
    forall|i: int, j: int| #![trigger s[i], s[j]]
        0 <= i < j < s.len() ==> (s[i].last < s[j].start || s[j].last < s[i].start)
}

/// Maximally merged: sorted and with a gap of at least one address between
/// consecutive ranges.
pub open spec fn merged_form(s: Seq<AddressRange>) -> bool {
    ranges_ok(s) && forall|i: int| #![trigger s[i]]
        0 <= i < s.len() - 1 ==> s[i].last + 1 < s[i + 1].start
}

pub proof fn lemma_addr_union_concat(x: Seq<AddressRange>, y: Seq<AddressRange>)
    ensures
        addr_union(x + y) =~= addr_union(x).union(addr_union(y)),
{
    assert forall|a: int|
        addr_union(x + y).contains(a) implies addr_union(x).contains(a) || addr_union(
        y,
    ).contains(a) by {
        let i = choose|i: int| 0 <= i < (x + y).len() && in_range(#[trigger] (x + y)[i], a);
        if i < x.len() {
            assert(x[i] == (x + y)[i]);
        } else {
            assert(y[i - x.len()] == (x + y)[i]);
        }
    }
    assert forall|a: int|
        addr_union(x).contains(a) || addr_union(y).contains(a) implies addr_union(
        x + y,
    ).contains(a) by {
        if addr_union(x).contains(a) {
            let i = choose|i: int| 0 <= i < x.len() && in_range(#[trigger] x[i], a);
            assert((x + y)[i] == x[i]);
            assert(in_range((x + y)[i], a));
        } else {
            let i = choose|i: int| 0 <= i < y.len() && in_range(#[trigger] y[i], a);
            assert((x + y)[x.len() + i] == y[i]);
            assert(in_range((x + y)[x.len() + i], a));
        }
    }
}

/// Ranges with the same occurrences cover the same addresses.
pub proof fn lemma_addr_union_perm(x: Seq<AddressRange>, y: Seq<AddressRange>)
    requires
        x.to_multiset() == y.to_multiset(),
    ensures
        addr_union(x) =~= addr_union(y),
{
    assert forall|a: int| addr_union(x).contains(a) implies addr_union(y).contains(a) by {
        let i = choose|i: int| 0 <= i < x.len() && in_range(#[trigger] x[i], a);
        assert(x.contains(x[i]));
        vstd::seq_lib::to_multiset_contains(x, x[i]);
        vstd::seq_lib::to_multiset_contains(y, x[i]);
        assert(y.contains(x[i]));
        let j = choose|j: int| 0 <= j < y.len() && y[j] == x[i];
        assert(in_range(y[j], a));
    }
    assert forall|a: int| addr_union(y).contains(a) implies addr_union(x).contains(a) by {
        let j = choose|j: int| 0 <= j < y.len() && in_range(#[trigger] y[j], a);
        assert(y.contains(y[j]));
        vstd::seq_lib::to_multiset_contains(y, y[j]);
        vstd::seq_lib::to_multiset_contains(x, y[j]);
        assert(x.contains(y[j]));
        let i = choose|i: int| 0 <= i < x.len() && x[i] == y[j];
        assert(in_range(x[i], a));
    }
}

proof fn lemma_count_ge_two(s: Seq<AddressRange>, i: int, j: int)
    requires
        0 <= i < j < s.len(),
        s[i] == s[j],
    ensures
        s.to_multiset().count(s[i]) >= 2,
{
    broadcast use vstd::multiset::group_multiset_axioms;

    let t = s.remove(j);
    vstd::seq_lib::to_multiset_remove(s, j);
    assert(t[i] == s[i]);
    assert(t.contains(s[i]));
    vstd::seq_lib::to_multiset_contains(t, s[i]);
    assert(t.to_multiset().count(s[i]) > 0);
}

proof fn lemma_two_indexes(s: Seq<AddressRange>, x: AddressRange)
    requires
        s.to_multiset().count(x) >= 2,
    ensures
        exists|i: int, j: int| 0 <= i < j < s.len() && s[i] == x && s[j] == x,
    decreases s.len(),
{
    broadcast use vstd::multiset::group_multiset_axioms;

    assert(s.to_multiset().count(x) > 0);
    vstd::seq_lib::to_multiset_contains(s, x);
    assert(s.contains(x));
    assert(s.len() > 0);
    let t = s.remove(0);
    vstd::seq_lib::to_multiset_remove(s, 0);
    if s[0] == x {
        assert(t.to_multiset().count(x) >= 1);
        vstd::seq_lib::to_multiset_contains(t, x);
        assert(t.contains(x));
        let j = choose|j: int| 0 <= j < t.len() && t[j] == x;
        assert(s[j + 1] == t[j]);
        assert(0 <= 0 < j + 1 < s.len() && s[0] == x && s[j + 1] == x);
    } else {
        assert(t.to_multiset().count(x) >= 2);
        lemma_two_indexes(t, x);
        let (i, j) = choose|i: int, j: int| 0 <= i < j < t.len() && t[i] == x && t[j] == x;
        assert(s[i + 1] == t[i] && s[j + 1] == t[j]);
        assert(0 <= i + 1 < j + 1 < s.len() && s[i + 1] == x && s[j + 1] == x);
    }
}

/// Disjointness is kept under reordering.
pub proof fn lemma_disjoint_perm(x: Seq<AddressRange>, y: Seq<AddressRange>)
    requires
        x.to_multiset() == y.to_multiset(),
        pairwise_disjoint(x),
        ranges_ok(x),
    ensures
        pairwise_disjoint(y),
{
    assert forall|i: int, j: int| #![trigger y[i], y[j]]
        0 <= i < j < y.len() implies (y[i].last < y[j].start || y[j].last < y[i].start) by {
        if y[i] == y[j] {
            lemma_count_ge_two(y, i, j);
            assert(x.to_multiset().count(y[i]) >= 2);
            lemma_two_indexes(x, y[i]);
            let (a, b) = choose|a: int, b: int|
                0 <= a < b < x.len() && x[a] == y[i] && x[b] == y[i];
            assert(range_ok(x[a]));
            assert(false);
        } else {
            assert(y.contains(y[i]));
            assert(y.contains(y[j]));
            vstd::seq_lib::to_multiset_contains(y, y[i]);
            vstd::seq_lib::to_multiset_contains(y, y[j]);
            vstd::seq_lib::to_multiset_contains(x, y[i]);
            vstd::seq_lib::to_multiset_contains(x, y[j]);
            assert(x.contains(y[i]));
            assert(x.contains(y[j]));
            let a = choose|a: int| 0 <= a < x.len() && x[a] == y[i];
            let b = choose|b: int| 0 <= b < x.len() && x[b] == y[j];
            assert(a != b);
            if a < b {
                assert(x[a].last < x[b].start || x[b].last < x[a].start);
            } else {
                assert(x[b].last < x[a].start || x[a].last < x[b].start);
            }
        }
    }
}

/// Sorted disjoint ranges are chained: earlier ranges end before later ones start.
pub proof fn lemma_sorted_disjoint_chain(s: Seq<AddressRange>)
    requires
        sorted_starts(s),
        pairwise_disjoint(s),
        ranges_ok(s),
    ensures
        forall|i: int, j: int| #![trigger s[i], s[j]] 0 <= i < j < s.len() ==> s[i].last < s[j].start,
{
    assert forall|i: int, j: int| #![trigger s[i], s[j]]
        0 <= i < j < s.len() implies s[i].last < s[j].start by {
        assert(range_ok(s[i]) && range_ok(s[j]));
    }
}

/// In a merged list earlier ranges end strictly before later ones start.
pub proof fn lemma_merged_chain(s: Seq<AddressRange>, i: int, j: int)
    requires
        merged_form(s),
        0 <= i < j < s.len(),
    ensures
        s[i].last + 1 < s[j].start,
    decreases j - i,
{
    if j == i + 1 {
    } else {
        lemma_merged_chain(s, i, j - 1);
        assert(range_ok(s[j - 1]));
    }
}

/// Two maximally merged lists covering the same addresses are equal: the
/// merged form of an address set is unique.
#[verifier::rlimit(100)]
pub proof fn lemma_merged_unique(x: Seq<AddressRange>, y: Seq<AddressRange>)
    requires
        merged_form(x),
        merged_form(y),
        addr_union(x) == addr_union(y),
    ensures
        x == y,
    decreases x.len(),
{
    if x.len() == 0 {
        if y.len() > 0 {
            assert(range_ok(y[0]));
            assert(in_range(y[0], y[0].start as int));
            assert(addr_union(y).contains(y[0].start as int));
            assert(addr_union(x).contains(y[0].start as int));
            let i = choose|i: int| 0 <= i < x.len() && in_range(#[trigger] x[i], y[0].start as int);
            assert(false);
        }
        assert(x =~= y);
    } else if y.len() == 0 {
        assert(range_ok(x[0]));
        assert(in_range(x[0], x[0].start as int));
        assert(addr_union(x).contains(x[0].start as int));
        assert(addr_union(y).contains(x[0].start as int));
        let i = choose|i: int| 0 <= i < y.len() && in_range(#[trigger] y[i], x[0].start as int);
        assert(false);
    } else {
        // the first starts are both the minimum of the shared address set
        lemma_merged_first_start(x, y);
        lemma_merged_first_start(y, x);
        assert(x[0].start == y[0].start);
        // and the first ends agree, else one list would bridge the other's gap
        lemma_merged_first_last(x, y);
        lemma_merged_first_last(y, x);
        assert(x[0] == y[0]);
        let xt = x.drop_first();
        let yt = y.drop_first();
        assert(forall|k: int| 0 <= k < xt.len() ==> xt[k] == x[k + 1]);
        assert(forall|k: int| 0 <= k < yt.len() ==> yt[k] == y[k + 1]);
        assert(merged_form(xt)) by {
            assert(forall|k: int| #![trigger xt[k]]
                0 <= k < xt.len() - 1 ==> xt[k].last + 1 < xt[k + 1].start);
        }
        assert(merged_form(yt)) by {
            assert(forall|k: int| #![trigger yt[k]]
                0 <= k < yt.len() - 1 ==> yt[k].last + 1 < yt[k + 1].start);
        }
        lemma_merged_tail_union(x);
        lemma_merged_tail_union(y);
        assert(addr_union(xt) =~= addr_union(yt));
        lemma_merged_unique(xt, yt);
        assert(x.len() == y.len());
        assert forall|k: int| 0 <= k < x.len() implies x[k] == y[k] by {
            if k > 0 {
                assert(x[k] == xt[k - 1]);
                assert(y[k] == yt[k - 1]);
            }
        }
        assert(x =~= y);
    }
}

/// In a merged list, every covered address is at least the first start.
proof fn lemma_merged_first_start(x: Seq<AddressRange>, y: Seq<AddressRange>)
    requires
        merged_form(x),
        merged_form(y),
        x.len() > 0,
        y.len() > 0,
        addr_union(x) == addr_union(y),
    ensures
        x[0].start >= y[0].start,
{
    assert(range_ok(x[0]));
    assert(in_range(x[0], x[0].start as int));
    assert(addr_union(y).contains(x[0].start as int));
    let i = choose|i: int| 0 <= i < y.len() && in_range(#[trigger] y[i], x[0].start as int);
    if i > 0 {
        lemma_merged_chain(y, 0, i);
    }
}

/// With equal first starts, the first range of `x` ends no later than that
/// of `y`: otherwise `x`'s first range would cover an address inside `y`'s
/// first gap.
proof fn lemma_merged_first_last(x: Seq<AddressRange>, y: Seq<AddressRange>)
    requires
        merged_form(x),
        merged_form(y),
        x.len() > 0,
        y.len() > 0,
        x[0].start == y[0].start,
        addr_union(x) == addr_union(y),
    ensures
        x[0].last <= y[0].last,
{
    if x[0].last > y[0].last {
        assert(range_ok(x[0]) && range_ok(y[0]));
        let a = y[0].last + 1;
        assert(in_range(x[0], a));
        assert(addr_union(x).contains(a));
        assert(addr_union(y).contains(a));
        let i = choose|i: int| 0 <= i < y.len() && in_range(#[trigger] y[i], a);
        assert(i > 0);
        lemma_merged_chain(y, 0, i);
        assert(false);
    }
}

/// Dropping a merged list's first range removes exactly its addresses.
proof fn lemma_merged_tail_union(x: Seq<AddressRange>)
    requires
        merged_form(x),
        x.len() > 0,
    ensures
        addr_union(x.drop_first()) =~= addr_union(x).difference(
            Set::new(|a: int| a <= x[0].last),
        ),
{
    let xt = x.drop_first();
    assert(forall|k: int| 0 <= k < xt.len() ==> xt[k] == x[k + 1]);
    assert forall|a: int| addr_union(xt).contains(a) implies addr_union(x).contains(a) && a
        > x[0].last by {
        let k = choose|k: int| 0 <= k < xt.len() && in_range(#[trigger] xt[k], a);
        assert(in_range(x[k + 1], a));
        lemma_merged_chain(x, 0, k + 1);
    }
    assert forall|a: int|
        addr_union(x).contains(a) && a > x[0].last implies addr_union(xt).contains(a) by {
        let k = choose|k: int| 0 <= k < x.len() && in_range(#[trigger] x[k], a);
        assert(k > 0);
        assert(in_range(xt[k - 1], a));
    }
}

/// Sorts by start address (ties by end), keeping the occurrences; an already
/// sorted input comes back unchanged.
pub fn sort_ranges(input: Vec<AddressRange>) -> (out: Vec<AddressRange>)
    ensures
        out@.to_multiset() == input@.to_multiset(),
        sorted_ranges(out@),
        out@.len() == input@.len(),
        sorted_ranges(input@) ==> out@ == input@,
{
    broadcast use vstd::multiset::group_multiset_axioms;

    let ghost orig = input@;
    let mut rem = input;
    let mut out: Vec<AddressRange> = Vec::new();
    proof {
        assert forall|x: AddressRange| out@.to_multiset().count(x) == 0 by {
            vstd::seq_lib::to_multiset_contains(out@, x);
            if out@.to_multiset().count(x) > 0 {
                assert(out@.contains(x));
            }
        }
        assert(out@.to_multiset().add(rem@.to_multiset()) =~= orig.to_multiset());
        assert(sorted_ranges(orig) ==> out@ =~= orig.subrange(0, 0) && rem@ =~= orig.subrange(
            0,
            orig.len() as int,
        ));
    }
    while rem.len() > 0
        invariant
            out@.to_multiset().add(rem@.to_multiset()) == orig.to_multiset(),
            sorted_ranges(out@),
            out@.len() + rem@.len() == orig.len(),
            forall|i: int, j: int| #![trigger out@[i], rem@[j]]
                0 <= i < out@.len() && 0 <= j < rem@.len() ==> range_le(out@[i], rem@[j]),
            sorted_ranges(orig) ==> out@ == orig.subrange(0, out@.len() as int) && rem@
                == orig.subrange(out@.len() as int, orig.len() as int),
        decreases rem.len(),
    {
        proof {
            if sorted_ranges(orig) {
                assert forall|i: int, j: int| #![trigger rem@[i], rem@[j]]
                    0 <= i < j < rem@.len() implies range_le(rem@[i], rem@[j]) by {
                    assert(rem@[i] == orig[out@.len() + i]);
                    assert(rem@[j] == orig[out@.len() + j]);
                }
            }
        }
        let mut best: usize = 0;
        let mut k: usize = 1;
        while k < rem.len()
            invariant
                rem@.len() > 0,
                best < k <= rem@.len(),
                forall|j: int| 0 <= j < k ==> range_le(rem@[best as int], #[trigger] rem@[j]),
                sorted_ranges(rem@) ==> best == 0,
            decreases rem.len() - k,
        {
            let cand = rem[k];
            let cur = rem[best];
            if cand.start < cur.start || (cand.start == cur.start && cand.last < cur.last) {
                proof {
                    assert forall|j: int| 0 <= j < k implies range_le(
                        rem@[k as int],
                        #[trigger] rem@[j],
                    ) by {
                        assert(range_le(rem@[best as int], rem@[j]));
                    }
                }
                best = k;
            }
            k = k + 1;
        }
        let ghost rem_old = rem@;
        let ghost out_old = out@;
        let m = rem.remove(best);
        proof {
            vstd::seq_lib::to_multiset_remove(rem_old, best as int);
            vstd::seq_lib::to_multiset_build(out_old, m);
            assert(rem@.to_multiset() =~= rem_old.to_multiset().remove(m));
            assert(out_old.push(m).to_multiset() =~= out_old.to_multiset().insert(m));
            assert(rem_old.contains(m));
            vstd::seq_lib::to_multiset_contains(rem_old, m);
            assert(rem_old.to_multiset().count(m) > 0);
            assert forall|x: AddressRange|
                out_old.push(m).to_multiset().add(rem@.to_multiset()).count(x)
                    == out_old.to_multiset().add(rem_old.to_multiset()).count(x) by {}
            assert(out_old.push(m).to_multiset().add(rem@.to_multiset()) =~= orig.to_multiset());
        }
        out.push(m);
        proof {
            assert forall|i: int, j: int| #![trigger out@[i], rem@[j]]
                0 <= i < out@.len() && 0 <= j < rem@.len() implies range_le(out@[i], rem@[j]) by {
                let y = if j < best { rem_old[j] } else { rem_old[j + 1] };
                assert(rem@[j] == y);
                if i < out_old.len() {
                    assert(range_le(out_old[i], y));
                } else {
                    assert(out@[i] == m);
                    assert(range_le(rem_old[best as int], y));
                }
            }
            assert forall|i: int, j: int| #![trigger out@[i], out@[j]]
                0 <= i < j < out@.len() implies range_le(out@[i], out@[j]) by {
                if j < out_old.len() {
                    assert(range_le(out_old[i], out_old[j]));
                } else {
                    assert(out@[j] == m);
                    assert(range_le(out_old[i], rem_old[best as int]));
                }
            }
            if sorted_ranges(orig) {
                assert(best == 0);
                assert(m == orig[out_old.len() as int]);
                assert(out@ =~= orig.subrange(0, out@.len() as int));
                assert(rem@ =~= orig.subrange(out@.len() as int, orig.len() as int));
            }
        }
    }
    proof {
        assert(rem@ =~= Seq::<AddressRange>::empty());
        assert forall|x: AddressRange| rem@.to_multiset().count(x) == 0 by {
            vstd::seq_lib::to_multiset_contains(rem@, x);
            if rem@.to_multiset().count(x) > 0 {
                assert(rem@.contains(x));
            }
        }
        assert(out@.to_multiset() =~= orig.to_multiset());
        if sorted_ranges(orig) {
            assert(out@ =~= orig);
        }
    }
    out
}

/// The coalescing walk over a sorted list: the accumulator grows while the
/// next range starts exactly one past its end, and is emitted otherwise.
pub open spec fn merge_walk(acc: AddressRange, rest: Seq<AddressRange>) -> Seq<AddressRange>
    decreases rest.len(),
{
    if rest.len() == 0 {
        seq![acc]
    } else if rest[0].start == acc.last + 1 {
        merge_walk(AddressRange { start: acc.start, last: rest[0].last }, rest.drop_first())
    } else {
        seq![acc] + merge_walk(rest[0], rest.drop_first())
    }
}

/// The walk emits well-formed ranges, in start order, beginning at the
/// accumulator's start.
pub proof fn lemma_walk_shape(acc: AddressRange, rest: Seq<AddressRange>)
    requires
        range_ok(acc),
        ranges_ok(rest),
        sorted_starts(rest),
        forall|j: int| 0 <= j < rest.len() ==> acc.start <= #[trigger] rest[j].start,
    ensures
        merge_walk(acc, rest).len() >= 1,
        ranges_ok(merge_walk(acc, rest)),
        sorted_starts(merge_walk(acc, rest)),
        merge_walk(acc, rest)[0].start == acc.start,
        forall|k: int|
            0 <= k < merge_walk(acc, rest).len() ==> acc.start <= #[trigger] merge_walk(
                acc,
                rest,
            )[k].start,
    decreases rest.len(),
{
    if rest.len() == 0 {
    } else {
        let tail = rest.drop_first();
        assert(ranges_ok(tail) && sorted_starts(tail)) by {
            assert(forall|j: int| 0 <= j < tail.len() ==> tail[j] == rest[j + 1]);
        }
        if rest[0].start == acc.last + 1 {
            let acc2 = AddressRange { start: acc.start, last: rest[0].last };
            assert(range_ok(rest[0]));
            lemma_walk_shape(acc2, tail);
        } else {
            assert(forall|j: int| 0 <= j < tail.len() ==> rest[0].start <= #[trigger] tail[j].start);
            lemma_walk_shape(rest[0], tail);
            let w = merge_walk(rest[0], tail);
            let all = seq![acc] + w;
            assert forall|i: int, j: int| #![trigger all[i], all[j]]
                0 <= i < j < all.len() implies all[i].start <= all[j].start by {
                if i > 0 {
                    assert(all[i] == w[i - 1] && all[j] == w[j - 1]);
                } else {
                    assert(all[j] == w[j - 1]);
                }
            }
        }
    }
}

/// The walk loses and gains no address.
pub proof fn lemma_walk_union(acc: AddressRange, rest: Seq<AddressRange>)
    requires
        range_ok(acc),
        ranges_ok(rest),
    ensures
        addr_union(merge_walk(acc, rest)) =~= addr_union(seq![acc] + rest),
    decreases rest.len(),
{
    if rest.len() == 0 {
        assert(seq![acc] + rest =~= seq![acc]);
    } else {
        let tail = rest.drop_first();
        assert(ranges_ok(tail)) by {
            assert(forall|j: int| 0 <= j < tail.len() ==> tail[j] == rest[j + 1]);
        }
        assert(range_ok(rest[0]));
        if rest[0].start == acc.last + 1 {
            let acc2 = AddressRange { start: acc.start, last: rest[0].last };
            lemma_walk_union(acc2, tail);
            assert forall|a: int|
                addr_union(seq![acc2] + tail).contains(a) <==> addr_union(
                    seq![acc] + rest,
                ).contains(a) by {
                if addr_union(seq![acc2] + tail).contains(a) {
                    let i = choose|i: int|
                        0 <= i < (seq![acc2] + tail).len() && in_range(
                            #[trigger] (seq![acc2] + tail)[i],
                            a,
                        );
                    if i == 0 {
                        if a <= acc.last {
                            assert(in_range((seq![acc] + rest)[0], a));
                        } else {
                            assert(in_range((seq![acc] + rest)[1], a));
                        }
                    } else {
                        assert((seq![acc2] + tail)[i] == rest[i]);
                        assert(in_range((seq![acc] + rest)[i + 1], a));
                    }
                }
                if addr_union(seq![acc] + rest).contains(a) {
                    let i = choose|i: int|
                        0 <= i < (seq![acc] + rest).len() && in_range(
                            #[trigger] (seq![acc] + rest)[i],
                            a,
                        );
                    if i == 0 || i == 1 {
                        assert(in_range((seq![acc2] + tail)[0], a));
                    } else {
                        assert((seq![acc] + rest)[i] == tail[i - 2]);
                        assert(in_range((seq![acc2] + tail)[i - 1], a));
                    }
                }
            }
        } else {
            lemma_walk_union(rest[0], tail);
            let w = merge_walk(rest[0], tail);
            lemma_addr_union_concat(seq![acc], w);
            lemma_addr_union_concat(seq![acc], rest);
            assert(seq![rest[0]] + tail =~= rest);
            assert(addr_union(w) =~= addr_union(rest));
        }
    }
}

/// On chained input the walk produces a maximally merged list.
pub proof fn lemma_walk_merged(acc: AddressRange, rest: Seq<AddressRange>)
    requires
        range_ok(acc),
        ranges_ok(rest),
        forall|i: int, j: int| #![trigger rest[i], rest[j]]
            0 <= i < j < rest.len() ==> rest[i].last < rest[j].start,
        forall|j: int| 0 <= j < rest.len() ==> acc.last < #[trigger] rest[j].start,
    ensures
        merged_form(merge_walk(acc, rest)),
    decreases rest.len(),
{
    if rest.len() == 0 {
    } else {
        let tail = rest.drop_first();
        assert(forall|j: int| 0 <= j < tail.len() ==> tail[j] == rest[j + 1]);
        if rest[0].start == acc.last + 1 {
            let acc2 = AddressRange { start: acc.start, last: rest[0].last };
            assert(range_ok(rest[0]));
            lemma_walk_merged(acc2, tail);
        } else {
            lemma_walk_merged(rest[0], tail);
            let w = merge_walk(rest[0], tail);
            assert(sorted_starts(tail));
            assert(forall|j: int| 0 <= j < tail.len() ==> rest[0].start <= #[trigger] tail[j].start);
            lemma_walk_shape(rest[0], tail);
            let all = seq![acc] + w;
            assert(acc.last + 1 < rest[0].start == w[0].start);
            assert forall|i: int| #![trigger all[i]]
                0 <= i < all.len() - 1 implies all[i].last + 1 < all[i + 1].start by {
                if i == 0 {
                    assert(all[1] == w[0]);
                } else {
                    assert(all[i] == w[i - 1] && all[i + 1] == w[i]);
                }
            }
            assert(ranges_ok(all)) by {
                assert(forall|i: int| 1 <= i < all.len() ==> all[i] == w[i - 1]);
            }
        }
    }
}

/// On input already in merged form the walk changes nothing.
pub proof fn lemma_walk_identity(acc: AddressRange, rest: Seq<AddressRange>)
    requires
        merged_form(seq![acc] + rest),
    ensures
        merge_walk(acc, rest) == seq![acc] + rest,
    decreases rest.len(),
{
    let all = seq![acc] + rest;
    assert(range_ok(all[0]));
    if rest.len() == 0 {
        assert(merge_walk(acc, rest) =~= all);
    } else {
        let tail = rest.drop_first();
        assert(rest[0] == all[1]);
        assert(acc.last + 1 < rest[0].start);
        assert(merge_walk(acc, rest) == seq![acc] + merge_walk(rest[0], tail));
        assert(merged_form(seq![rest[0]] + tail)) by {
            assert(seq![rest[0]] + tail =~= rest);
            assert(forall|i: int| 0 <= i < rest.len() ==> rest[i] == all[i + 1]);
            assert forall|i: int| #![trigger rest[i]]
                0 <= i < rest.len() - 1 implies rest[i].last + 1 < rest[i + 1].start by {
                assert(all[i + 1].last + 1 < all[i + 2].start);
            }
            assert(ranges_ok(rest));
        }
        lemma_walk_identity(rest[0], tail);
        assert(merge_walk(acc, rest) =~= all);
    }
}

/// Sorts the filtered delegations and coalesces every run of contiguous
/// ranges into one; fails on an empty input.
///
/// On success the result covers exactly the same addresses as the input.
/// If the input ranges are pairwise disjoint the result is maximally merged:
/// consecutive ranges are separated by at least one address. An input already
/// in merged form is returned unchanged, so merging is idempotent.
pub fn merge_ranges(input: Vec<AddressRange>) -> (r: Result<Vec<AddressRange>, Error>)
    requires
        ranges_ok(input@),
    ensures
        r is Err <==> input@.len() == 0,
        r is Err ==> r->Err_0 == Error::RoutesEmpty,
        r is Ok ==> {
            let out = r->Ok_0@;
            &&& out.len() >= 1
            &&& ranges_ok(out)
            &&& sorted_starts(out)
            &&& addr_union(out) == addr_union(input@)
            &&& (pairwise_disjoint(input@) ==> merged_form(out))
            &&& (merged_form(input@) ==> out == input@)
        },
{
    if input.len() == 0 {
        return Err(Error::RoutesEmpty);
    }
    let ghost input_view = input@;
    proof {
        if merged_form(input_view) {
            assert forall|i: int, j: int| #![trigger input_view[i], input_view[j]]
                0 <= i < j < input_view.len() implies range_le(input_view[i], input_view[j]) by {
                lemma_merged_chain(input_view, i, j);
                assert(range_ok(input_view[i]));
            }
        }
    }
    let sorted = sort_ranges(input);
    let ghost sv = sorted@;
    proof {
        assert forall|k: int| 0 <= k < sv.len() implies range_ok(#[trigger] sv[k]) by {
            assert(sv.contains(sv[k]));
            vstd::seq_lib::to_multiset_contains(sv, sv[k]);
            vstd::seq_lib::to_multiset_contains(input_view, sv[k]);
            assert(input_view.contains(sv[k]));
            let i = choose|i: int| 0 <= i < input_view.len() && input_view[i] == sv[k];
            assert(range_ok(input_view[i]));
        }
        lemma_addr_union_perm(sv, input_view);
    }
    let mut out: Vec<AddressRange> = Vec::new();
    let mut acc = sorted[0];
    let mut i: usize = 1;
    proof {
        assert(sv.skip(1) =~= sv.drop_first());
        assert(merge_walk(sv[0], sv.skip(1)) =~= out@ + merge_walk(acc, sv.skip(i as int)));
    }
    while i < sorted.len()
        invariant
            1 <= i <= sv.len(),
            sv == sorted@,
            merge_walk(sv[0], sv.skip(1)) == out@ + merge_walk(acc, sv.skip(i as int)),
        decreases sv.len() - i,
    {
        let nxt = sorted[i];
        proof {
            let rest = sv.skip(i as int);
            assert(rest[0] == sv[i as int]);
            assert(rest.drop_first() =~= sv.skip(i + 1));
        }
        if acc.last < nxt.start && nxt.start - 1 == acc.last {
            acc = AddressRange { start: acc.start, last: nxt.last };
        } else {
            proof {
                let rest = sv.skip(i as int);
                assert(out@ + (seq![acc] + merge_walk(rest[0], rest.drop_first())) =~= out@.push(
                    acc,
                ) + merge_walk(rest[0], rest.drop_first()));
            }
            out.push(acc);
            acc = nxt;
        }
        i = i + 1;
    }
    proof {
        assert(sv.skip(i as int) =~= Seq::<AddressRange>::empty());
        assert(out@ + merge_walk(acc, sv.skip(i as int)) =~= out@.push(acc));
    }
    out.push(acc);
    proof {
        let walk_out = merge_walk(sv[0], sv.skip(1));
        assert(out@ == walk_out);
        let tail = sv.skip(1);
        assert(ranges_ok(tail)) by {
            assert(forall|j: int| 0 <= j < tail.len() ==> tail[j] == sv[j + 1]);
        }
        assert(sorted_starts(tail)) by {
            assert(forall|j: int| 0 <= j < tail.len() ==> tail[j] == sv[j + 1]);
        }
        assert(forall|j: int| 0 <= j < tail.len() ==> sv[0].start <= #[trigger] tail[j].start) by {
            assert(forall|j: int| 0 <= j < tail.len() ==> tail[j] == sv[j + 1]);
        }
        lemma_walk_shape(sv[0], tail);
        lemma_walk_union(sv[0], tail);
        assert(seq![sv[0]] + tail =~= sv);
        assert(addr_union(out@) =~= addr_union(input_view));
        if pairwise_disjoint(input_view) {
            lemma_disjoint_perm(input_view, sv);
            lemma_sorted_disjoint_chain(sv);
            assert(forall|a: int, b: int| #![trigger tail[a], tail[b]]
                0 <= a < b < tail.len() ==> tail[a].last < tail[b].start) by {
                assert(forall|j: int| 0 <= j < tail.len() ==> tail[j] == sv[j + 1]);
            }
            assert(forall|j: int| 0 <= j < tail.len() ==> sv[0].last < #[trigger] tail[j].start) by {
                assert(forall|j: int| 0 <= j < tail.len() ==> tail[j] == sv[j + 1]);
            }
            lemma_walk_merged(sv[0], tail);
        }
        if merged_form(input_view) {
            assert(sv == input_view);
            assert(merged_form(seq![sv[0]] + tail)) by {
                assert(seq![sv[0]] + tail =~= sv);
            }
            lemma_walk_identity(sv[0], tail);
            assert(out@ =~= input_view);
        }
    }
    Ok(out)
}

} // verus!
