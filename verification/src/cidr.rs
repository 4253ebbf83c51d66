//! Greedy subdivision of merged ranges into aligned power-of-two CIDR blocks.

use crate::range::{addr_union, in_range, merged_form, range_ok, ranges_ok, sorted_starts, AddressRange};
use vstd::arithmetic::div_mod::{lemma_fundamental_div_mod, lemma_mod_breakdown};
use vstd::arithmetic::power2::{lemma_pow2_adds, lemma_pow2_pos, lemma_pow2_strictly_increases, pow2};
use vstd::prelude::*;

verus! {

/// One CIDR block: `base/prefix` within an address family of `width` bits,
/// covering `pow2(width - prefix)` addresses.
#[derive(Clone, Copy, PartialEq, Eq, Structural, Debug)]
pub struct CidrBlock {
    pub base: u128,
    pub prefix: u32,
}

pub open spec fn block_size(b: CidrBlock, width: nat) -> int {
    pow2((width - b.prefix) as nat) as int
}

pub open spec fn block_end(b: CidrBlock, width: nat) -> int {
    b.base + block_size(b, width)
}

/// Well-formed: the prefix fits the family and the base is aligned to the
/// block size, which keeps the whole block inside the address space.
pub open spec fn block_ok(b: CidrBlock, width: nat) -> bool {
    &&& b.prefix <= width
    &&& block_end(b, width) <= pow2(width)
    &&& b.base as int % block_size(b, width) == 0
}

pub open spec fn blocks_ok(bs: Seq<CidrBlock>, width: nat) -> bool {
    forall|k: int| 0 <= k < bs.len() ==> block_ok(#[trigger] bs[k], width)
}

pub open spec fn in_block(b: CidrBlock, width: nat, a: int) -> bool {
    b.base <= a < block_end(b, width)
}

/// The set of addresses covered by a list of blocks.
pub open spec fn blocks_union(bs: Seq<CidrBlock>, width: nat) -> Set<int> {
    Set::new(|a: int| exists|i: int| 0 <= i < bs.len() && in_block(#[trigger] bs[i], width, a))
}

/// Consecutive blocks tile one range: each begins where the previous ended.
pub open spec fn blocks_chain(bs: Seq<CidrBlock>, width: nat) -> bool {
    forall|i: int| #![trigger bs[i]]
        0 <= i < bs.len() - 1 ==> block_end(bs[i], width) == bs[i + 1].base
}

/// Blocks in ascending order without overlap (gaps allowed).
pub open spec fn blocks_ascend(bs: Seq<CidrBlock>, width: nat) -> bool {
    forall|i: int| #![trigger bs[i]]
        0 <= i < bs.len() - 1 ==> block_end(bs[i], width) <= bs[i + 1].base
}

/// Greedy-minimal relative to the covered range's end `endv`: the block
/// could not be replaced by the double-sized aligned block without either
/// breaking alignment or covering addresses past `endv`.
pub open spec fn block_maximal(b: CidrBlock, width: nat, endv: int) -> bool {
    b.prefix >= 1 ==> !(b.base as int % (2 * block_size(b, width)) == 0 && b.base + 2
        * block_size(b, width) <= endv)
}

/// A chained, well-formed block list covers exactly the interval from its
/// first base to its last end.
#[verifier::rlimit(100)]
pub proof fn lemma_chain_union(bs: Seq<CidrBlock>, width: nat, lo: int, hi: int)
    requires
        bs.len() >= 1,
        blocks_ok(bs, width),
        blocks_chain(bs, width),
        bs[0].base == lo,
        block_end(bs[bs.len() - 1], width) == hi,
    ensures
        blocks_union(bs, width) =~= Set::new(|a: int| lo <= a < hi),
    decreases bs.len(),
{
    lemma_pow2_pos((width - bs[0].prefix) as nat);
    let goal = Set::new(|a: int| lo <= a < hi);
    if bs.len() == 1 {
        assert forall|a: int| blocks_union(bs, width).contains(a) implies goal.contains(a) by {
            let i = choose|i: int| 0 <= i < bs.len() && in_block(#[trigger] bs[i], width, a);
            assert(i == 0);
        }
        assert forall|a: int| goal.contains(a) implies blocks_union(bs, width).contains(a) by {
            assert(in_block(bs[0], width, a));
        }
    } else {
        let tail = bs.drop_first();
        assert(forall|k: int| 0 <= k < tail.len() ==> tail[k] == bs[k + 1]);
        let mid = block_end(bs[0], width);
        lemma_chain_union(tail, width, mid, hi);
        assert(blocks_union(tail, width).contains(mid)) by {
            lemma_pow2_pos((width - tail[0].prefix) as nat);
            assert(in_block(tail[0], width, mid));
        }
        assert(mid <= hi);
        assert forall|a: int| blocks_union(bs, width).contains(a) implies goal.contains(a) by {
            let i = choose|i: int| 0 <= i < bs.len() && in_block(#[trigger] bs[i], width, a);
            if i > 0 {
                assert(in_block(tail[i - 1], width, a));
                assert(blocks_union(tail, width).contains(a));
            }
        }
        assert forall|a: int| goal.contains(a) implies blocks_union(bs, width).contains(a) by {
            if a < mid {
                assert(in_block(bs[0], width, a));
            } else {
                assert(blocks_union(tail, width).contains(a));
                let i = choose|i: int|
                    0 <= i < tail.len() && in_block(#[trigger] tail[i], width, a);
                assert(in_block(bs[i + 1], width, a));
            }
        }
    }
}

/// In an ascending list every earlier block ends before a later one begins.
pub proof fn lemma_ascend_mono(bs: Seq<CidrBlock>, width: nat, i: int, j: int)
    requires
        blocks_ok(bs, width),
        blocks_ascend(bs, width),
        0 <= i < j < bs.len(),
    ensures
        block_end(bs[i], width) <= bs[j].base,
    decreases j - i,
{
    if j == i + 1 {
    } else {
        lemma_ascend_mono(bs, width, i, j - 1);
        lemma_pow2_pos((width - bs[j - 1].prefix) as nat);
    }
}

/// No address lies in two blocks of an ascending well-formed list.
pub proof fn lemma_ascend_disjoint(bs: Seq<CidrBlock>, width: nat)
    requires
        blocks_ok(bs, width),
        blocks_ascend(bs, width),
    ensures
        forall|i: int, j: int, a: int| #![trigger in_block(bs[i], width, a), in_block(bs[j], width, a)]
            0 <= i < j < bs.len() ==> !(in_block(bs[i], width, a) && in_block(bs[j], width, a)),
{
    assert forall|i: int, j: int, a: int| #![trigger in_block(bs[i], width, a), in_block(bs[j], width, a)]
        0 <= i < j < bs.len() implies !(in_block(bs[i], width, a) && in_block(
        bs[j],
        width,
        a,
    )) by {
        if 0 <= i < j < bs.len() {
            lemma_ascend_mono(bs, width, i, j);
        }
    }
}

/// Subdivides one merged range into the minimal ordered list of aligned
/// power-of-two blocks exactly covering it.
///
/// The blocks tile the range: the first begins at its start, each next block
/// begins where the previous ended, and the last ends one past `r.last`.
/// Every block is aligned to its size, and none could be doubled without
/// breaking alignment or leaving the range.
pub fn subdivide_range(r: AddressRange, width: u32) -> (bs: Vec<CidrBlock>)
    requires
        width == 32 || width == 128,
        range_ok(r),
        (r.last as int) < pow2(width as nat),
    ensures
        bs@.len() >= 1,
        blocks_ok(bs@, width as nat),
        blocks_chain(bs@, width as nat),
        bs@[0].base == r.start,
        block_end(bs@[bs@.len() - 1], width as nat) == r.last + 1,
        forall|k: int|
            0 <= k < bs@.len() ==> block_maximal(#[trigger] bs@[k], width as nat, r.last + 1),
{
    let ghost w = width as nat;
    proof {
        vstd::arithmetic::power2::lemma2_to64();
        lemma_pow2_adds(64, 64);
        assert(pow2(32) == 0x100000000);
        assert(pow2(128) == 0x100000000000000000000000000000000);
    }
    if width == 128 && r.start == 0 && r.last == u128::MAX {
        let b = CidrBlock { base: 0, prefix: 0 };
        let mut bs: Vec<CidrBlock> = Vec::new();
        proof {
            lemma_pow2_pos(128);
            assert(b.prefix <= w);
            assert(block_size(b, w) == pow2(128) as int);
            vstd::arithmetic::div_mod::lemma_small_mod(0, pow2(128));
            assert(b.base as int % block_size(b, w) == 0);
            assert(block_ok(b, w));
        }
        bs.push(b);
        bs
    } else {
        let mut bs: Vec<CidrBlock> = Vec::new();
        let mut cur: u128 = r.start;
        let mut done = false;
        proof {
            if cur == 0 {
                assert(r.last < u128::MAX);
            }
        }
        while !done
            invariant
                width == 32 || width == 128,
                w == width as nat,
                pow2(32) == 0x100000000,
                pow2(128) == 0x100000000000000000000000000000000,
                range_ok(r),
                (r.last as int) < pow2(w),
                r.start <= cur <= r.last,
                cur == 0 ==> r.last < u128::MAX,
                blocks_ok(bs@, w),
                blocks_chain(bs@, w),
                bs@.len() == 0 ==> cur == r.start && !done,
                bs@.len() > 0 ==> bs@[0].base == r.start,
                bs@.len() > 0 && !done ==> block_end(bs@[bs@.len() - 1], w) == cur,
                done ==> bs@.len() > 0 && block_end(bs@[bs@.len() - 1], w) == r.last + 1,
                forall|k: int|
                    0 <= k < bs@.len() ==> block_maximal(#[trigger] bs@[k], w, r.last + 1),
            decreases r.last - cur + (if done { 0int } else { 1int }),
        {
            let d = r.last - cur;
            let len = d + 1;
            // the largest power of two not exceeding the remaining length
            let mut sb: u32 = 0;
            let mut sp: u128 = 1;
            proof {
                assert(pow2(0) == 1) by {
                    vstd::arithmetic::power2::lemma2_to64();
                }
            }
            while sb < width && sp <= len / 2
                invariant
                    sp == pow2(sb as nat),
                    1 <= sp <= len,
                    sb <= width,
                    len >= 1,
                decreases width - sb,
            {
                proof {
                    lemma_fundamental_div_mod(len as int, 2);
                    lemma_pow2_adds(sb as nat, 1);
                    assert(pow2(1) == 2) by {
                        vstd::arithmetic::power2::lemma2_to64();
                    }
                }
                sp = sp * 2;
                sb = sb + 1;
            }
            proof {
                if sb < width {
                    lemma_fundamental_div_mod(len as int, 2);
                    lemma_pow2_adds(sb as nat, 1);
                    assert(pow2(1) == 2) by {
                        vstd::arithmetic::power2::lemma2_to64();
                    }
                    assert(2 * pow2(sb as nat) > len);
                }
            }
            // the largest power of two the current base is aligned to, capped
            // at the family width
            let bits: u32;
            let p: u128;
            if cur == 0 {
                bits = sb;
                p = sp;
            } else {
                let mut ab: u32 = 0;
                let mut ap: u128 = 1;
                proof {
                    assert(pow2(0) == 1) by {
                        vstd::arithmetic::power2::lemma2_to64();
                    }
                }
                while ab < width && (cur / ap) % 2 == 0
                    invariant
                        ap == pow2(ab as nat),
                        ap >= 1,
                        cur as int % ap as int == 0,
                        ab <= width,
                        cur > 0,
                    decreases width - ab,
                {
                    proof {
                        lemma_mod_breakdown(cur as int, ap as int, 2);
                        lemma_pow2_adds(ab as nat, 1);
                        assert(pow2(1) == 2) by {
                            vstd::arithmetic::power2::lemma2_to64();
                        }
                        assert((cur as int / ap as int) % 2 == 0);
                        assert(ap as int * ((cur as int / ap as int) % 2) == 0)
                            by (nonlinear_arith)
                            requires
                                (cur as int / ap as int) % 2 == 0,
                        ;
                        assert(cur as int % (ap as int * 2) == 0);
                        let q = cur as int / (ap as int * 2);
                        lemma_fundamental_div_mod(cur as int, ap as int * 2);
                        assert(cur as int == ap as int * 2 * q);
                        assert(q >= 1) by {
                            if q <= 0 {
                                assert(ap as int * 2 * q <= 0) by (nonlinear_arith)
                                    requires
                                        ap as int >= 1,
                                        q <= 0,
                                ;
                            }
                        }
                        assert(cur as int >= ap as int * 2) by (nonlinear_arith)
                            requires
                                cur as int == ap as int * 2 * q,
                                q >= 1,
                                ap as int >= 1,
                        ;
                    }
                    ap = ap * 2;
                    ab = ab + 1;
                }
                proof {
                    if ab < width {
                        lemma_mod_breakdown(cur as int, ap as int, 2);
                        lemma_pow2_adds(ab as nat, 1);
                        assert(pow2(1) == 2) by {
                            vstd::arithmetic::power2::lemma2_to64();
                        }
                        assert((cur as int / ap as int) % 2 == 1);
                        assert(cur as int % (pow2(ab as nat + 1) as int) == ap as int * 1 + 0);
                        assert(cur as int % (pow2(ab as nat + 1) as int) != 0);
                    }
                }
                if sb <= ab {
                    bits = sb;
                    p = sp;
                    proof {
                        if sb < ab {
                            lemma_pow2_adds(sb as nat, (ab - sb) as nat);
                            lemma_pow2_pos((ab - sb) as nat);
                            let f = pow2((ab - sb) as nat) as int;
                            lemma_mod_breakdown(cur as int, sp as int, f);
                            assert(sp as int * ((cur as int / sp as int) % f) >= 0)
                                by (nonlinear_arith)
                                requires
                                    sp as int >= 1,
                                    f >= 1,
                            ;
                        }
                        assert(cur as int % sp as int == 0);
                    }
                } else {
                    bits = ab;
                    p = ap;
                    proof {
                        lemma_pow2_strictly_increases(ab as nat, sb as nat);
                        assert(ap < sp);
                    }
                }
            }
            proof {
                lemma_pow2_pos(bits as nat);
                assert(p >= 1);
                assert(p <= len);
                if cur == 0 {
                    vstd::arithmetic::div_mod::lemma_small_mod(0, p as nat);
                }
                assert(cur as int % p as int == 0);
            }
            let b = CidrBlock { base: cur, prefix: width - bits };
            proof {
                assert(block_size(b, w) == p);
                assert(block_end(b, w) == cur + p <= r.last + 1);
                assert(block_ok(b, w));
                // greedy maximality: the doubled block is misaligned or
                // overshoots the range
                if b.prefix >= 1 {
                    lemma_pow2_adds(bits as nat, 1);
                    assert(pow2(1) == 2) by {
                        vstd::arithmetic::power2::lemma2_to64();
                    }
                    if cur == 0 {
                        assert(bits == sb && sb < width);
                        assert(2 * p > len);
                    } else if bits < sb {
                        // alignment-limited: doubling breaks alignment
                        assert(cur as int % (2 * p as int) != 0);
                    } else {
                        assert(bits == sb && sb < width);
                        assert(2 * p > len);
                    }
                }
                assert(block_maximal(b, w, r.last + 1));
                // the new block extends the chain
                assert(forall|k: int| 0 <= k < bs@.len() ==> bs@.push(b)[k] == bs@[k]);
                assert(bs@.push(b)[bs@.len() as int] == b);
            }
            bs.push(b);
            if p - 1 == d {
                done = true;
            } else {
                proof {
                    assert(p <= d);
                }
                cur = cur + p;
            }
        }
        bs
    }
}

/// The blocks exactly tile one range: they are well-formed, consecutive,
/// begin at its start, end one past its last address, and each is greedily
/// maximal for that range. For a given range, exactly one block list
/// satisfies this: at each position the block size is forced to the largest
/// aligned power of two that still fits.
pub open spec fn tiling_of(bs: Seq<CidrBlock>, r: AddressRange, width: nat) -> bool {
    &&& bs.len() >= 1
    &&& blocks_ok(bs, width)
    &&& blocks_chain(bs, width)
    &&& bs[0].base == r.start
    &&& block_end(bs[bs.len() - 1], width) == r.last + 1
    &&& forall|k: int| 0 <= k < bs.len() ==> block_maximal(#[trigger] bs[k], width, r.last + 1)
}

/// `bs` is the concatenation, in order, of one tiling per range of `ms`.
pub open spec fn tiles_ranges(bs: Seq<CidrBlock>, ms: Seq<AddressRange>, width: nat) -> bool
    decreases ms.len(),
{
    if ms.len() == 0 {
        bs.len() == 0
    } else {
        exists|n: int|
            1 <= n <= bs.len() && #[trigger] tiling_of(bs.subrange(0, n), ms[0], width)
                && tiles_ranges(bs.subrange(n, bs.len() as int), ms.drop_first(), width)
    }
}

proof fn lemma_mod_pow2_weaken(x: int, a: nat, b: nat)
    requires
        0 <= x,
        a <= b,
        x % (pow2(b) as int) == 0,
    ensures
        x % (pow2(a) as int) == 0,
{
    if a < b {
        lemma_pow2_adds(a, (b - a) as nat);
        lemma_pow2_pos(a);
        lemma_pow2_pos((b - a) as nat);
        let f = pow2((b - a) as nat) as int;
        lemma_mod_breakdown(x, pow2(a) as int, f);
        assert(pow2(a) as int * ((x / pow2(a) as int) % f) >= 0) by (nonlinear_arith)
            requires
                pow2(a) as int >= 1,
                f >= 1,
        ;
    }
}

/// In a tiling every block ends inside the range.
proof fn lemma_tiling_within(bs: Seq<CidrBlock>, r: AddressRange, width: nat)
    requires
        tiling_of(bs, r, width),
    ensures
        forall|k: int| 0 <= k < bs.len() ==> block_end(#[trigger] bs[k], width) <= r.last + 1,
{
    assert forall|k: int| 0 <= k < bs.len() implies block_end(#[trigger] bs[k], width) <= r.last
        + 1 by {
        if k < bs.len() - 1 {
            lemma_ascend_mono(bs, width, k, bs.len() - 1);
            lemma_pow2_pos((width - bs[bs.len() - 1].prefix) as nat);
        }
    }
}

/// A tiling of more than one block continues past its first block as a
/// tiling of the rest of the range.
proof fn lemma_tiling_tail(bs: Seq<CidrBlock>, r: AddressRange, width: nat)
    requires
        tiling_of(bs, r, width),
        bs.len() > 1,
    ensures
        block_end(bs[0], width) <= r.last,
        tiling_of(
            bs.drop_first(),
            AddressRange { start: block_end(bs[0], width) as u128, last: r.last },
            width,
        ),
{
    lemma_tiling_within(bs, r, width);
    lemma_pow2_pos((width - bs[1].prefix) as nat);
    assert(bs[1].base == block_end(bs[0], width));
    assert(block_end(bs[1], width) <= r.last + 1);
    let tl = bs.drop_first();
    assert(forall|k: int| 0 <= k < tl.len() ==> tl[k] == bs[k + 1]);
    let r2 = AddressRange { start: block_end(bs[0], width) as u128, last: r.last };
    assert(blocks_ok(tl, width)) by {
        assert(forall|k: int| 0 <= k < tl.len() ==> block_ok(#[trigger] tl[k], width));
    }
    assert(blocks_chain(tl, width)) by {
        assert(forall|k: int| #![trigger tl[k]]
            0 <= k < tl.len() - 1 ==> block_end(tl[k], width) == tl[k + 1].base);
    }
    assert(forall|k: int|
        0 <= k < tl.len() ==> block_maximal(#[trigger] tl[k], width, r2.last + 1));
    assert(tl[tl.len() - 1] == bs[bs.len() - 1]);
}

/// A tiling is a single block exactly when that block reaches the range's end.
proof fn lemma_tiling_singleton(bs: Seq<CidrBlock>, r: AddressRange, width: nat)
    requires
        tiling_of(bs, r, width),
    ensures
        (bs.len() == 1) <==> (block_end(bs[0], width) == r.last + 1),
{
    if bs.len() > 1 {
        lemma_tiling_tail(bs, r, width);
    }
}

/// A range has exactly one tiling: at each position the greedy rules force
/// the block, so subdivision is deterministic.
#[verifier::rlimit(100)]
pub proof fn lemma_tiling_unique(
    bs1: Seq<CidrBlock>,
    bs2: Seq<CidrBlock>,
    r: AddressRange,
    width: nat,
)
    requires
        tiling_of(bs1, r, width),
        tiling_of(bs2, r, width),
        range_ok(r),
    ensures
        bs1 == bs2,
    decreases bs1.len(),
{
    let b1 = bs1[0];
    let b2 = bs2[0];
    lemma_first_prefix_le(bs1, bs2, r, width);
    lemma_first_prefix_le(bs2, bs1, r, width);
    assert(b1 == b2);
    lemma_tiling_singleton(bs1, r, width);
    lemma_tiling_singleton(bs2, r, width);
    if bs1.len() == 1 {
        assert(bs2.len() == 1);
        assert(bs1 =~= bs2);
    } else {
        assert(bs2.len() > 1);
        lemma_tiling_tail(bs1, r, width);
        lemma_tiling_tail(bs2, r, width);
        let r2 = AddressRange { start: block_end(b1, width) as u128, last: r.last };
        lemma_tiling_unique(bs1.drop_first(), bs2.drop_first(), r2, width);
        assert(bs1.len() == bs2.len());
        assert forall|k: int| 0 <= k < bs1.len() implies bs1[k] == bs2[k] by {
            if k > 0 {
                assert(bs1[k] == bs1.drop_first()[k - 1]);
                assert(bs2[k] == bs2.drop_first()[k - 1]);
            }
        }
        assert(bs1 =~= bs2);
    }
}

/// A range list admits exactly one concatenation of tilings, so the emitted
/// block list — and with it the rendered route table — is a function of the
/// merged ranges.
#[verifier::rlimit(100)]
pub proof fn lemma_tiles_ranges_unique(
    bs1: Seq<CidrBlock>,
    bs2: Seq<CidrBlock>,
    ms: Seq<AddressRange>,
    width: nat,
)
    requires
        tiles_ranges(bs1, ms, width),
        tiles_ranges(bs2, ms, width),
        ranges_ok(ms),
    ensures
        bs1 == bs2,
    decreases ms.len(),
{
    if ms.len() == 0 {
        assert(bs1 =~= bs2);
    } else {
        let n1 = choose|n: int|
            1 <= n <= bs1.len() && #[trigger] tiling_of(bs1.subrange(0, n), ms[0], width)
                && tiles_ranges(bs1.subrange(n, bs1.len() as int), ms.drop_first(), width);
        let n2 = choose|n: int|
            1 <= n <= bs2.len() && #[trigger] tiling_of(bs2.subrange(0, n), ms[0], width)
                && tiles_ranges(bs2.subrange(n, bs2.len() as int), ms.drop_first(), width);
        assert(range_ok(ms[0]));
        lemma_tiling_unique(bs1.subrange(0, n1), bs2.subrange(0, n2), ms[0], width);
        assert(n1 == n2);
        assert(ranges_ok(ms.drop_first())) by {
            assert(forall|k: int| 0 <= k < ms.len() - 1 ==> ms.drop_first()[k] == ms[k + 1]);
        }
        lemma_tiles_ranges_unique(
            bs1.subrange(n1, bs1.len() as int),
            bs2.subrange(n2, bs2.len() as int),
            ms.drop_first(),
            width,
        );
        assert(bs1 =~= bs1.subrange(0, n1) + bs1.subrange(n1, bs1.len() as int));
        assert(bs2 =~= bs2.subrange(0, n2) + bs2.subrange(n2, bs2.len() as int));
        assert(bs1 =~= bs2);
    }
}

/// The greedy maximality rule leaves no room for a strictly smaller first
/// block: the first block of one tiling is never finer than the other's.
proof fn lemma_first_prefix_le(
    bs1: Seq<CidrBlock>,
    bs2: Seq<CidrBlock>,
    r: AddressRange,
    width: nat,
)
    requires
        tiling_of(bs1, r, width),
        tiling_of(bs2, r, width),
    ensures
        bs1[0].prefix <= bs2[0].prefix,
{
    if bs1[0].prefix > bs2[0].prefix {
        lemma_tiling_within(bs2, r, width);
        let b1 = bs1[0];
        let b2 = bs2[0];
        let bits1 = (width - b1.prefix) as nat;
        let bits2 = (width - b2.prefix) as nat;
        lemma_pow2_adds(bits1, 1);
        assert(pow2(1) == 2) by {
            vstd::arithmetic::power2::lemma2_to64();
        }
        assert(2 * block_size(b1, width) == pow2((bits1 + 1) as nat));
        lemma_mod_pow2_weaken(b1.base as int, bits1 + 1, bits2);
        if bits1 + 1 < bits2 {
            lemma_pow2_strictly_increases(bits1 + 1, bits2);
        }
        assert(b1.base + 2 * block_size(b1, width) <= block_end(b2, width));
        assert(block_end(b2, width) <= r.last + 1);
        assert(!block_maximal(b1, width, r.last + 1));
        assert(false);
    }
}

proof fn lemma_tiles_push(
    bs: Seq<CidrBlock>,
    ms: Seq<AddressRange>,
    nb: Seq<CidrBlock>,
    r: AddressRange,
    width: nat,
)
    requires
        tiles_ranges(bs, ms, width),
        tiling_of(nb, r, width),
    ensures
        tiles_ranges(bs + nb, ms.push(r), width),
    decreases ms.len(),
{
    let all = bs + nb;
    let msr = ms.push(r);
    if ms.len() == 0 {
        assert(all.subrange(0, nb.len() as int) =~= nb);
        assert(all.subrange(nb.len() as int, all.len() as int) =~= Seq::<CidrBlock>::empty());
        assert(msr.drop_first() =~= Seq::<AddressRange>::empty());
        assert(tiling_of(all.subrange(0, nb.len() as int), msr[0], width));
        assert(tiles_ranges(
            all.subrange(nb.len() as int, all.len() as int),
            msr.drop_first(),
            width,
        ));
    } else {
        let n = choose|n: int|
            1 <= n <= bs.len() && #[trigger] tiling_of(bs.subrange(0, n), ms[0], width)
                && tiles_ranges(bs.subrange(n, bs.len() as int), ms.drop_first(), width);
        lemma_tiles_push(bs.subrange(n, bs.len() as int), ms.drop_first(), nb, r, width);
        assert(all.subrange(0, n) =~= bs.subrange(0, n));
        assert(all.subrange(n, all.len() as int) =~= bs.subrange(n, bs.len() as int) + nb);
        assert(msr.drop_first() =~= ms.drop_first().push(r));
        assert(tiling_of(all.subrange(0, n), msr[0], width));
        assert(tiles_ranges(all.subrange(n, all.len() as int), msr.drop_first(), width));
    }
}

#[verifier::rlimit(60)]
proof fn lemma_cover_step(
    old_bs: Seq<CidrBlock>,
    nbv: Seq<CidrBlock>,
    rsv: Seq<AddressRange>,
    i: int,
    w: nat,
)
    requires
        0 <= i < rsv.len(),
        blocks_union(old_bs, w) == addr_union(rsv.subrange(0, i)),
        blocks_union(nbv, w) =~= Set::new(|a: int| rsv[i].start <= a < rsv[i].last + 1),
    ensures
        blocks_union(old_bs + nbv, w) =~= addr_union(rsv.subrange(0, i + 1)),
{
    let all = old_bs + nbv;
    let pre = rsv.subrange(0, i + 1);
    assert forall|a: int| blocks_union(all, w).contains(a) implies addr_union(pre).contains(
        a,
    ) by {
        let k = choose|k: int| 0 <= k < all.len() && in_block(#[trigger] all[k], w, a);
        if k < old_bs.len() {
            assert(in_block(old_bs[k], w, a));
            assert(blocks_union(old_bs, w).contains(a));
            let t = choose|t: int|
                0 <= t < i && in_range(#[trigger] rsv.subrange(0, i)[t], a);
            assert(in_range(pre[t], a));
        } else {
            assert(in_block(nbv[k - old_bs.len()], w, a));
            assert(blocks_union(nbv, w).contains(a));
            assert(in_range(pre[i], a));
        }
    }
    assert forall|a: int| addr_union(pre).contains(a) implies blocks_union(all, w).contains(
        a,
    ) by {
        let t = choose|t: int| 0 <= t < pre.len() && in_range(#[trigger] pre[t], a);
        if t < i {
            assert(in_range(rsv.subrange(0, i)[t], a));
            assert(addr_union(rsv.subrange(0, i)).contains(a));
            let k = choose|k: int|
                0 <= k < old_bs.len() && in_block(#[trigger] old_bs[k], w, a);
            assert(in_block(all[k], w, a));
        } else {
            assert(in_range(rsv[i], a));
            assert(blocks_union(nbv, w).contains(a));
            let k = choose|k: int| 0 <= k < nbv.len() && in_block(#[trigger] nbv[k], w, a);
            assert(in_block(all[old_bs.len() + k], w, a));
        }
    }
}

proof fn lemma_ascend_step(old_bs: Seq<CidrBlock>, nbv: Seq<CidrBlock>, w: nat)
    requires
        blocks_ascend(old_bs, w),
        blocks_chain(nbv, w),
        nbv.len() >= 1,
        old_bs.len() > 0 ==> block_end(old_bs[old_bs.len() - 1], w) <= nbv[0].base,
    ensures
        blocks_ascend(old_bs + nbv, w),
{
    let all = old_bs + nbv;
    assert forall|k: int| #![trigger all[k]]
        0 <= k < all.len() - 1 implies block_end(all[k], w) <= all[k + 1].base by {
        if k + 1 < old_bs.len() {
            assert(all[k] == old_bs[k] && all[k + 1] == old_bs[k + 1]);
        } else if k + 1 == old_bs.len() {
            assert(all[k] == old_bs[k] && all[k + 1] == nbv[0]);
        } else {
            assert(all[k] == nbv[k - old_bs.len()] && all[k + 1] == nbv[k + 1 - old_bs.len()]);
        }
    }
}

/// Subdivides every merged range and concatenates the blocks in order.
///
/// The result is the per-range tilings laid end to end, so it is pinned
/// uniquely by the ranges; it covers exactly the same addresses as the
/// ranges, and when the ranges are maximally merged the blocks are
/// ascending and pairwise disjoint.
#[verifier::rlimit(80)]
pub fn ranges_to_blocks(rs: &Vec<AddressRange>, width: u32) -> (bs: Vec<CidrBlock>)
    requires
        width == 32 || width == 128,
        ranges_ok(rs@),
        sorted_starts(rs@),
        forall|i: int| 0 <= i < rs@.len() ==> (#[trigger] rs@[i].last as int) < pow2(width as nat),
    ensures
        blocks_ok(bs@, width as nat),
        blocks_union(bs@, width as nat) == addr_union(rs@),
        tiles_ranges(bs@, rs@, width as nat),
        merged_form(rs@) ==> blocks_ascend(bs@, width as nat),
{
    let ghost w = width as nat;
    let mut bs: Vec<CidrBlock> = Vec::new();
    let mut i: usize = 0;
    proof {
        assert(rs@.subrange(0, 0) =~= Seq::<AddressRange>::empty());
        assert(blocks_union(bs@, w) =~= addr_union(rs@.subrange(0, 0)));
        assert(tiles_ranges(bs@, rs@.subrange(0, 0), w));
    }
    while i < rs.len()
        invariant
            width == 32 || width == 128,
            w == width as nat,
            ranges_ok(rs@),
            sorted_starts(rs@),
            forall|k: int| 0 <= k < rs@.len() ==> (#[trigger] rs@[k].last as int) < pow2(w),
            i <= rs@.len(),
            blocks_ok(bs@, w),
            blocks_union(bs@, w) == addr_union(rs@.subrange(0, i as int)),
            tiles_ranges(bs@, rs@.subrange(0, i as int), w),
            merged_form(rs@) ==> blocks_ascend(bs@, w),
            merged_form(rs@) && i > 0 && i < rs@.len() && bs@.len() > 0 ==> block_end(
                bs@[bs@.len() - 1],
                w,
            ) <= rs@[i as int].start,
            i > 0 && rs@.len() > 0 ==> bs@.len() > 0,
            i == 0 ==> bs@.len() == 0,
        decreases rs@.len() - i,
    {
        let r = rs[i];
        let mut nb = subdivide_range(r, width);
        let ghost old_bs = bs@;
        let ghost nbv = nb@;
        proof {
            lemma_chain_union(nbv, w, r.start as int, r.last + 1);
            assert(blocks_ascend(nbv, w));
        }
        bs.append(&mut nb);
        proof {
            assert(bs@ == old_bs + nbv);
            // coverage extends by exactly the addresses of this range
            lemma_cover_step(old_bs, nbv, rs@, i as int, w);
            assert(blocks_union(bs@, w) =~= addr_union(rs@.subrange(0, i + 1)));
            assert(tiling_of(nbv, r, w));
            lemma_tiles_push(old_bs, rs@.subrange(0, i as int), nbv, r, w);
            assert(rs@.subrange(0, i as int).push(r) =~= rs@.subrange(0, i + 1));
            if merged_form(rs@) {
                assert(nbv[0].base == r.start);
                lemma_ascend_step(old_bs, nbv, w);
                if i + 1 < rs@.len() {
                    assert(bs@[bs@.len() - 1] == nbv[nbv.len() - 1]);
                    assert(block_end(nbv[nbv.len() - 1], w) == r.last + 1);
                    assert(rs@[i as int].last + 1 < rs@[i + 1].start);
                }
            }
        }
        i = i + 1;
    }
    proof {
        assert(rs@.subrange(0, i as int) =~= rs@);
    }
    bs
}

} // verus!
