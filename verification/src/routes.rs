//! The aggregation pipeline: parse, filter, merge, subdivide, render.

use crate::cidr::{
    blocks_ascend, blocks_ok, blocks_union, ranges_to_blocks, tiles_ranges, CidrBlock,
};
use crate::error::Error;
use crate::filter::{parse_countries, spec_excluding, spec_sets, CountryFilter};
use crate::format::{format_blocks, render_blocks};
use crate::parse::{lemma_scan_ranges_ok, parse_records, scan_lines, Family};
use crate::range::{
    addr_union, in_range, merge_ranges, pairwise_disjoint, AddressRange,
};
use crate::text::split_on;
use vstd::arithmetic::power2::{lemma_pow2_pos, pow2};
use vstd::prelude::*;

verus! {

/// What the emitted blocks owe to the filtered pre-merge ranges: they are
/// well-formed and aligned, they cover exactly the same addresses, and they
/// are the per-range tilings of a sorted range list covering the same
/// addresses. When the delegations are pairwise disjoint — as valid registry
/// data is — that range list is maximally merged; a maximally merged sorted
/// list covering a given address set is unique, and a range's tiling (chained,
/// aligned, each block greedily maximal) is unique, so the block list, its
/// ascending order, and with them the rendered text are then pinned exactly.
pub open spec fn blocks_good(bs: Seq<CidrBlock>, rs: Seq<AddressRange>, width: nat) -> bool {
    &&& blocks_ok(bs, width)
    &&& blocks_union(bs, width) == addr_union(rs)
    &&& (pairwise_disjoint(rs) ==> blocks_ascend(bs, width))
    &&& exists|ms: Seq<AddressRange>|
        {
            &&& crate::range::sorted_starts(ms)
            &&& addr_union(ms) == addr_union(rs)
            &&& (pairwise_disjoint(rs) ==> crate::range::merged_form(ms))
            &&& #[trigger] tiles_ranges(bs, ms, width)
        }
}

/// The success contract is deterministic: for pairwise-disjoint delegations
/// — which valid registry data is — only one block list satisfies
/// `blocks_good` for given scanned ranges, so the rendered route table is a
/// function of the input.
pub proof fn lemma_blocks_good_unique(
    bs1: Seq<CidrBlock>,
    bs2: Seq<CidrBlock>,
    rs: Seq<AddressRange>,
    width: nat,
)
    requires
        blocks_good(bs1, rs, width),
        blocks_good(bs2, rs, width),
        pairwise_disjoint(rs),
    ensures
        bs1 == bs2,
{
    let ms1 = choose|ms: Seq<AddressRange>|
        {
            &&& crate::range::sorted_starts(ms)
            &&& addr_union(ms) == addr_union(rs)
            &&& (pairwise_disjoint(rs) ==> crate::range::merged_form(ms))
            &&& #[trigger] tiles_ranges(bs1, ms, width)
        };
    let ms2 = choose|ms: Seq<AddressRange>|
        {
            &&& crate::range::sorted_starts(ms)
            &&& addr_union(ms) == addr_union(rs)
            &&& (pairwise_disjoint(rs) ==> crate::range::merged_form(ms))
            &&& #[trigger] tiles_ranges(bs2, ms, width)
        };
    crate::range::lemma_merged_unique(ms1, ms2);
    crate::cidr::lemma_tiles_ranges_unique(bs1, bs2, ms1, width);
}

/// Converts raw RIR stats text into the minimal route table of one family.
///
/// The scan of the input decides the outcome exactly: its first malformed
/// selected line gives `RIRStatsMalformed` with that line's number; zero
/// remaining records give `RoutesEmpty`; otherwise the result renders a
/// block list that stands to the scanned ranges as `blocks_good` says.
pub fn aggregate(raw_data: &str, fam: Family, filter: &CountryFilter) -> (r: Result<String, Error>)
    ensures
        ({
            let scan = scan_lines(
                split_on(raw_data@, '\n'),
                1,
                fam,
                filter.sets(),
                filter.excluding,
            );
            &&& (scan is Err ==> r == Result::<String, Error>::Err(
                Error::RIRStatsMalformed(scan->Err_0 as usize),
            ))
            &&& (scan is Ok && scan->Ok_0.len() == 0 ==> r == Result::<String, Error>::Err(
                Error::RoutesEmpty,
            ))
            &&& (scan is Ok && scan->Ok_0.len() > 0 ==> r is Ok && exists|bs: Seq<CidrBlock>|
                #[trigger] blocks_good(bs, scan->Ok_0, fam.width()) && r->Ok_0@ == render_blocks(
                    bs,
                    fam,
                ))
        }),
{
    let ghost scan = scan_lines(
        split_on(raw_data@, '\n'),
        1,
        fam,
        filter.sets(),
        filter.excluding,
    );
    let parsed = match parse_records(raw_data, fam, filter) {
        Ok(v) => v,
        Err(e) => {
            return Err(e);
        },
    };
    let ghost pv = parsed@;
    proof {
        lemma_scan_ranges_ok(
            split_on(raw_data@, '\n'),
            1,
            fam,
            filter.sets(),
            filter.excluding,
        );
        assert(pv == scan->Ok_0);
    }
    let merged = match merge_ranges(parsed) {
        Ok(v) => v,
        Err(e) => {
            return Err(e);
        },
    };
    proof {
        assert forall|k: int|
            0 <= k < merged@.len() implies (#[trigger] merged@[k].last as int) < pow2(
            fam.width(),
        ) by {
            assert(in_range(merged@[k], merged@[k].last as int));
            assert(addr_union(merged@).contains(merged@[k].last as int));
            assert(addr_union(pv).contains(merged@[k].last as int));
            let t = choose|t: int| 0 <= t < pv.len() && in_range(#[trigger] pv[t], merged@[k].last as int);
        }
    }
    let w = fam.width_bits();
    let blocks = ranges_to_blocks(&merged, w);
    proof {
        if fam == Family::V4 {
            assert forall|k: int|
                0 <= k < blocks@.len() implies (#[trigger] blocks@[k].base) < 0x100000000 by {
                lemma_pow2_pos((fam.width() - blocks@[k].prefix) as nat);
                assert(vstd::arithmetic::power2::pow2(32) == 0x100000000) by {
                    vstd::arithmetic::power2::lemma2_to64();
                }
            }
        }
    }
    let out = format_blocks(&blocks, fam);
    proof {
        // the merged list witnesses the pinned tiling structure
        assert(tiles_ranges(blocks@, merged@, fam.width()));
        assert(crate::range::sorted_starts(merged@));
        assert(addr_union(merged@) == addr_union(pv));
        assert(pairwise_disjoint(pv) ==> crate::range::merged_form(merged@));
        assert(blocks_good(blocks@, scan->Ok_0, fam.width()));
        assert(out@ == render_blocks(blocks@, fam));
    }
    Ok(out)
}

/// Converts raw stats text and a country specification into IPv4 routes.
pub fn routes_from_rir_stats(raw_data: &str, countries: &str) -> (r: Result<String, Error>)
    ensures
        ({
            let scan = scan_lines(
                split_on(raw_data@, '\n'),
                1,
                Family::V4,
                spec_sets(countries@),
                spec_excluding(countries@),
            );
            &&& (scan is Err ==> r == Result::<String, Error>::Err(
                Error::RIRStatsMalformed(scan->Err_0 as usize),
            ))
            &&& (scan is Ok && scan->Ok_0.len() == 0 ==> r == Result::<String, Error>::Err(
                Error::RoutesEmpty,
            ))
            &&& (scan is Ok && scan->Ok_0.len() > 0 ==> r is Ok && exists|bs: Seq<CidrBlock>|
                #[trigger] blocks_good(bs, scan->Ok_0, 32) && r->Ok_0@ == render_blocks(
                    bs,
                    Family::V4,
                ))
        }),
{
    let filter = parse_countries(countries);
    aggregate(raw_data, Family::V4, &filter)
}

/// Converts raw stats text and a country specification into IPv6 routes.
pub fn routes_from_rir_stats6(raw_data: &str, countries: &str) -> (r: Result<String, Error>)
    ensures
        ({
            let scan = scan_lines(
                split_on(raw_data@, '\n'),
                1,
                Family::V6,
                spec_sets(countries@),
                spec_excluding(countries@),
            );
            &&& (scan is Err ==> r == Result::<String, Error>::Err(
                Error::RIRStatsMalformed(scan->Err_0 as usize),
            ))
            &&& (scan is Ok && scan->Ok_0.len() == 0 ==> r == Result::<String, Error>::Err(
                Error::RoutesEmpty,
            ))
            &&& (scan is Ok && scan->Ok_0.len() > 0 ==> r is Ok && exists|bs: Seq<CidrBlock>|
                #[trigger] blocks_good(bs, scan->Ok_0, 128) && r->Ok_0@ == render_blocks(
                    bs,
                    Family::V6,
                ))
        }),
{
    let filter = parse_countries(countries);
    aggregate(raw_data, Family::V6, &filter)
}

} // verus!
