//! Parsing RIR stats text into filtered address ranges, one family at a time.

use crate::addr::{ipv4_of, ipv6_of, parse_ipv4, parse_ipv6};
use crate::error::Error;
use crate::filter::{passes_filter, CountryFilter};
use crate::num::{dec_val, parse_dec, valid_dec};
use crate::range::AddressRange;
use crate::text::{split_on, split_str, str_eq, views_of};
use vstd::arithmetic::power2::{lemma_pow2_adds, lemma_pow2_strictly_increases, pow2};
use vstd::prelude::*;

verus! {

/// The address family a conversion works on; fixes the address width and how
/// the count field is decoded.
#[derive(Clone, Copy, PartialEq, Eq, Structural, Debug)]
pub enum Family {
    V4,
    V6,
}

impl Family {
    /// The address width in bits.
    pub open spec fn width(self) -> nat {
        if self == Family::V4 {
            32
        } else {
            128
        }
    }

    pub fn width_bits(self) -> (r: u32)
        ensures
            r as nat == self.width(),
    {
        match self {
            Family::V4 => 32,
            Family::V6 => 128,
        }
    }

    /// The family tag carried in the third field of a record.
    pub open spec fn tag_view(self) -> Seq<char> {
        if self == Family::V4 {
            "ipv4"@
        } else {
            "ipv6"@
        }
    }

    pub fn tag(self) -> (r: &'static str)
        ensures
            r@ == self.tag_view(),
    {
        match self {
            Family::V4 => "ipv4",
            Family::V6 => "ipv6",
        }
    }

    /// The value of the starting-address field.
    pub open spec fn addr_of(self, s: Seq<char>) -> Option<int> {
        if self == Family::V4 {
            ipv4_of(s)
        } else {
            ipv6_of(s)
        }
    }

    /// The address count named by the fourth field: a direct count for v4,
    /// a prefix length (1 to 128) for v6.
    pub open spec fn count_of(self, s: Seq<char>) -> Option<int> {
        if self == Family::V4 {
            if valid_dec(s) && dec_val(s) <= u32::MAX {
                Some(dec_val(s))
            } else {
                None
            }
        } else {
            if valid_dec(s) && 1 <= dec_val(s) <= 128 {
                Some(pow2((128 - dec_val(s)) as nat) as int)
            } else {
                None
            }
        }
    }

    fn parse_addr(self, s: &str) -> (r: Option<u128>)
        ensures
            r is Some <==> self.addr_of(s@) is Some,
            r is Some ==> r->0 as int == self.addr_of(s@)->0,
    {
        match self {
            Family::V4 => match parse_ipv4(s) {
                None => None,
                Some(v) => Some(v as u128),
            },
            Family::V6 => parse_ipv6(s),
        }
    }

    fn parse_count(self, s: &str) -> (r: Option<u128>)
        ensures
            r is Some <==> self.count_of(s@) is Some,
            r is Some ==> r->0 as int == self.count_of(s@)->0,
    {
        match self {
            Family::V4 => match parse_dec(s) {
                None => None,
                Some(v) => if v <= 0xFFFFFFFF {
                    Some(v)
                } else {
                    None
                },
            },
            Family::V6 => match parse_dec(s) {
                None => None,
                Some(p) => if 1 <= p && p <= 128 {
                    Some(pow2_u128((128 - p) as u32))
                } else {
                    None
                },
            },
        }
    }
}

fn pow2_u128(e: u32) -> (r: u128)
    requires
        e <= 127,
    ensures
        r as int == pow2(e as nat),
{
    proof {
        vstd::arithmetic::power2::lemma2_to64();
        lemma_pow2_adds(64, 64);
    }
    let mut c: u128 = 1;
    let mut k: u32 = 0;
    while k < e
        invariant
            k <= e <= 127,
            c as int == pow2(k as nat),
            pow2(128) == 0x100000000000000000000000000000000,
        decreases e - k,
    {
        proof {
            lemma_pow2_adds(k as nat, 1);
            assert(pow2(1) == 2) by {
                vstd::arithmetic::power2::lemma2_to64();
            }
            lemma_pow2_strictly_increases((k + 1) as nat, 128);
        }
        c = c * 2;
        k = k + 1;
    }
    c
}

/// The pipe-separated fields of one line.
pub open spec fn line_fields(line: Seq<char>) -> Seq<Seq<char>> {
    split_on(line, '|')
}

/// Whether a line carries a delegation record of the requested family:
/// not a comment, not empty, at least seven fields, the family tag in the
/// third field. Every such line is parsed; the country filter only decides,
/// after parsing, whether the record is kept.
pub open spec fn line_selected(line: Seq<char>, fam: Family) -> bool {
    &&& line.len() > 0
    &&& line[0] != '#'
    &&& line_fields(line).len() >= 7
    &&& line_fields(line)[2] == fam.tag_view()
}

/// Whether a parsed record's country passes the filter.
pub open spec fn line_kept(line: Seq<char>, sets: Seq<Seq<char>>, excluding: bool) -> bool {
    passes_filter(sets, excluding, line_fields(line)[1])
}

/// The range a selected line delegates: `None` when the address or the
/// count/prefix field is malformed or the range leaves the address space.
pub open spec fn line_decode(line: Seq<char>, fam: Family) -> Option<(int, int)> {
    let fs = line_fields(line);
    match fam.addr_of(fs[3]) {
        None => None,
        Some(a) => match fam.count_of(fs[4]) {
            None => None,
            Some(c) => if a + c <= pow2(fam.width()) {
                Some((a, c))
            } else {
                None
            },
        },
    }
}

/// The scan over all lines: every line of the requested family must decode,
/// and the first malformed one aborts the scan with its 1-based number; a
/// decoded record is kept only when its country passes the filter and its
/// count is not zero.
pub open spec fn scan_lines(
    lines: Seq<Seq<char>>,
    k: nat,
    fam: Family,
    sets: Seq<Seq<char>>,
    excluding: bool,
) -> Result<Seq<AddressRange>, nat>
    decreases lines.len(),
{
    if lines.len() == 0 {
        Ok(Seq::empty())
    } else if !line_selected(lines[0], fam) {
        scan_lines(lines.drop_first(), k + 1, fam, sets, excluding)
    } else {
        match line_decode(lines[0], fam) {
            None => Err(k),
            Some((a, c)) => match scan_lines(lines.drop_first(), k + 1, fam, sets, excluding) {
                Err(e) => Err(e),
                Ok(rest) => if c == 0 || !line_kept(lines[0], sets, excluding) {
                    Ok(rest)
                } else {
                    Ok(
                        seq![
                            AddressRange { start: a as u128, last: (a + c - 1) as u128 },
                        ] + rest,
                    )
                },
            },
        }
    }
}

proof fn lemma_decode_nonneg(line: Seq<char>, fam: Family)
    requires
        line_decode(line, fam) is Some,
    ensures
        0 <= (line_decode(line, fam)->0).0,
        0 <= (line_decode(line, fam)->0).1,
{
    let fs = line_fields(line);
    if fam == Family::V4 {
        let ps = split_on(fs[3], '.');
        crate::num::lemma_dec_val_nonneg(ps[0]);
        crate::num::lemma_dec_val_nonneg(ps[1]);
        crate::num::lemma_dec_val_nonneg(ps[2]);
        crate::num::lemma_dec_val_nonneg(ps[3]);
        crate::num::lemma_dec_val_nonneg(fs[4]);
    } else {
        let s = fs[3];
        let i = crate::addr::find_dc(s);
        if i == -1 {
            crate::addr::lemma_glist_val_bound(
                crate::addr::gvals_of(split_on(s, ':')),
            );
        } else {
            let left = s.subrange(0, i);
            let right = s.subrange(i + 2, s.len() as int);
            let lps = if left.len() == 0 {
                Seq::<Seq<char>>::empty()
            } else {
                split_on(left, ':')
            };
            let rps = if right.len() == 0 {
                Seq::<Seq<char>>::empty()
            } else {
                split_on(right, ':')
            };
            let lv = crate::addr::glist_val(crate::addr::gvals_of(lps));
            let rv = crate::addr::glist_val(crate::addr::gvals_of(rps));
            crate::addr::lemma_glist_val_bound(crate::addr::gvals_of(lps));
            crate::addr::lemma_glist_val_bound(crate::addr::gvals_of(rps));
            let sh = pow2((16 * (8 - lps.len())) as nat) as int;
            vstd::arithmetic::power2::lemma_pow2_pos((16 * (8 - lps.len())) as nat);
            assert(lv * sh >= 0) by (nonlinear_arith)
                requires
                    lv >= 0,
                    sh >= 0,
            ;
        }
        vstd::arithmetic::power2::lemma_pow2_pos((128 - dec_val(fs[4])) as nat);
    }
}

/// Every range a successful scan yields is well-formed and lies inside the
/// family's address space.
pub proof fn lemma_scan_ranges_ok(
    lines: Seq<Seq<char>>,
    k: nat,
    fam: Family,
    sets: Seq<Seq<char>>,
    excluding: bool,
)
    requires
        scan_lines(lines, k, fam, sets, excluding) is Ok,
    ensures
        forall|i: int|
            0 <= i < scan_lines(lines, k, fam, sets, excluding)->Ok_0.len() ==> {
                let r = #[trigger] scan_lines(lines, k, fam, sets, excluding)->Ok_0[i];
                &&& r.start <= r.last
                &&& (r.last as int) < pow2(fam.width())
            },
    decreases lines.len(),
{
    if lines.len() == 0 {
    } else if !line_selected(lines[0], fam) {
        lemma_scan_ranges_ok(lines.drop_first(), k + 1, fam, sets, excluding);
    } else {
        match line_decode(lines[0], fam) {
            None => {},
            Some((a, c)) => {
                lemma_scan_ranges_ok(lines.drop_first(), k + 1, fam, sets, excluding);
                let rest = scan_lines(lines.drop_first(), k + 1, fam, sets, excluding)->Ok_0;
                if c != 0 && line_kept(lines[0], sets, excluding) {
                    lemma_decode_nonneg(lines[0], fam);
                    if fam == Family::V4 {
                        vstd::arithmetic::power2::lemma_pow2_strictly_increases(32, 128);
                    }
                    assert(pow2(128) == 0x100000000000000000000000000000000) by {
                        vstd::arithmetic::power2::lemma2_to64();
                        lemma_pow2_adds(64, 64);
                    }
                    assert(0 <= a && 1 <= c && a + c <= pow2(fam.width()));
                    let all = seq![
                        AddressRange { start: a as u128, last: (a + c - 1) as u128 },
                    ] + rest;
                    assert(forall|i: int| 1 <= i < all.len() ==> all[i] == rest[i - 1]);
                    vstd::arithmetic::power2::lemma_pow2_pos(fam.width());
                }
            },
        }
    }
}

/// Parses the raw stats text into the filtered delegation ranges of one
/// family; fails with the 1-based line number of the first malformed record.
pub fn parse_records(raw: &str, fam: Family, filter: &CountryFilter) -> (r: Result<
    Vec<AddressRange>,
    Error,
>)
    ensures
        ({
            let scan = scan_lines(
                split_on(raw@, '\n'),
                1,
                fam,
                filter.sets(),
                filter.excluding,
            );
            &&& (scan is Ok <==> r is Ok)
            &&& (r is Ok ==> r->Ok_0@ == scan->Ok_0)
            &&& (r is Err ==> r->Err_0 == Error::RIRStatsMalformed(scan->Err_0 as usize))
        }),
{
    let ghost sets = filter.sets();
    let ghost ex = filter.excluding;
    let lines = split_str(raw, '\n');
    let ghost lv = views_of(lines@);
    let mut out: Vec<AddressRange> = Vec::new();
    let mut i: usize = 0;
    proof {
        assert(lv.skip(0) =~= lv);
    }
    while i < lines.len()
        invariant
            i <= lines@.len(),
            lv == views_of(lines@),
            lv == split_on(raw@, '\n'),
            sets == filter.sets(),
            ex == filter.excluding,
            scan_lines(lv.skip(i as int), (i + 1) as nat, fam, sets, ex) is Ok ==> scan_lines(
                lv,
                1,
                fam,
                sets,
                ex,
            ) == Result::<Seq<AddressRange>, nat>::Ok(
                out@ + scan_lines(lv.skip(i as int), (i + 1) as nat, fam, sets, ex)->Ok_0,
            ),
            scan_lines(lv.skip(i as int), (i + 1) as nat, fam, sets, ex) is Err ==> scan_lines(
                lv,
                1,
                fam,
                sets,
                ex,
            ) == Result::<Seq<AddressRange>, nat>::Err(
                scan_lines(lv.skip(i as int), (i + 1) as nat, fam, sets, ex)->Err_0,
            ),
        decreases lines@.len() - i,
    {
        let line = lines[i];
        proof {
            assert(lv.skip(i as int)[0] == line@);
            assert(lv.skip(i as int).drop_first() =~= lv.skip(i + 1));
        }
        let ghost rest_scan = scan_lines(lv.skip(i + 1), (i + 2) as nat, fam, sets, ex);
        let n = line.unicode_len();
        if n > 0 && line.get_char(0) != '#' {
            let fs = split_str(line, '|');
            proof {
                assert(views_of(fs@) == line_fields(line@));
            }
            if fs.len() >= 7 && str_eq(fs[2], fam.tag()) {
                proof {
                    assert(line_fields(line@)[1] == fs@[1]@);
                    assert(line_fields(line@)[2] == fs@[2]@);
                    assert(line_selected(line@, fam));
                    assert(line_fields(line@)[3] == fs@[3]@);
                    assert(line_fields(line@)[4] == fs@[4]@);
                }
                let a = match fam.parse_addr(fs[3]) {
                    Some(a) => a,
                    None => {
                        proof {
                            assert(line_decode(line@, fam) is None);
                        }
                        return Err(Error::RIRStatsMalformed(i + 1));
                    },
                };
                let c = match fam.parse_count(fs[4]) {
                    Some(c) => c,
                    None => {
                        proof {
                            assert(line_decode(line@, fam) is None);
                        }
                        return Err(Error::RIRStatsMalformed(i + 1));
                    },
                };
                let w = fam.width_bits();
                proof {
                    vstd::arithmetic::power2::lemma2_to64();
                    vstd::arithmetic::power2::lemma2_to64_rest();
                    lemma_pow2_adds(64, 64);
                }
                if w == 32 {
                    if a + c > 0x100000000 {
                        proof {
                            assert(line_decode(line@, fam) is None);
                        }
                        return Err(Error::RIRStatsMalformed(i + 1));
                    }
                } else {
                    if c > 0 && a > u128::MAX - (c - 1) {
                        proof {
                            assert(line_decode(line@, fam) is None);
                        }
                        return Err(Error::RIRStatsMalformed(i + 1));
                    }
                }
                proof {
                    assert(line_decode(line@, fam) == Some((a as int, c as int)));
                }
                let kept = filter.passes(fs[1]);
                proof {
                    assert(kept == line_kept(line@, sets, ex));
                }
                if c > 0 && kept {
                    let rng = AddressRange { start: a, last: a + (c - 1) };
                    proof {
                        let stepped = scan_lines(lv.skip(i as int), (i + 1) as nat, fam, sets, ex);
                        if rest_scan is Ok {
                            assert(stepped == Result::<Seq<AddressRange>, nat>::Ok(
                                seq![rng] + rest_scan->Ok_0,
                            ));
                            assert(out@ + (seq![rng] + rest_scan->Ok_0) =~= out@.push(rng)
                                + rest_scan->Ok_0);
                        }
                    }
                    out.push(rng);
                } else {
                    proof {
                        if rest_scan is Ok {
                            assert(scan_lines(lv.skip(i as int), (i + 1) as nat, fam, sets, ex)
                                == Result::<Seq<AddressRange>, nat>::Ok(rest_scan->Ok_0));
                        }
                    }
                }
            } else {
                proof {
                    assert(!line_selected(line@, fam));
                    assert(scan_lines(lv.skip(i as int), (i + 1) as nat, fam, sets, ex)
                        == rest_scan);
                }
            }
        } else {
            proof {
                assert(!line_selected(line@, fam));
                assert(scan_lines(lv.skip(i as int), (i + 1) as nat, fam, sets, ex) == rest_scan);
            }
        }
        i = i + 1;
    }
    proof {
        assert(lv.skip(i as int) =~= Seq::<Seq<char>>::empty());
        assert(scan_lines(lv.skip(i as int), (i + 1) as nat, fam, sets, ex) == Result::<
            Seq<AddressRange>,
            nat,
        >::Ok(Seq::empty()));
        assert(out@ + Seq::<AddressRange>::empty() =~= out@);
    }
    Ok(out)
}

} // verus!
