//! IPv4 dotted-quad and IPv6 colon-hex addresses: parsing and rendering.

use crate::num::{
    all_dec, dec_str, dec_text, dec_val, hex_str, hex_text, hex_val, valid_hex_group,
};
use crate::text::{split_on, split_str, views_of};
use vstd::arithmetic::power2::{lemma_pow2_adds, lemma_pow2_pos, pow2};
use vstd::prelude::*;

verus! {

/// One octet of a dotted quad: up to three digits, no leading zero, at most 255.
pub open spec fn valid_octet(s: Seq<char>) -> bool {
    1 <= s.len() <= 3 && all_dec(s) && dec_val(s) <= 255 && (s.len() == 1 || s[0] != '0')
}

/// The value of a dotted-quad IPv4 literal, or `None` when malformed.
pub open spec fn ipv4_of(s: Seq<char>) -> Option<int> {
    let ps = split_on(s, '.');
    if ps.len() == 4 && valid_octet(ps[0]) && valid_octet(ps[1]) && valid_octet(ps[2])
        && valid_octet(ps[3]) {
        Some(
            dec_val(ps[0]) * 0x1000000 + dec_val(ps[1]) * 0x10000 + dec_val(ps[2]) * 0x100
                + dec_val(ps[3]),
        )
    } else {
        None
    }
}

fn parse_octet(p: &str) -> (r: Option<u32>)
    ensures
        r is Some <==> valid_octet(p@),
        r is Some ==> r->0 == dec_val(p@),
{
    let n = p.unicode_len();
    if n < 1 || n > 3 {
        return None;
    }
    if n > 1 && p.get_char(0) == '0' {
        return None;
    }
    match crate::num::parse_dec(p) {
        None => None,
        Some(v) => if v <= 255 {
            Some(v as u32)
        } else {
            None
        },
    }
}

/// Parses a dotted-quad IPv4 literal.
pub fn parse_ipv4(s: &str) -> (r: Option<u32>)
    ensures
        r is Some <==> ipv4_of(s@) is Some,
        r is Some ==> r->0 as int == ipv4_of(s@)->0,
{
    let parts = split_str(s, '.');
    proof {
        assert(views_of(parts@).len() == parts@.len());
    }
    if parts.len() != 4 {
        return None;
    }
    let a = match parse_octet(parts[0]) {
        Some(v) => v,
        None => {
            return None;
        },
    };
    let b = match parse_octet(parts[1]) {
        Some(v) => v,
        None => {
            return None;
        },
    };
    let c = match parse_octet(parts[2]) {
        Some(v) => v,
        None => {
            return None;
        },
    };
    let d = match parse_octet(parts[3]) {
        Some(v) => v,
        None => {
            return None;
        },
    };
    Some(a * 0x1000000 + b * 0x10000 + c * 0x100 + d)
}

/// The dotted-quad rendering of an IPv4 address.
pub open spec fn ipv4_str(a: int) -> Seq<char> {
    dec_str((a / 0x1000000) as nat) + seq!['.'] + dec_str(((a / 0x10000) % 0x100) as nat)
        + seq!['.'] + dec_str(((a / 0x100) % 0x100) as nat) + seq!['.'] + dec_str(
        (a % 0x100) as nat,
    )
}

/// Renders an IPv4 address as a dotted quad.
pub fn ipv4_text(a: u32) -> (r: String)
    ensures
        r@ == ipv4_str(a as int),
{
    let o0 = a / 0x1000000;
    let o1 = (a / 0x10000) % 0x100;
    let o2 = (a / 0x100) % 0x100;
    let o3 = a % 0x100;
    let dot = ".";
    proof {
        reveal_strlit(".");
        assert(dot@ =~= seq!['.']);
    }
    let r = dec_text(o0 as u128).concat(dot).concat(dec_text(o1 as u128).as_str()).concat(
        dot,
    ).concat(dec_text(o2 as u128).as_str()).concat(dot).concat(dec_text(o3 as u128).as_str());
    proof {
        assert(r@ =~= ipv4_str(a as int));
    }
    r
}

/// Index of the first `::` in `s`, or `-1` when none occurs.
pub open spec fn find_dc(s: Seq<char>) -> int
    decreases s.len(),
{
    if s.len() < 2 {
        -1
    } else if s[0] == ':' && s[1] == ':' {
        0
    } else {
        let r = find_dc(s.subrange(1, s.len() as int));
        if r == -1 {
            -1
        } else {
            r + 1
        }
    }
}

pub proof fn lemma_find_dc(s: Seq<char>)
    ensures
        find_dc(s) == -1 ==> forall|j: int| #![trigger s[j]]
            0 <= j < s.len() - 1 ==> !(s[j] == ':' && s[j + 1] == ':'),
        find_dc(s) != -1 ==> {
            &&& 0 <= find_dc(s) < s.len() - 1
            &&& s[find_dc(s)] == ':' && s[find_dc(s) + 1] == ':'
            &&& forall|j: int| #![trigger s[j]] 0 <= j < find_dc(s) ==> !(s[j] == ':' && s[j + 1] == ':')
        },
    decreases s.len(),
{
    if s.len() < 2 {
    } else if s[0] == ':' && s[1] == ':' {
    } else {
        let t = s.subrange(1, s.len() as int);
        lemma_find_dc(t);
        let r = find_dc(t);
        if r == -1 {
            assert forall|j: int| #![trigger s[j]] 0 <= j < s.len() - 1 implies !(s[j] == ':' && s[j + 1]
                == ':') by {
                if j >= 1 {
                    assert(t[j - 1] == s[j] && t[j] == s[j + 1]);
                }
            }
        } else {
            assert(s[r + 1] == t[r] && s[r + 2] == t[r + 1]);
            assert forall|j: int| #![trigger s[j]] 0 <= j < r + 1 implies !(s[j] == ':' && s[j + 1] == ':') by {
                if j >= 1 {
                    assert(t[j - 1] == s[j] && t[j] == s[j + 1]);
                }
            }
        }
    }
}

/// The value of a list of 16-bit groups, most significant first.
pub open spec fn glist_val(gs: Seq<u16>) -> int
    decreases gs.len(),
{
    if gs.len() == 0 {
        0
    } else {
        glist_val(gs.drop_last()) * 0x10000 + gs.last()
    }
}

pub proof fn lemma_glist_val_bound(gs: Seq<u16>)
    ensures
        0 <= glist_val(gs) < pow2((16 * gs.len()) as nat),
    decreases gs.len(),
{
    if gs.len() == 0 {
        assert(pow2(0) == 1) by {
            vstd::arithmetic::power2::lemma2_to64();
            vstd::arithmetic::power2::lemma2_to64_rest();
        }
    } else {
        lemma_glist_val_bound(gs.drop_last());
        lemma_pow2_adds((16 * (gs.len() - 1)) as nat, 16);
        assert(pow2(16) == 0x10000) by {
            vstd::arithmetic::power2::lemma2_to64();
            vstd::arithmetic::power2::lemma2_to64_rest();
        }
    }
}

pub proof fn lemma_glist_val_unfold(gs: Seq<u16>, k: int)
    requires
        0 <= k < gs.len(),
    ensures
        glist_val(gs.subrange(0, k + 1)) == glist_val(gs.subrange(0, k)) * 0x10000 + gs[k],
{
    assert(gs.subrange(0, k + 1).drop_last() =~= gs.subrange(0, k));
    assert(gs.subrange(0, k + 1).last() == gs[k]);
}

/// The group values named by a list of hex-group texts.
pub open spec fn gvals_of(ps: Seq<Seq<char>>) -> Seq<u16> {
    ps.map_values(|p: Seq<char>| (hex_val(p) as u16))
}

pub open spec fn valid_groups(ps: Seq<Seq<char>>) -> bool {
    forall|k: int| 0 <= k < ps.len() ==> valid_hex_group(#[trigger] ps[k])
}

/// The value of a colon-hex IPv6 literal (with at most one `::`), or `None`
/// when malformed.
pub open spec fn ipv6_of(s: Seq<char>) -> Option<int> {
    let i = find_dc(s);
    if i == -1 {
        let ps = split_on(s, ':');
        if ps.len() == 8 && valid_groups(ps) {
            Some(glist_val(gvals_of(ps)))
        } else {
            None
        }
    } else {
        let left = s.subrange(0, i);
        let right = s.subrange(i + 2, s.len() as int);
        if find_dc(right) == -1 {
            let lps = if left.len() == 0 {
                Seq::<Seq<char>>::empty()
            } else {
                split_on(left, ':')
            };
            let rps = if right.len() == 0 {
                Seq::<Seq<char>>::empty()
            } else {
                split_on(right, ':')
            };
            if valid_groups(lps) && valid_groups(rps) && lps.len() + rps.len() <= 7 {
                Some(
                    glist_val(gvals_of(lps)) * pow2((16 * (8 - lps.len())) as nat) + glist_val(
                        gvals_of(rps),
                    ),
                )
            } else {
                None
            }
        } else {
            None
        }
    }
}

fn has_dc(s: &str) -> (r: bool)
    ensures
        r == (find_dc(s@) != -1),
{
    let n = s.unicode_len();
    let mut i: usize = 0;
    let mut found = false;
    let mut pos: usize = 0;
    while !found && n >= 1 && i < n - 1
        invariant
            n == s@.len(),
            i <= n,
            !found ==> forall|j: int| #![trigger s@[j]] 0 <= j < i ==> !(s@[j] == ':' && s@[j + 1] == ':'),
            found ==> pos + 1 < n && s@[pos as int] == ':' && s@[pos + 1] == ':',
        decreases n - i + (if found {
            0int
        } else {
            1int
        }),
    {
        if s.get_char(i) == ':' && s.get_char(i + 1) == ':' {
            found = true;
            pos = i;
        } else {
            i = i + 1;
        }
    }
    proof {
        lemma_find_dc(s@);
    }
    found
}

/// Position of the first `::`, when there is one.
fn find_dc_exec(s: &str) -> (r: Option<usize>)
    ensures
        r is Some <==> find_dc(s@) != -1,
        r is Some ==> r->0 as int == find_dc(s@),
{
    let n = s.unicode_len();
    let mut i: usize = 0;
    let mut found = false;
    let mut pos: usize = 0;
    while !found && n >= 1 && i < n - 1
        invariant
            n == s@.len(),
            i <= n,
            !found ==> forall|j: int| #![trigger s@[j]] 0 <= j < i ==> !(s@[j] == ':' && s@[j + 1] == ':'),
            found ==> pos + 1 < n && s@[pos as int] == ':' && s@[pos + 1] == ':' && forall|j: int|
                #![trigger s@[j]] 0 <= j < pos ==> !(s@[j] == ':' && s@[j + 1] == ':'),
        decreases n - i + (if found {
            0int
        } else {
            1int
        }),
    {
        if s.get_char(i) == ':' && s.get_char(i + 1) == ':' {
            found = true;
            pos = i;
        } else {
            i = i + 1;
        }
    }
    proof {
        lemma_find_dc(s@);
    }
    if found {
        Some(pos)
    } else {
        None
    }
}

/// Parses a list of colon-separated hex groups into their values.
fn parse_groups(parts: &Vec<&str>) -> (r: Option<Vec<u16>>)
    ensures
        r is Some <==> valid_groups(views_of(parts@)),
        r is Some ==> r->0@ == gvals_of(views_of(parts@)),
{
    let mut gs: Vec<u16> = Vec::new();
    let mut k: usize = 0;
    while k < parts.len()
        invariant
            k <= parts@.len(),
            gs@.len() == k,
            forall|j: int| 0 <= j < k ==> valid_hex_group(#[trigger] views_of(parts@)[j]),
            forall|j: int| 0 <= j < k ==> gs@[j] == gvals_of(views_of(parts@))[j],
        decreases parts@.len() - k,
    {
        match crate::num::parse_hex_group(parts[k]) {
            None => {
                proof {
                    assert(!valid_hex_group(views_of(parts@)[k as int]));
                }
                return None;
            },
            Some(v) => {
                proof {
                    crate::num::lemma_hex_val_bound(views_of(parts@)[k as int]);
                }
                gs.push(v);
            },
        }
        k = k + 1;
    }
    proof {
        assert(gs@ =~= gvals_of(views_of(parts@)));
    }
    Some(gs)
}

/// Combines at most eight group values into one integer.
fn combine_groups(gs: &Vec<u16>) -> (r: u128)
    requires
        gs@.len() <= 8,
    ensures
        r as int == glist_val(gs@),
        (r as int) < pow2((16 * gs@.len()) as nat),
{
    proof {
        vstd::arithmetic::power2::lemma2_to64();
        vstd::arithmetic::power2::lemma2_to64_rest();
        lemma_pow2_adds(64, 16);
        lemma_pow2_adds(64, 32);
        lemma_pow2_adds(64, 48);
        lemma_pow2_adds(64, 64);
    }
    let mut acc: u128 = 0;
    let mut k: usize = 0;
    proof {
        assert(gs@.subrange(0, 0) =~= Seq::<u16>::empty());
    }
    while k < gs.len()
        invariant
            k <= gs@.len() <= 8,
            acc as int == glist_val(gs@.subrange(0, k as int)),
            (acc as int) < pow2((16 * k) as nat),
            pow2(16) == 0x10000,
            pow2(32) == 0x100000000,
            pow2(48) == 0x1000000000000,
            pow2(64) == 0x10000000000000000,
            pow2(80) == 0x100000000000000000000,
            pow2(96) == 0x1000000000000000000000000,
            pow2(112) == 0x10000000000000000000000000000,
            pow2(128) == 0x100000000000000000000000000000000,
        decreases gs@.len() - k,
    {
        proof {
            lemma_glist_val_unfold(gs@, k as int);
            lemma_pow2_adds((16 * k) as nat, 16);
            if k == 0 {
                assert(pow2(0) == 1);
            }
        }
        acc = acc * 0x10000 + (gs[k] as u128);
        k = k + 1;
    }
    proof {
        assert(gs@.subrange(0, k as int) =~= gs@);
        lemma_glist_val_bound(gs@);
    }
    acc
}

fn pow16m(m: usize) -> (r: u128)
    requires
        1 <= m <= 7,
    ensures
        r as int == pow2((16 * m) as nat),
{
    proof {
        vstd::arithmetic::power2::lemma2_to64();
        vstd::arithmetic::power2::lemma2_to64_rest();
        lemma_pow2_adds(64, 16);
        lemma_pow2_adds(64, 32);
        lemma_pow2_adds(64, 48);
    }
    if m == 1 {
        0x10000
    } else if m == 2 {
        0x100000000
    } else if m == 3 {
        0x1000000000000
    } else if m == 4 {
        0x10000000000000000
    } else if m == 5 {
        0x100000000000000000000
    } else if m == 6 {
        0x1000000000000000000000000
    } else {
        0x10000000000000000000000000000
    }
}

/// Parses a colon-hex IPv6 literal, with at most one `::` compression.
pub fn parse_ipv6(s: &str) -> (r: Option<u128>)
    ensures
        r is Some <==> ipv6_of(s@) is Some,
        r is Some ==> r->0 as int == ipv6_of(s@)->0,
{
    let n = s.unicode_len();
    match find_dc_exec(s) {
        None => {
            let parts = split_str(s, ':');
            if parts.len() != 8 {
                return None;
            }
            match parse_groups(&parts) {
                None => None,
                Some(gs) => {
                    let v = combine_groups(&gs);
                    Some(v)
                },
            }
        },
        Some(pos) => {
            proof {
                lemma_find_dc(s@);
            }
            let left = s.substring_char(0, pos);
            let right = s.substring_char(pos + 2, n);
            if has_dc(right) {
                return None;
            }
            let lg: Vec<u16> = if left.unicode_len() == 0 {
                Vec::new()
            } else {
                match parse_groups(&split_str(left, ':')) {
                    None => {
                        return None;
                    },
                    Some(v) => v,
                }
            };
            let rg: Vec<u16> = if right.unicode_len() == 0 {
                Vec::new()
            } else {
                match parse_groups(&split_str(right, ':')) {
                    None => {
                        return None;
                    },
                    Some(v) => v,
                }
            };
            if lg.len() > 7 {
                return None;
            }
            if rg.len() > 7 - lg.len() {
                return None;
            }
            let rv = combine_groups(&rg);
            proof {
                if lg@.len() == 0 {
                    assert(glist_val(lg@) == 0);
                }
            }
            if lg.len() == 0 {
                Some(rv)
            } else {
                let lv = combine_groups(&lg);
                let shift = pow16m(8 - lg.len());
                let ghost lbits = (16 * lg@.len()) as nat;
                let ghost sbits = (16 * (8 - lg@.len())) as nat;
                proof {
                    lemma_pow2_adds(lbits, sbits);
                    lemma_pow2_pos(sbits);
                    assert(lv as int * shift as int <= (pow2(lbits) - 1) * pow2(sbits) as int)
                        by (nonlinear_arith)
                        requires
                            lv as int <= pow2(lbits) - 1,
                            shift as int == pow2(sbits),
                            pow2(sbits) >= 1,
                    ;
                    assert((pow2(lbits) - 1) * pow2(sbits) as int == pow2((lbits + sbits) as nat)
                        - pow2(sbits)) by (nonlinear_arith)
                        requires
                            pow2(lbits) * pow2(sbits) == pow2((lbits + sbits) as nat),
                    ;
                    assert(pow2((16 * rg@.len()) as nat) <= pow2(sbits)) by {
                        if 16 * rg@.len() < sbits {
                            vstd::arithmetic::power2::lemma_pow2_strictly_increases(
                                (16 * rg@.len()) as nat,
                                sbits,
                            );
                        }
                    }
                    assert(pow2(128) == 0x100000000000000000000000000000000) by {
                        vstd::arithmetic::power2::lemma2_to64();
                        vstd::arithmetic::power2::lemma2_to64_rest();
                        lemma_pow2_adds(64, 64);
                    }
                }
                Some(lv * shift + rv)
            }
        },
    }
}

/// The sixteen-bit groups of an IPv6 address, most significant first.
pub open spec fn groups_seq(a: int) -> Seq<u16> {
    Seq::new(8, |k: int| ((a / pow2((16 * (7 - k)) as nat) as int) % 0x10000) as u16)
}

/// Length of the run of zero groups beginning at `k`.
pub open spec fn run_len(g: Seq<u16>, k: int) -> int
    decreases 8 - k when k <= 8
{
    if !(0 <= k < 8) || k >= g.len() {
        0
    } else if g[k] != 0 {
        0
    } else {
        1 + run_len(g, k + 1)
    }
}

/// Start of the leftmost longest zero run at or after `k` (8 when none).
pub open spec fn best_start(g: Seq<u16>, k: int) -> int
    decreases 8 - k when k <= 8
{
    if !(0 <= k < 8) {
        8
    } else {
        let rest = best_start(g, k + 1);
        if run_len(g, k) >= run_len(g, rest) {
            k
        } else {
            rest
        }
    }
}

/// Colon-separated lowercase hex of the groups in `[from, to)`.
pub open spec fn join_groups(g: Seq<u16>, from: int, to: int) -> Seq<char>
    decreases to - from,
{
    if to <= from {
        Seq::<char>::empty()
    } else if from + 1 == to {
        hex_str(g[from] as nat)
    } else {
        join_groups(g, from, to - 1) + seq![':'] + hex_str(g[to - 1] as nat)
    }
}

/// The canonical colon-hex rendering: the leftmost longest run of two or
/// more zero groups is compressed to `::`.
pub open spec fn ipv6_str(a: int) -> Seq<char> {
    let g = groups_seq(a);
    let b = best_start(g, 0);
    let l = run_len(g, b);
    if l >= 2 {
        join_groups(g, 0, b) + seq![':', ':'] + join_groups(g, b + l, 8)
    } else {
        join_groups(g, 0, 8)
    }
}

fn group_at(a: u128, k: usize) -> (r: u16)
    requires
        k < 8,
    ensures
        r == groups_seq(a as int)[k as int],
{
    proof {
        vstd::arithmetic::power2::lemma2_to64();
        vstd::arithmetic::power2::lemma2_to64_rest();
        lemma_pow2_adds(64, 16);
        lemma_pow2_adds(64, 32);
        lemma_pow2_adds(64, 48);
    }
    let shifted: u128 = if k == 0 {
        a / 0x10000000000000000000000000000
    } else if k == 1 {
        a / 0x1000000000000000000000000
    } else if k == 2 {
        a / 0x100000000000000000000
    } else if k == 3 {
        a / 0x10000000000000000
    } else if k == 4 {
        a / 0x1000000000000
    } else if k == 5 {
        a / 0x100000000
    } else if k == 6 {
        a / 0x10000
    } else {
        a
    };
    proof {
        assert(pow2(0) == 1);
        if k == 0 {
            assert((16 * (7 - k as int)) as nat == 112);
        } else if k == 1 {
            assert((16 * (7 - k as int)) as nat == 96);
        } else if k == 2 {
            assert((16 * (7 - k as int)) as nat == 80);
        } else if k == 3 {
            assert((16 * (7 - k as int)) as nat == 64);
        } else if k == 4 {
            assert((16 * (7 - k as int)) as nat == 48);
        } else if k == 5 {
            assert((16 * (7 - k as int)) as nat == 32);
        } else if k == 6 {
            assert((16 * (7 - k as int)) as nat == 16);
        } else {
            assert((16 * (7 - k as int)) as nat == 0);
        }
        assert(shifted as int == a as int / pow2((16 * (7 - k as int)) as nat) as int);
    }
    (shifted % 0x10000) as u16
}

fn run_len_from(g: &Vec<u16>, k: usize) -> (r: usize)
    requires
        g@.len() == 8,
        k <= 8,
    ensures
        r as int == run_len(g@, k as int),
        r <= 8 - k,
    decreases 8 - k,
{
    if k >= 8 {
        0
    } else if g[k] != 0 {
        0
    } else {
        1 + run_len_from(g, k + 1)
    }
}

fn best_from(g: &Vec<u16>, k: usize) -> (r: usize)
    requires
        g@.len() == 8,
        k <= 8,
    ensures
        r as int == best_start(g@, k as int),
        k <= r <= 8,
    decreases 8 - k,
{
    if k >= 8 {
        8
    } else {
        let rest = best_from(g, k + 1);
        let here = run_len_from(g, k);
        let there = if rest < 8 {
            run_len_from(g, rest)
        } else {
            0
        };
        proof {
            if rest == 8 {
                assert(run_len(g@, 8) == 0);
            }
        }
        if here >= there {
            k
        } else {
            rest
        }
    }
}

fn join_groups_text(g: &Vec<u16>, from: usize, to: usize) -> (r: String)
    requires
        g@.len() == 8,
        from <= 8,
        to <= 8,
    ensures
        r@ == join_groups(g@, from as int, to as int),
    decreases to,
{
    if to <= from {
        String::new()
    } else if from + 1 == to {
        hex_text(g[from])
    } else {
        let head = join_groups_text(g, from, to - 1);
        let colon = ":";
        proof {
            reveal_strlit(":");
            assert(colon@ =~= seq![':']);
        }
        let r = head.concat(colon).concat(hex_text(g[to - 1]).as_str());
        proof {
            assert(r@ =~= join_groups(g@, from as int, to as int));
        }
        r
    }
}

/// Renders an IPv6 address in canonical colon-hex form.
pub fn ipv6_text(a: u128) -> (r: String)
    ensures
        r@ == ipv6_str(a as int),
{
    let mut g: Vec<u16> = Vec::new();
    let mut k: usize = 0;
    while k < 8
        invariant
            k <= 8,
            g@.len() == k,
            forall|j: int| 0 <= j < k ==> g@[j] == groups_seq(a as int)[j],
        decreases 8 - k,
    {
        g.push(group_at(a, k));
        k = k + 1;
    }
    proof {
        assert(g@ =~= groups_seq(a as int));
    }
    let b = best_from(&g, 0);
    let l = if b < 8 {
        run_len_from(&g, b)
    } else {
        0
    };
    proof {
        if b == 8 {
            assert(run_len(g@, 8) == 0);
        }
    }
    if l >= 2 {
        let head = join_groups_text(&g, 0, b);
        let dc = "::";
        proof {
            reveal_strlit("::");
            assert(dc@ =~= seq![':', ':']);
        }
        let r = head.concat(dc).concat(join_groups_text(&g, b + l, 8).as_str());
        proof {
            assert(r@ =~= ipv6_str(a as int));
        }
        r
    } else {
        join_groups_text(&g, 0, 8)
    }
}

} // verus!
