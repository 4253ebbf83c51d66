//! Rendering CIDR blocks as `address/prefix` lines.

use crate::addr::{ipv4_str, ipv4_text, ipv6_str, ipv6_text};
use crate::cidr::CidrBlock;
use crate::num::{dec_str, dec_text};
use crate::parse::Family;
use vstd::prelude::*;

verus! {

/// One output line: the block's base address, a slash, the prefix length,
/// and a newline.
pub open spec fn block_line(b: CidrBlock, fam: Family) -> Seq<char> {
    (if fam == Family::V4 {
        ipv4_str(b.base as int)
    } else {
        ipv6_str(b.base as int)
    }) + seq!['/'] + dec_str(b.prefix as nat) + seq!['\n']
}

/// The whole output: the blocks' lines in order.
pub open spec fn render_blocks(bs: Seq<CidrBlock>, fam: Family) -> Seq<char>
    decreases bs.len(),
{
    if bs.len() == 0 {
        Seq::<char>::empty()
    } else {
        render_blocks(bs.drop_last(), fam) + block_line(bs.last(), fam)
    }
}

/// Renders every block, one line each, in the order given.
pub fn format_blocks(bs: &Vec<CidrBlock>, fam: Family) -> (r: String)
    requires
        fam == Family::V4 ==> forall|k: int|
            0 <= k < bs@.len() ==> (#[trigger] bs@[k].base) < 0x100000000,
    ensures
        r@ == render_blocks(bs@, fam),
{
    let mut out = String::new();
    let mut i: usize = 0;
    proof {
        assert(bs@.subrange(0, 0) =~= Seq::<CidrBlock>::empty());
    }
    while i < bs.len()
        invariant
            i <= bs@.len(),
            fam == Family::V4 ==> forall|k: int|
                0 <= k < bs@.len() ==> (#[trigger] bs@[k].base) < 0x100000000,
            out@ == render_blocks(bs@.subrange(0, i as int), fam),
        decreases bs@.len() - i,
    {
        let b = bs[i];
        let addr_text = match fam {
            Family::V4 => ipv4_text(b.base as u32),
            Family::V6 => ipv6_text(b.base),
        };
        let slash = "/";
        let nl = "\n";
        proof {
            reveal_strlit("/");
            reveal_strlit("\n");
            assert(slash@ =~= seq!['/']);
            assert(nl@ =~= seq!['\n']);
        }
        let line = addr_text.concat(slash).concat(dec_text(b.prefix as u128).as_str()).concat(nl);
        proof {
            assert(line@ =~= block_line(bs@[i as int], fam));
        }
        out.append(line.as_str());
        proof {
            assert(bs@.subrange(0, i + 1).drop_last() =~= bs@.subrange(0, i as int));
            assert(bs@.subrange(0, i + 1).last() == bs@[i as int]);
        }
        i = i + 1;
    }
    proof {
        assert(bs@.subrange(0, i as int) =~= bs@);
    }
    out
}

} // verus!
