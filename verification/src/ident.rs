//! Stable id derivation: an application discovered by a scan of the machine
//! carries no id of its own, so one is derived deterministically from its
//! filesystem path. Repeated scans of the same path converge to the same id.

use vstd::prelude::*;
use crate::hexfmt::u64_hex;
use crate::hexfmt::append_u64_hex;

verus! {

/// Offset basis of the folding hash.
pub const HASH_SEED: u64 = 0xcbf2_9ce4_8422_2325;

/// Multiplier of the folding hash.
pub const HASH_PRIME: u64 = 0x0000_0100_0000_01b3;

/// One folding step: mix a character into the running hash.
pub open spec fn hash_step(h: u64, c: char) -> u64 {
    (((h ^ ((c as u32) as u64)) as nat * HASH_PRIME as nat) % 0x1_0000_0000_0000_0000nat) as u64
}

/// The hash of a whole string, folded left to right.
pub open spec fn hash_chars(s: Seq<char>) -> u64
    decreases s.len(),
{
    if s.len() == 0 {
        HASH_SEED
    } else {
        hash_step(hash_chars(s.drop_last()), s.last())
    }
}

/// The derived id: the application namespace prefix followed by the path's
/// hash written as a hex numeral.
pub open spec fn app_id_of_path(path: Seq<char>) -> Seq<char> {
    "app_"@ + u64_hex(hash_chars(path) as int, 16)
}

/// Derives the stable application id for a filesystem path. The result
/// always carries the application namespace prefix, so a derived id is never
/// rejected by the identity rule.
pub fn generate_app_id_from_path(path: &str) -> (r: String)
    ensures
        r@ == app_id_of_path(path@),
        r@.len() == 20,
        r@.subrange(0, 4) == "app_"@,
{
    let n = path.unicode_len();
    let mut h: u64 = HASH_SEED;
    let mut i: usize = 0;
    proof {
        assert(path@.subrange(0, 0) =~= Seq::<char>::empty());
    }
    while i < n
        invariant
            i <= n,
            n == path@.len(),
            h == hash_chars(path@.subrange(0, i as int)),
        decreases n - i,
    {
        let c = path.get_char(i);
        let x = h ^ ((c as u32) as u64);
        h = x.wrapping_mul(HASH_PRIME);
        proof {
            let cur = path@.subrange(0, i + 1);
            assert(cur.drop_last() =~= path@.subrange(0, i as int));
            assert(cur.last() == path@[i as int]);
        }
        i = i + 1;
    }
    proof {
        assert(path@.subrange(0, n as int) =~= path@);
    }
    let mut out = String::from_str("app_");
    append_u64_hex(&mut out, h);
    proof {
        reveal_strlit("app_");
        crate::hexfmt::lemma_u64_hex_props(h as int, 16);
        assert(out@.subrange(0, 4) =~= "app_"@);
    }
    out
}

} // verus!
