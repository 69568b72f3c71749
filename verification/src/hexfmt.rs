//! Fixed-width hexadecimal numerals over characters: the textual form the
//! snapshot codec and the id generator use for every number. A `u64` is
//! written as exactly sixteen lowercase hex digits, most significant first,
//! and reading those digits back recovers the number exactly.

use vstd::prelude::*;
use vstd::arithmetic::div_mod::lemma_fundamental_div_mod;
use vstd::arithmetic::div_mod::lemma_fundamental_div_mod_converse;

verus! {

/// Width in digits of an encoded `u64`.
pub const HEX_WIDTH: usize = 16;

/// 16 to the power `k`.
pub open spec fn pow16(k: nat) -> int
    decreases k,
{
    if k == 0 {
        1
    } else {
        16 * pow16((k - 1) as nat)
    }
}

pub proof fn lemma_pow16_pos(k: nat)
    ensures
        pow16(k) >= 1,
    decreases k,
{
    if k > 0 {
        lemma_pow16_pos((k - 1) as nat);
    }
}

pub proof fn lemma_pow16_mono(a: nat, b: nat)
    requires
        a <= b,
    ensures
        pow16(a) <= pow16(b),
    decreases b,
{
    if a < b {
        lemma_pow16_mono(a, (b - 1) as nat);
        lemma_pow16_pos((b - 1) as nat);
    }
}

/// The value of sixteen hex digits fills a `u64` exactly.
pub proof fn lemma_pow16_u64()
    ensures
        pow16(16) == 0x1_0000_0000_0000_0000,
{
    assert(pow16(0) == 1);
    assert(pow16(1) == 16);
    assert(pow16(2) == 0x100);
    assert(pow16(3) == 0x1000);
    assert(pow16(4) == 0x1_0000);
    assert(pow16(5) == 0x10_0000);
    assert(pow16(6) == 0x100_0000);
    assert(pow16(7) == 0x1000_0000);
    assert(pow16(8) == 0x1_0000_0000);
    assert(pow16(9) == 0x10_0000_0000);
    assert(pow16(10) == 0x100_0000_0000);
    assert(pow16(11) == 0x1000_0000_0000);
    assert(pow16(12) == 0x1_0000_0000_0000);
    assert(pow16(13) == 0x10_0000_0000_0000);
    assert(pow16(14) == 0x100_0000_0000_0000);
    assert(pow16(15) == 0x1000_0000_0000_0000);
    assert(pow16(16) == 0x1_0000_0000_0000_0000);
}

/// The digit character for a value below sixteen.
pub open spec fn hex_char(d: int) -> char {
    if d == 0 {
        '0'
    } else if d == 1 {
        '1'
    } else if d == 2 {
        '2'
    } else if d == 3 {
        '3'
    } else if d == 4 {
        '4'
    } else if d == 5 {
        '5'
    } else if d == 6 {
        '6'
    } else if d == 7 {
        '7'
    } else if d == 8 {
        '8'
    } else if d == 9 {
        '9'
    } else if d == 10 {
        'a'
    } else if d == 11 {
        'b'
    } else if d == 12 {
        'c'
    } else if d == 13 {
        'd'
    } else if d == 14 {
        'e'
    } else {
        'f'
    }
}

/// The value of a digit character; sixteen marks a character that is no hex
/// digit.
pub open spec fn hex_char_val(c: char) -> int {
    if c == '0' {
        0
    } else if c == '1' {
        1
    } else if c == '2' {
        2
    } else if c == '3' {
        3
    } else if c == '4' {
        4
    } else if c == '5' {
        5
    } else if c == '6' {
        6
    } else if c == '7' {
        7
    } else if c == '8' {
        8
    } else if c == '9' {
        9
    } else if c == 'a' {
        10
    } else if c == 'b' {
        11
    } else if c == 'c' {
        12
    } else if c == 'd' {
        13
    } else if c == 'e' {
        14
    } else if c == 'f' {
        15
    } else {
        16
    }
}

pub open spec fn is_hex_digit(c: char) -> bool {
    hex_char_val(c) != 16
}

pub proof fn lemma_hex_digit_roundtrip(d: int)
    requires
        0 <= d < 16,
    ensures
        hex_char_val(hex_char(d)) == d,
        is_hex_digit(hex_char(d)),
{
}

pub proof fn lemma_hex_char_of_val(c: char)
    requires
        is_hex_digit(c),
    ensures
        0 <= hex_char_val(c) < 16,
        hex_char(hex_char_val(c)) == c,
{
}

/// The `k` least significant hex digits of `n`, most significant first.
pub open spec fn u64_hex(n: int, k: nat) -> Seq<char>
    decreases k,
{
    if k == 0 {
        Seq::empty()
    } else {
        u64_hex(n / 16, (k - 1) as nat).push(hex_char(n % 16))
    }
}

pub open spec fn all_hex(s: Seq<char>) -> bool {
    forall|i: int| 0 <= i < s.len() ==> is_hex_digit(#[trigger] s[i])
}

/// The number named by a sequence of hex digits.
pub open spec fn hex_val(s: Seq<char>) -> int
    decreases s.len(),
{
    if s.len() == 0 {
        0
    } else {
        hex_val(s.drop_last()) * 16 + hex_char_val(s.last())
    }
}

pub proof fn lemma_u64_hex_props(n: int, k: nat)
    requires
        0 <= n,
    ensures
        u64_hex(n, k).len() == k,
        all_hex(u64_hex(n, k)),
    decreases k,
{
    if k > 0 {
        vstd::arithmetic::div_mod::lemma_div_pos_is_pos(n, 16);
        lemma_u64_hex_props(n / 16, (k - 1) as nat);
        lemma_hex_digit_roundtrip(n % 16);
        let s = u64_hex(n, k);
        let t = u64_hex(n / 16, (k - 1) as nat);
        assert forall|i: int| 0 <= i < s.len() implies is_hex_digit(s[i]) by {
            if i < k - 1 {
                assert(s[i] == t[i]);
            }
        }
    }
}

/// Reading the digits of a number gives the number back.
pub proof fn lemma_hex_val_of_u64_hex(n: int, k: nat)
    requires
        0 <= n < pow16(k),
    ensures
        hex_val(u64_hex(n, k)) == n,
    decreases k,
{
    if k == 0 {
        assert(u64_hex(n, 0) =~= Seq::<char>::empty());
    } else {
        vstd::arithmetic::div_mod::lemma_div_pos_is_pos(n, 16);
        lemma_fundamental_div_mod(n, 16);
        assert(n / 16 < pow16((k - 1) as nat));
        lemma_hex_val_of_u64_hex(n / 16, (k - 1) as nat);
        lemma_hex_digit_roundtrip(n % 16);
        let s = u64_hex(n, k);
        let t = u64_hex(n / 16, (k - 1) as nat);
        lemma_u64_hex_props(n / 16, (k - 1) as nat);
        assert(s.drop_last() =~= t);
        assert(s.last() == hex_char(n % 16));
    }
}

/// Writing the value of a digit sequence gives the digits back.
pub proof fn lemma_u64_hex_of_hex_val(s: Seq<char>)
    requires
        all_hex(s),
    ensures
        0 <= hex_val(s) < pow16(s.len()),
        u64_hex(hex_val(s), s.len()) == s,
    decreases s.len(),
{
    if s.len() == 0 {
        assert(u64_hex(hex_val(s), 0) =~= s);
    } else {
        let init = s.drop_last();
        assert(all_hex(init)) by {
            assert forall|i: int| 0 <= i < init.len() implies is_hex_digit(init[i]) by {
                assert(init[i] == s[i]);
            }
        }
        lemma_u64_hex_of_hex_val(init);
        assert(is_hex_digit(s.last())) by {
            assert(s.last() == s[s.len() - 1]);
        }
        lemma_hex_char_of_val(s.last());
        let d = hex_char_val(s.last());
        let v = hex_val(init) * 16 + d;
        lemma_pow16_pos((s.len() - 1) as nat);
        assert(v < pow16(s.len()));
        lemma_fundamental_div_mod_converse(v, 16, hex_val(init), d);
        assert(u64_hex(v, s.len()) =~= s);
    }
}

/// Only one number writes a given digit sequence.
pub proof fn lemma_u64_hex_inj(a: int, b: int, k: nat)
    requires
        0 <= a < pow16(k),
        0 <= b < pow16(k),
        u64_hex(a, k) == u64_hex(b, k),
    ensures
        a == b,
{
    lemma_hex_val_of_u64_hex(a, k);
    lemma_hex_val_of_u64_hex(b, k);
}

fn hex_char_of(d: u64) -> (r: &'static str)
    requires
        d < 16,
    ensures
        r@.len() == 1,
        r@[0] == hex_char(d as int),
{
    proof {
        reveal_strlit("0");
        reveal_strlit("1");
        reveal_strlit("2");
        reveal_strlit("3");
        reveal_strlit("4");
        reveal_strlit("5");
        reveal_strlit("6");
        reveal_strlit("7");
        reveal_strlit("8");
        reveal_strlit("9");
        reveal_strlit("a");
        reveal_strlit("b");
        reveal_strlit("c");
        reveal_strlit("d");
        reveal_strlit("e");
        reveal_strlit("f");
    }
    if d == 0 {
        "0"
    } else if d == 1 {
        "1"
    } else if d == 2 {
        "2"
    } else if d == 3 {
        "3"
    } else if d == 4 {
        "4"
    } else if d == 5 {
        "5"
    } else if d == 6 {
        "6"
    } else if d == 7 {
        "7"
    } else if d == 8 {
        "8"
    } else if d == 9 {
        "9"
    } else if d == 10 {
        "a"
    } else if d == 11 {
        "b"
    } else if d == 12 {
        "c"
    } else if d == 13 {
        "d"
    } else if d == 14 {
        "e"
    } else {
        "f"
    }
}

fn append_hex_rec(out: &mut String, n: u64, k: usize)
    requires
        k <= 16,
    ensures
        final(out)@ == old(out)@ + u64_hex(n as int, k as nat),
    decreases k,
{
    let ghost pre = out@;
    if k == 0 {
        proof {
            assert(pre + u64_hex(n as int, 0) =~= pre);
        }
        return ;
    }
    let d = n % 16;
    append_hex_rec(out, n / 16, k - 1);
    let c = hex_char_of(d);
    out.append(c);
    proof {
        assert(out@ =~= pre + u64_hex(n as int, k as nat));
    }
}

/// Appends the sixteen-digit numeral of `n`.
pub fn append_u64_hex(out: &mut String, n: u64)
    ensures
        final(out)@ == old(out)@ + u64_hex(n as int, 16),
{
    append_hex_rec(out, n, HEX_WIDTH);
}

fn hex_digit_val(c: char) -> (r: Option<u64>)
    ensures
        match r {
            Some(d) => d < 16 && hex_char_val(c) == d as int,
            None => !is_hex_digit(c),
        },
{
    match c {
        '0' => Some(0),
        '1' => Some(1),
        '2' => Some(2),
        '3' => Some(3),
        '4' => Some(4),
        '5' => Some(5),
        '6' => Some(6),
        '7' => Some(7),
        '8' => Some(8),
        '9' => Some(9),
        'a' => Some(10),
        'b' => Some(11),
        'c' => Some(12),
        'd' => Some(13),
        'e' => Some(14),
        'f' => Some(15),
        _ => None,
    }
}

/// Reads the sixteen-digit numeral written at `pos`, if one stands there.
pub fn parse_u64_hex(s: &str, pos: usize) -> (r: Option<u64>)
    ensures
        r matches Some(n) ==> pos + 16 <= s@.len() && s@.subrange(pos as int, pos as int + 16)
            == u64_hex(n as int, 16),
        forall|m: u64|
            pos + 16 <= s@.len() && s@.subrange(pos as int, pos as int + 16) == u64_hex(
                m as int,
                16,
            ) ==> r == Some(m),
{
    proof {
        lemma_pow16_u64();
    }
    let len = s.unicode_len();
    if len < 16 || pos > len - 16 {
        return None;
    }
    let mut acc: u64 = 0;
    let mut k: usize = 0;
    while k < 16
        invariant
            k <= 16,
            pos + 16 <= usize::MAX,
            pos + 16 <= s@.len(),
            (acc as int) < pow16(k as nat),
            acc as int == hex_val(s@.subrange(pos as int, pos as int + k)),
            all_hex(s@.subrange(pos as int, pos as int + k)),
        decreases 16 - k,
    {
        let c = s.get_char(pos + k);
        match hex_digit_val(c) {
            Some(d) => {
                proof {
                    lemma_pow16_mono((k + 1) as nat, 16);
                    lemma_pow16_u64();
                    let prev = s@.subrange(pos as int, pos as int + k);
                    let cur = s@.subrange(pos as int, pos as int + k + 1);
                    assert(cur.drop_last() =~= prev);
                    assert(cur.last() == c);
                    assert(all_hex(cur)) by {
                        assert forall|i: int| 0 <= i < cur.len() implies is_hex_digit(
                            cur[i],
                        ) by {
                            if i < k {
                                assert(cur[i] == prev[i]);
                            }
                        }
                    }
                }
                acc = acc * 16 + d;
                k = k + 1;
            },
            None => {
                proof {
                    assert forall|m: u64|
                        pos + 16 <= s@.len() && s@.subrange(pos as int, pos as int + 16)
                            == u64_hex(m as int, 16) implies false by {
                        lemma_u64_hex_props(m as int, 16);
                        let whole = s@.subrange(pos as int, pos as int + 16);
                        assert(is_hex_digit(whole[k as int]));
                        assert(whole[k as int] == s@[pos + k]);
                    }
                }
                return None;
            },
        }
    }
    proof {
        let whole = s@.subrange(pos as int, pos as int + 16);
        lemma_u64_hex_of_hex_val(whole);
        assert forall|m: u64|
            pos + 16 <= s@.len() && whole == u64_hex(m as int, 16) implies acc == m by {
            lemma_pow16_u64();
            lemma_hex_val_of_u64_hex(m as int, 16);
        }
    }
    Some(acc)
}

} // verus!
