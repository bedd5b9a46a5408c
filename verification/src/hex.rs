//! Hexadecimal text of numbers and byte strings, written and read back.

use vstd::prelude::*;
use crate::text::{chars_of, string_from_chars};

verus! {

/// Lowercase hexadecimal digits.
pub const HEX_DIGITS: [char; 16] = ['0', '1', '2', '3', '4', '5', '6', '7', '8', '9', 'a', 'b', 'c', 'd', 'e', 'f'];

/// The last `k` hexadecimal digits of `h`, most significant first.
pub open spec fn hex_text(h: int, k: nat) -> Seq<char>
    decreases k,
{
    if k == 0 {
        Seq::empty()
    } else {
        hex_text(h / 16, (k - 1) as nat).push(HEX_DIGITS@[h % 16])
    }
}

/// A frame hash as 16 lowercase hexadecimal digits.
pub open spec fn hex16(h: u64) -> Seq<char> {
    hex_text(h as int, 16)
}

/// Value of a hexadecimal digit of either case, or -1 for any other character.
pub open spec fn hex_val(c: char) -> int {
    if '0' <= c <= '9' {
        c as u32 - '0' as u32
    } else if 'a' <= c <= 'f' {
        c as u32 - 'a' as u32 + 10
    } else if 'A' <= c <= 'F' {
        c as u32 - 'A' as u32 + 10
    } else {
        -1
    }
}

/// Every character is a hexadecimal digit.
pub open spec fn all_hex(s: Seq<char>) -> bool {
    forall|i: int| 0 <= i < s.len() ==> hex_val(#[trigger] s[i]) >= 0
}

/// The number written by hexadecimal digits.
pub open spec fn hex_value(s: Seq<char>) -> int
    decreases s.len(),
{
    if s.len() == 0 {
        0
    } else {
        hex_value(s.drop_last()) * 16 + hex_val(s.last())
    }
}

/// The digits of a number text, after an optional leading `+`.
pub open spec fn unsigned_digits(s: Seq<char>) -> Seq<char> {
    if s.len() > 0 && s[0] == '+' {
        s.drop_first()
    } else {
        s
    }
}

/// The number a text writes in hexadecimal: an optional `+`, then at least one hexadecimal
/// digit of either case; `None` for anything else.
pub open spec fn hex_number(s: Seq<char>) -> Option<int> {
    let t = unsigned_digits(s);
    if t.len() == 0 || !all_hex(t) {
        None
    } else {
        Some(hex_value(t))
    }
}

/// What `u64::from_str_radix(s, 16)` gives: a hexadecimal number that fits in 64 bits.
pub open spec fn parse_hex(s: Seq<char>) -> Option<u64> {
    match hex_number(s) {
        Some(v) => if v <= u64::MAX {
            Some(v as u64)
        } else {
            None
        },
        None => None,
    }
}

/// What `u128::from_str_radix(s, 16)` gives: a hexadecimal number that fits in 128 bits.
pub open spec fn parse_hex128(s: Seq<char>) -> Option<u128> {
    match hex_number(s) {
        Some(v) => if v <= u128::MAX {
            Some(v as u128)
        } else {
            None
        },
        None => None,
    }
}

fn hex_digit_value(c: char) -> (r: i32)
    ensures
        r as int == hex_val(c),
{
    if '0' <= c && c <= '9' {
        (c as u32 - '0' as u32) as i32
    } else if 'a' <= c && c <= 'f' {
        (c as u32 - 'a' as u32 + 10) as i32
    } else if 'A' <= c && c <= 'F' {
        (c as u32 - 'A' as u32 + 10) as i32
    } else {
        -1
    }
}

proof fn lemma_hex_value_grows(s: Seq<char>, j: int)
    requires
        all_hex(s),
        0 <= j <= s.len(),
    ensures
        hex_value(s) >= hex_value(s.subrange(0, j)) >= 0,
    decreases s.len(),
{
    if s.len() > 0 {
        let d = s.drop_last();
        assert(all_hex(d)) by {
            assert forall|i: int| 0 <= i < d.len() implies hex_val(#[trigger] d[i]) >= 0 by {
                assert(d[i] == s[i]);
            }
        }
        assert(hex_val(s[s.len() - 1]) >= 0);
        if j == s.len() {
            assert(s.subrange(0, j) =~= s);
            lemma_hex_value_grows(d, 0);
        } else {
            assert(s.subrange(0, j) =~= d.subrange(0, j));
            lemma_hex_value_grows(d, j);
        }
    } else {
        assert(s.subrange(0, j) =~= s);
    }
}

/// Reads a hexadecimal number as `u128::from_str_radix(_, 16)` does.
pub fn parse_hex_u128(cs: &[char]) -> (r: Option<u128>)
    ensures
        r == parse_hex128(cs@),
{
    let n = cs.len();
    let start: usize = if n > 0 && cs[0] == '+' {
        1
    } else {
        0
    };
    let ghost t = unsigned_digits(cs@);
    proof {
        assert(t =~= cs@.subrange(start as int, n as int));
    }
    if start == n {
        return None;
    }
    let mut acc: u128 = 0;
    let mut j: usize = start;
    while j < n
        invariant
            start <= j <= n,
            n == cs@.len(),
            t == cs@.subrange(start as int, n as int),
            t == unsigned_digits(cs@),
            t.len() > 0,
            acc as int == hex_value(t.subrange(0, j - start)),
            all_hex(t.subrange(0, j - start)),
        decreases n - j,
    {
        let d = hex_digit_value(cs[j]);
        let ghost pre = t.subrange(0, j - start);
        let ghost next = t.subrange(0, j + 1 - start);
        proof {
            assert(next.drop_last() =~= pre);
            assert(next.last() == cs@[j as int]);
            assert(hex_value(next) == hex_value(pre) * 16 + hex_val(cs@[j as int]));
        }
        if d < 0 {
            proof {
                assert(t[j - start] == cs@[j as int]);
                assert(hex_val(t[j - start]) < 0);
                assert(!all_hex(t));
            }
            return None;
        }
        if acc > (u128::MAX - (d as u128)) / 16 {
            proof {
                assert(hex_value(next) > u128::MAX) by (nonlinear_arith)
                    requires
                        hex_value(next) == acc * 16 + d,
                        acc > (u128::MAX - (d as u128)) / 16,
                        0 <= d < 16,
                ;
                if all_hex(t) {
                    lemma_hex_value_grows(t, j + 1 - start);
                    assert(hex_value(t) > u128::MAX);
                }
                assert(parse_hex128(cs@) is None);
            }
            return None;
        }
        acc = acc * 16 + (d as u128);
        proof {
            assert forall|i: int| 0 <= i < next.len() implies hex_val(#[trigger] next[i]) >= 0 by {
                if i < pre.len() {
                    assert(next[i] == pre[i]);
                }
            }
        }
        j = j + 1;
    }
    proof {
        assert(t.subrange(0, n - start) =~= t);
    }
    Some(acc)
}

/// Powers of sixteen.
pub open spec fn p16(k: nat) -> int
    decreases k,
{
    if k == 0 {
        1
    } else {
        16 * p16((k - 1) as nat)
    }
}

pub proof fn lemma_hex_digit(d: int)
    requires
        0 <= d < 16,
    ensures
        hex_val(HEX_DIGITS@[d]) == d,
        HEX_DIGITS@[d] != ',',
        HEX_DIGITS@[d] != '+',
{
    assert(HEX_DIGITS@ =~= seq!['0', '1', '2', '3', '4', '5', '6', '7', '8', '9', 'a', 'b', 'c', 'd', 'e', 'f']);
}

pub proof fn lemma_hex_text(h: int, k: nat)
    requires
        0 <= h < p16(k),
    ensures
        hex_text(h, k).len() == k,
        all_hex(hex_text(h, k)),
        hex_value(hex_text(h, k)) == h,
        forall|i: int| 0 <= i < k ==> (#[trigger] hex_text(h, k)[i]) != ',' && hex_text(h, k)[i] != '+',
    decreases k,
{
    if k > 0 {
        let q = h / 16;
        let d = h % 16;
        assert(0 <= q < p16((k - 1) as nat)) by (nonlinear_arith)
            requires
                0 <= h < 16 * p16((k - 1) as nat),
                q == h / 16,
        ;
        lemma_hex_text(q, (k - 1) as nat);
        lemma_hex_digit(d);
        let t = hex_text(h, k);
        let r = hex_text(q, (k - 1) as nat);
        assert(t == r.push(HEX_DIGITS@[d]));
        assert(t.drop_last() =~= r);
        assert forall|i: int| 0 <= i < t.len() implies hex_val(#[trigger] t[i]) >= 0 && t[i] != ',' && t[i] != '+' by {
            if i < r.len() {
                assert(t[i] == r[i]);
            }
        }
    }
}

pub proof fn lemma_hex16(h: u64)
    ensures
        hex16(h).len() == 16,
        parse_hex(hex16(h)) == Some(h),
        forall|i: int| 0 <= i < 16 ==> #[trigger] hex16(h)[i] != ',',
{
    reveal_with_fuel(p16, 17);
    assert(p16(16) == 0x1_0000_0000_0000_0000);
    lemma_hex_text(h as int, 16);
    assert(hex16(h)[0] != '+');
    assert(unsigned_digits(hex16(h)) == hex16(h));
}


/// Reads a hexadecimal number as `u64::from_str_radix(_, 16)` does.
pub fn parse_hex_u64(cs: &[char]) -> (r: Option<u64>)
    ensures
        r == parse_hex(cs@),
{
    match parse_hex_u128(cs) {
        Some(v) => {
            proof {
                let t = unsigned_digits(cs@);
                lemma_hex_value_grows(t, 0);
                assert(hex_number(cs@) == Some(v as int));
            }
            if v <= 0xffff_ffff_ffff_ffffu128 {
                Some(v as u64)
            } else {
                None
            }
        },
        None => {
            proof {
                if hex_number(cs@) is Some {
                    assert(hex_number(cs@)->0 > u128::MAX);
                }
            }
            None
        },
    }
}

/// Writes the last `k` hexadecimal digits of `x`, most significant first.
pub fn write_hex(x: u128, k: usize) -> (r: Vec<char>)
    ensures
        r@ == hex_text(x as int, k as nat),
        r@.len() == k,
{
    let mut buf: Vec<char> = vec!['0'; k];
    let mut y: u128 = x;
    let mut i: usize = 0;
    while i < k
        invariant
            i <= k,
            buf@.len() == k,
            hex_text(x as int, k as nat) == hex_text(y as int, (k - i) as nat) + buf@.subrange(k - i, k as int),
        decreases k - i,
    {
        let ghost tail = buf@.subrange(k - i, k as int);
        let d = HEX_DIGITS[(y % 16) as usize];
        buf.set(k - 1 - i, d);
        proof {
            assert(buf@.subrange(k - 1 - i, k as int) =~= seq![d] + tail);
            assert(hex_text(y as int, (k - i) as nat) == hex_text(y as int / 16, (k - i - 1) as nat).push(d));
            assert(hex_text(y as int / 16, (k - i - 1) as nat).push(d) + tail =~= hex_text(y as int / 16, (k - i - 1) as nat)
                + (seq![d] + tail));
        }
        y = y / 16;
        i = i + 1;
    }
    proof {
        assert(buf@.subrange(0, k as int) =~= buf@);
        assert(hex_text(y as int, 0) + buf@ =~= buf@);
    }
    buf
}

/// A 128-bit number as 32 lowercase hexadecimal digits.
pub open spec fn hex32(v: u128) -> Seq<char> {
    hex_text(v as int, 32)
}

/// A 128-bit number reads back from its 32 digits.
pub proof fn lemma_hex32(v: u128)
    ensures
        hex32(v).len() == 32,
        parse_hex128(hex32(v)) == Some(v),
{
    reveal_with_fuel(p16, 33);
    assert(p16(32) == 0x1_0000_0000_0000_0000_0000_0000_0000_0000);
    lemma_hex_text(v as int, 32);
    assert(hex32(v)[0] != '+');
    assert(unsigned_digits(hex32(v)) == hex32(v));
}

/// Bytes as text: two lowercase hexadecimal digits per byte, high half first.
pub open spec fn hex_of_bytes(b: Seq<u8>) -> Seq<char> {
    Seq::new(
        2 * b.len(),
        |i: int|
            HEX_DIGITS@[if i % 2 == 0 {
                b[i / 2] / 16
            } else {
                b[i / 2] % 16
            } as int],
    )
}

/// The 32 bytes written by 64 hexadecimal digits of either case; `None` for any other text.
pub open spec fn bytes_of_hex(s: Seq<char>) -> Option<Seq<u8>> {
    if s.len() == 64 && all_hex(s) {
        Some(Seq::new(32, |i: int| (hex_val(s[2 * i]) * 16 + hex_val(s[2 * i + 1])) as u8))
    } else {
        None
    }
}

/// Writes 32 bytes as 64 lowercase hexadecimal digits.
pub fn hex_from_32(bytes: &[u8; 32]) -> (r: String)
    ensures
        r@ == hex_of_bytes(bytes@),
{
    let mut cs: Vec<char> = Vec::new();
    let mut i: usize = 0;
    while i < 32
        invariant
            i <= 32,
            bytes@.len() == 32,
            cs@ == hex_of_bytes(bytes@.subrange(0, i as int)),
        decreases 32 - i,
    {
        let b = bytes[i];
        let ghost before = cs@;
        cs.push(HEX_DIGITS[(b / 16) as usize]);
        cs.push(HEX_DIGITS[(b % 16) as usize]);
        proof {
            let s = bytes@.subrange(0, i + 1);
            assert forall|t: int| 0 <= t < 2 * i implies #[trigger] hex_of_bytes(s)[t] == before[t] by {
                assert(s[t / 2] == bytes@.subrange(0, i as int)[t / 2]);
            }
            assert(cs@ =~= hex_of_bytes(s));
        }
        i = i + 1;
    }
    proof {
        assert(bytes@.subrange(0, 32) =~= bytes@);
    }
    string_from_chars(cs.as_slice())
}

/// Reads 32 bytes from 64 hexadecimal digits; `None` for any other text.
pub fn hex_to_32(hex: &str) -> (r: Option<[u8; 32]>)
    ensures
        match r {
            Some(a) => bytes_of_hex(hex@) == Some(a@),
            None => bytes_of_hex(hex@) is None,
        },
{
    let cs = chars_of(hex);
    if cs.len() != 64 {
        return None;
    }
    let mut out = [0u8; 32];
    let mut i: usize = 0;
    while i < 32
        invariant
            i <= 32,
            cs@ == hex@,
            cs@.len() == 64,
            out@.len() == 32,
            forall|t: int| 0 <= t < 2 * i ==> hex_val(#[trigger] cs@[t]) >= 0,
            forall|t: int| 0 <= t < i ==> #[trigger] out@[t] == (hex_val(cs@[2 * t]) * 16 + hex_val(cs@[2 * t + 1])) as u8,
        decreases 32 - i,
    {
        let hi = hex_digit_value(cs[2 * i]);
        let lo = hex_digit_value(cs[2 * i + 1]);
        if hi < 0 || lo < 0 {
            proof {
                if hi < 0 {
                    assert(hex_val(cs@[2 * i as int]) < 0);
                } else {
                    assert(hex_val(cs@[2 * i + 1]) < 0);
                }
                assert(!all_hex(hex@));
            }
            return None;
        }
        out[i] = (hi * 16 + lo) as u8;
        i = i + 1;
    }
    proof {
        assert(all_hex(hex@));
        assert(out@ =~= Seq::new(32, |t: int| (hex_val(hex@[2 * t]) * 16 + hex_val(hex@[2 * t + 1])) as u8));
    }
    Some(out)
}

/// Law: 32 bytes read back from their text unchanged.
pub proof fn law_bytes_hex_roundtrip(b: Seq<u8>)
    requires
        b.len() == 32,
    ensures
        bytes_of_hex(hex_of_bytes(b)) == Some(b),
{
    let s = hex_of_bytes(b);
    assert forall|t: int| 0 <= t < s.len() implies hex_val(#[trigger] s[t]) >= 0 by {
        let d = if t % 2 == 0 { b[t / 2] / 16 } else { b[t / 2] % 16 };
        lemma_hex_digit(d as int);
    }
    assert forall|i: int| 0 <= i < 32 implies (hex_val(s[2 * i]) * 16 + hex_val(s[2 * i + 1])) as u8 == b[i] by {
        lemma_hex_digit((b[i] / 16) as int);
        lemma_hex_digit((b[i] % 16) as int);
        assert((2 * i) / 2 == i);
        assert((2 * i + 1) / 2 == i);
        assert((2 * i) % 2 == 0);
        assert((2 * i + 1) % 2 == 1);
    }
    assert(Seq::new(32, |i: int| (hex_val(s[2 * i]) * 16 + hex_val(s[2 * i + 1])) as u8) =~= b);
}

} // verus!
