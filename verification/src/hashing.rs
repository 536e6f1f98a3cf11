//! Deterministic content hashing used for shard names and cache keys, and
//! rendering of hashes as hexadecimal names.
//!
//! The hash is 64-bit FNV-1a, written out and verified here so that shard
//! names and cache keys are a pure function of the hashed bytes.

use vstd::prelude::*;

verus! {

/// The FNV-1a 64-bit offset basis.
pub const FNV_OFFSET: u64 = 0xcbf29ce484222325;

/// The FNV-1a 64-bit prime.
pub const FNV_PRIME: u64 = 0x100000001b3;

/// One FNV-1a round: xor the byte in, multiply by the prime modulo 2^64.
pub open spec fn fnv1a_step(h: u64, b: u8) -> u64 {
    (((h ^ (b as u64)) as int * FNV_PRIME as int) % 0x10000000000000000) as u64
}

/// FNV-1a over a byte sequence, starting from state `h`.
pub open spec fn fnv1a_from(h: u64, s: Seq<u8>) -> u64
    decreases s.len(),
{
    if s.len() == 0 {
        h
    } else {
        fnv1a_from(fnv1a_step(h, s[0]), s.drop_first())
    }
}

/// FNV-1a over a byte sequence from the standard offset basis.
pub open spec fn fnv1a(s: Seq<u8>) -> u64 {
    fnv1a_from(FNV_OFFSET, s)
}

proof fn lemma_fnv1a_from_unfold(h: u64, s: Seq<u8>, i: int)
    requires
        0 <= i < s.len(),
    ensures
        fnv1a_from(h, s.skip(i)) == fnv1a_from(fnv1a_step(h, s[i]), s.skip(i + 1)),
{
    assert(s.skip(i)[0] == s[i]);
    assert(s.skip(i).drop_first() =~= s.skip(i + 1));
}

fn fnv1a_step_exec(h: u64, b: u8) -> (r: u64)
    ensures
        r == fnv1a_step(h, b),
{
    let x = h ^ (b as u64);
    proof {
        assert((x as int) * (FNV_PRIME as int) < 0x100000000000000000000000000000000)
            by (nonlinear_arith)
            requires
                x <= 0xffffffffffffffff,
                FNV_PRIME == 0x100000001b3,
        ;
    }
    let wide: u128 = (x as u128) * (FNV_PRIME as u128);
    let low: u128 = wide % 0x10000000000000000;
    low as u64
}

/// Continue an FNV-1a hash state over the bytes of `s`.
pub fn fnv1a_extend(h0: u64, s: &[u8]) -> (h: u64)
    ensures
        h == fnv1a_from(h0, s@),
{
    let mut h = h0;
    let mut i: usize = 0;
    proof {
        assert(s@.skip(0) =~= s@);
    }
    while i < s.len()
        invariant
            0 <= i <= s@.len(),
            fnv1a_from(h0, s@) == fnv1a_from(h, s@.skip(i as int)),
        decreases s@.len() - i,
    {
        let b = s[i];
        proof {
            lemma_fnv1a_from_unfold(h, s@, i as int);
        }
        h = fnv1a_step_exec(h, b);
        i = i + 1;
    }
    proof {
        assert(s@.skip(s@.len() as int) =~= Seq::<u8>::empty());
    }
    h
}

/// FNV-1a hash of one byte slice.
pub fn fnv1a_hash(s: &[u8]) -> (h: u64)
    ensures
        h == fnv1a(s@),
{
    fnv1a_extend(FNV_OFFSET, s)
}

/// The uppercase hexadecimal digit for a value below 16.
pub open spec fn hex_digit(d: u64) -> char {
    if d < 10 {
        ((48 + d) as u8) as char
    } else {
        ((55 + d) as u8) as char
    }
}

/// The uppercase hexadecimal rendering of `x`, without leading zeros
/// (a single `'0'` for zero).
pub open spec fn hex_chars(x: u64) -> Seq<char>
    decreases x,
{
    if x < 16 {
        seq![hex_digit(x)]
    } else {
        hex_chars(x / 16).push(hex_digit(x % 16))
    }
}

proof fn lemma_hex_chars_ascii(x: u64)
    ensures
        vstd::utf8::is_ascii_chars(hex_chars(x)),
    decreases x,
{
    if x < 16 {
    } else {
        lemma_hex_chars_ascii(x / 16);
        let pre = hex_chars(x / 16);
        let whole = hex_chars(x);
        assert forall|i: int| 0 <= i < whole.len() implies (#[trigger] whole[i]) as nat <= 0x7f by {
            if i < pre.len() {
                assert(whole[i] == pre[i]);
            }
        }
    }
}

fn hex_digit_exec(d: u64) -> (c: u8)
    requires
        d < 16,
    ensures
        c as char == hex_digit(d),
        c < 0x80,
{
    if d < 10 {
        48 + (d as u8)
    } else {
        55 + (d as u8)
    }
}

/// Render `x` as an uppercase hexadecimal string.
pub fn hex_string(x: u64) -> (s: String)
    ensures
        s@ == hex_chars(x),
{
    let mut digits: Vec<u8> = Vec::new();
    let mut v = x;
    let d0 = hex_digit_exec(v % 16);
    digits.push(d0);
    v = v / 16;
    proof {
        if v == 0 {
            assert(hex_chars(x) =~= Seq::<char>::empty() + digits@.map_values(
                |b: u8| b as char,
            ).reverse());
        } else {
            assert(hex_chars(x) =~= hex_chars(v) + digits@.map_values(|b: u8| b as char).reverse());
        }
    }
    while v > 0
        invariant
            digits@.len() >= 1,
            forall|k: int| 0 <= k < digits@.len() ==> (#[trigger] digits@[k]) < 0x80,
            hex_chars(x) =~= (if v == 0 {
                Seq::<char>::empty()
            } else {
                hex_chars(v)
            }) + digits@.map_values(|b: u8| b as char).reverse(),
        decreases v,
    {
        let d = hex_digit_exec(v % 16);
        let ghost prev = digits@;
        digits.push(d);
        let oldv = v;
        v = v / 16;
        proof {
            assert(digits@.map_values(|b: u8| b as char).reverse() =~= seq![d as char]
                + prev.map_values(|b: u8| b as char).reverse());
            if v == 0 {
                assert(hex_chars(oldv) =~= seq![hex_digit(oldv % 16)]);
                assert(hex_chars(x) =~= Seq::<char>::empty() + digits@.map_values(
                    |b: u8| b as char,
                ).reverse());
            } else {
                assert(hex_chars(oldv) =~= hex_chars(v).push(hex_digit(oldv % 16)));
                assert(hex_chars(x) =~= hex_chars(v) + digits@.map_values(
                    |b: u8| b as char,
                ).reverse());
            }
        }
    }
    // reverse the digit bytes, then turn the ASCII bytes into a string
    let mut bytes: Vec<u8> = Vec::new();
    let mut i: usize = digits.len();
    while i > 0
        invariant
            0 <= i <= digits@.len(),
            bytes@ =~= digits@.skip(i as int).reverse(),
            forall|k: int| 0 <= k < digits@.len() ==> (#[trigger] digits@[k]) < 0x80,
        decreases i,
    {
        i = i - 1;
        let b = digits[i];
        bytes.push(b);
        proof {
            assert(bytes@ =~= digits@.skip(i as int).reverse());
        }
    }
    proof {
        assert(digits@.skip(0) =~= digits@);
    }
    let ghost chars = bytes@.map_values(|b: u8| b as char);
    proof {
        assert(chars =~= digits@.map_values(|b: u8| b as char).reverse());
        assert(hex_chars(x) =~= chars);
        assert(vstd::utf8::is_ascii_chars(chars)) by {
            lemma_hex_chars_ascii(x);
            assert forall|k: int| 0 <= k < chars.len() implies (#[trigger] chars[k]) as nat
                <= 0x7f by {
                assert(chars[k] == hex_chars(x)[k]);
                assert(hex_chars(x)[k] as nat <= 0x7f) by {
                    lemma_ascii_chars_bound(hex_chars(x), k);
                }
            }
        }
        vstd::utf8::is_ascii_chars_encode_utf8(chars);
        assert(vstd::utf8::encode_utf8(chars) =~= bytes@);
    }
    let s_opt = crate::trusted::string_from_utf8(bytes);
    match s_opt {
        Option::Some(s) => {
            proof {
                vstd::utf8::encode_utf8_decode_utf8(chars);
                vstd::utf8::encode_utf8_decode_utf8(s@);
            }
            s
        },
        Option::None => {
            proof {
                vstd::utf8::encode_utf8_valid_utf8(chars);
            }
            vstd::pervasive::unreached()
        },
    }
}

proof fn lemma_ascii_chars_bound(chars: Seq<char>, k: int)
    requires
        vstd::utf8::is_ascii_chars(chars),
        0 <= k < chars.len(),
    ensures
        chars[k] as nat <= 0x7f,
{
}

} // verus!
