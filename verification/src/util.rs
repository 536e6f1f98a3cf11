//! Small verified helpers for the build tooling: decimal rendering and
//! human-readable byte sizes.

use vstd::prelude::*;
use crate::trusted::string_from_utf8;

verus! {

/// The decimal digit character for a value below ten.
pub open spec fn dec_digit(d: u64) -> char {
    ((48 + d) as u8) as char
}

/// The decimal rendering of `x`, without leading zeros (a single `'0'` for
/// zero).
pub open spec fn dec_chars(x: u64) -> Seq<char>
    decreases x,
{
    if x < 10 {
        seq![dec_digit(x)]
    } else {
        dec_chars(x / 10).push(dec_digit(x % 10))
    }
}

proof fn lemma_dec_chars_ascii(x: u64)
    ensures
        vstd::utf8::is_ascii_chars(dec_chars(x)),
    decreases x,
{
    if x < 10 {
    } else {
        lemma_dec_chars_ascii(x / 10);
        let pre = dec_chars(x / 10);
        let whole = dec_chars(x);
        assert forall|i: int| 0 <= i < whole.len() implies '\0' <= #[trigger] whole[i]
            <= '\u{7f}' by {
            if i < pre.len() {
                assert(whole[i] == pre[i]);
            }
        }
    }
}

fn dec_digit_exec(d: u64) -> (c: u8)
    requires
        d < 10,
    ensures
        c as char == dec_digit(d),
        c < 0x80,
{
    48 + (d as u8)
}

/// Render `x` in decimal.
pub fn dec_string(x: u64) -> (s: String)
    ensures
        s@ == dec_chars(x),
{
    let mut digits: Vec<u8> = Vec::new();
    let mut v = x;
    let d0 = dec_digit_exec(v % 10);
    digits.push(d0);
    v = v / 10;
    proof {
        if v == 0 {
            assert(dec_chars(x) =~= Seq::<char>::empty() + digits@.map_values(
                |b: u8| b as char,
            ).reverse());
        } else {
            assert(dec_chars(x) =~= dec_chars(v) + digits@.map_values(|b: u8| b as char).reverse());
        }
    }
    while v > 0
        invariant
            digits@.len() >= 1,
            forall|k: int| 0 <= k < digits@.len() ==> (#[trigger] digits@[k]) < 0x80,
            dec_chars(x) =~= (if v == 0 {
                Seq::<char>::empty()
            } else {
                dec_chars(v)
            }) + digits@.map_values(|b: u8| b as char).reverse(),
        decreases v,
    {
        let d = dec_digit_exec(v % 10);
        let ghost prev = digits@;
        digits.push(d);
        let oldv = v;
        v = v / 10;
        proof {
            assert(digits@.map_values(|b: u8| b as char).reverse() =~= seq![d as char]
                + prev.map_values(|b: u8| b as char).reverse());
            if v == 0 {
                assert(dec_chars(oldv) =~= seq![dec_digit(oldv % 10)]);
                assert(dec_chars(x) =~= Seq::<char>::empty() + digits@.map_values(
                    |b: u8| b as char,
                ).reverse());
            } else {
                assert(dec_chars(oldv) =~= dec_chars(v).push(dec_digit(oldv % 10)));
                assert(dec_chars(x) =~= dec_chars(v) + digits@.map_values(
                    |b: u8| b as char,
                ).reverse());
            }
        }
    }
    let mut bytes: Vec<u8> = Vec::new();
    let mut i: usize = digits.len();
    while i > 0
        invariant
            0 <= i <= digits@.len(),
            bytes@ =~= digits@.skip(i as int).reverse(),
            forall|k: int| 0 <= k < digits@.len() ==> (#[trigger] digits@[k]) < 0x80,
        decreases i,
    {
        i = i - 1;
        bytes.push(digits[i]);
        proof {
            assert(bytes@ =~= digits@.skip(i as int).reverse());
        }
    }
    proof {
        assert(digits@.skip(0) =~= digits@);
    }
    let ghost chars = bytes@.map_values(|b: u8| b as char);
    proof {
        assert(chars =~= digits@.map_values(|b: u8| b as char).reverse());
        assert(dec_chars(x) =~= chars);
        assert(vstd::utf8::is_ascii_chars(chars)) by {
            lemma_dec_chars_ascii(x);
            assert forall|k: int| 0 <= k < chars.len() implies '\0' <= #[trigger] chars[k]
                <= '\u{7f}' by {
                assert(chars[k] == dec_chars(x)[k]);
            }
        }
        vstd::utf8::is_ascii_chars_encode_utf8(chars);
        assert(vstd::utf8::encode_utf8(chars) =~= bytes@);
    }
    match string_from_utf8(bytes) {
        Option::Some(s) => {
            proof {
                vstd::utf8::encode_utf8_decode_utf8(chars);
                vstd::utf8::encode_utf8_decode_utf8(s@);
            }
            s
        },
        Option::None => {
            proof {
                vstd::utf8::encode_utf8_valid_utf8(chars);
            }
            vstd::pervasive::unreached()
        },
    }
}

/// `value / unit` in hundredths, rounding half away from zero.
pub open spec fn spec_hundredths(value: nat, unit: nat) -> nat
    recommends
        unit > 0,
{
    (((value * 100 + unit / 2) as int) / (unit as int)) as nat
}

/// The rendering of a fraction in hundredths as `w.ff`.
pub open spec fn spec_two_decimals(h: nat) -> Seq<char> {
    dec_chars((h / 100) as u64) + seq!['.'] + seq![
        dec_digit(((h / 10) % 10) as u64),
        dec_digit((h % 10) as u64),
    ]
}

/// The human-readable size string: whole bytes below a kibibyte, otherwise
/// two decimals of the next unit up.
pub open spec fn spec_format_size(size: nat) -> Seq<char> {
    if size > 0x40000000 {
        spec_two_decimals(spec_hundredths(size, 0x40000000)) + " GB"@
    } else if size > 0x100000 {
        spec_two_decimals(spec_hundredths(size, 0x100000)) + " MB"@
    } else if size > 0x400 {
        spec_two_decimals(spec_hundredths(size, 0x400)) + " KB"@
    } else {
        dec_chars(size as u64) + " B"@
    }
}

fn two_decimals(h: u64) -> (s: String)
    ensures
        s@ == spec_two_decimals(h as nat),
{
    let mut s = dec_string(h / 100);
    s.append(".");
    let mut frac: Vec<u8> = Vec::new();
    frac.push(dec_digit_exec((h / 10) % 10));
    frac.push(dec_digit_exec(h % 10));
    let ghost fchars = frac@.map_values(|b: u8| b as char);
    proof {
        assert(fchars =~= seq![dec_digit(((h / 10) % 10) as u64), dec_digit((h % 10) as u64)]);
        assert(vstd::utf8::is_ascii_chars(fchars));
        vstd::utf8::is_ascii_chars_encode_utf8(fchars);
        assert(vstd::utf8::encode_utf8(fchars) =~= frac@);
    }
    match string_from_utf8(frac) {
        Option::Some(f) => {
            proof {
                vstd::utf8::encode_utf8_decode_utf8(fchars);
                vstd::utf8::encode_utf8_decode_utf8(f@);
                reveal_strlit(".");
            }
            s.append(f.as_str());
            proof {
                assert(s@ =~= spec_two_decimals(h as nat));
            }
            s
        },
        Option::None => {
            proof {
                vstd::utf8::encode_utf8_valid_utf8(fchars);
            }
            vstd::pervasive::unreached()
        },
    }
}

/// Render a byte count for humans: `B` up to a kibibyte, then `KB`, `MB` and
/// `GB` with two decimals, rounding half away from zero.
pub fn format_size(size: usize) -> (s: String)
    ensures
        s@ == spec_format_size(size as nat),
{
    let wide = size as u64;
    if wide > 0x40000000 {
        let h = hundredths(wide, 0x40000000);
        let mut s = two_decimals(h);
        s.append(" GB");
        s
    } else if wide > 0x100000 {
        let h = hundredths(wide, 0x100000);
        let mut s = two_decimals(h);
        s.append(" MB");
        s
    } else if wide > 0x400 {
        let h = hundredths(wide, 0x400);
        let mut s = two_decimals(h);
        s.append(" KB");
        s
    } else {
        let mut s = dec_string(wide);
        s.append(" B");
        s
    }
}

fn hundredths(value: u64, unit: u64) -> (h: u64)
    requires
        unit >= 100,
    ensures
        h == spec_hundredths(value as nat, unit as nat),
{
    proof {
        assert(((value as int) * 100 + (unit as int) / 2) / (unit as int) <= value as int)
            by (nonlinear_arith)
            requires
                unit >= 100,
                value >= 0,
        ;
        assert(((value as int) * 100 + (unit as int) / 2) / (unit as int) >= 0)
            by (nonlinear_arith)
            requires
                unit >= 100,
                value >= 0,
        ;
    }
    let wide: u128 = (value as u128) * 100 + (unit as u128) / 2;
    let q: u128 = wide / (unit as u128);
    q as u64
}

} // verus!
