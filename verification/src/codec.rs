//! Binary container primitives: length-prefixed byte strings, UTF-8 strings
//! and string lists over little-endian 64-bit length fields.
//!
//! Every value is written by a `write_*` function whose output is pinned to a
//! spec-level encoder, and read back by a `read_*` function whose result is
//! pinned to a spec-level decoder. The `lemma_dec_enc_*` lemmas state that
//! each decoder inverts the matching encoder, which is what the shard codec's
//! round-trip guarantee rests on.

use vstd::prelude::*;
use vstd::bytes::{spec_u64_from_le_bytes, spec_u64_to_le_bytes, lemma_auto_spec_u64_to_from_le_bytes};
use vstd::utf8::{encode_utf8, decode_utf8, valid_utf8};

verus! {

/// Whether a sequence length fits the wire's 64-bit length fields.
pub open spec fn fits_u64(n: nat) -> bool {
    n < 0x10000000000000000
}

// ---------------------------------------------------------------- u64 fields

/// Wire form of a 64-bit field: eight bytes, little endian.
pub open spec fn enc_u64(x: u64) -> Seq<u8> {
    spec_u64_to_le_bytes(x)
}

/// Decode a 64-bit field at `pos`.
pub open spec fn dec_u64(buf: Seq<u8>, pos: int) -> Option<(u64, int)> {
    if 0 <= pos && pos + 8 <= buf.len() {
        Some((spec_u64_from_le_bytes(buf.subrange(pos, pos + 8)), pos + 8))
    } else {
        None
    }
}

pub proof fn lemma_dec_enc_u64(buf: Seq<u8>, pos: int, x: u64)
    requires
        0 <= pos,
        pos + 8 <= buf.len(),
        buf.subrange(pos, pos + 8) == enc_u64(x),
    ensures
        dec_u64(buf, pos) == Some((x, pos + 8)),
{
    lemma_auto_spec_u64_to_from_le_bytes();
}

pub fn write_u64(out: &mut Vec<u8>, x: u64)
    ensures
        final(out)@ == old(out)@ + enc_u64(x),
{
    let mut bs = vstd::bytes::u64_to_le_bytes(x);
    out.append(&mut bs);
}

pub fn read_u64(buf: &Vec<u8>, pos: usize) -> (r: Option<(u64, usize)>)
    ensures
        match r {
            Some((x, p)) => dec_u64(buf@, pos as int) == Some((x, p as int)),
            None => dec_u64(buf@, pos as int) is None,
        },
{
    proof {
        lemma_auto_spec_u64_to_from_le_bytes();
    }
    if pos <= buf.len() && buf.len() - pos >= 8 {
        let s = vstd::slice::slice_subrange(buf.as_slice(), pos, pos + 8);
        let x = vstd::bytes::u64_from_le_bytes(s);
        Some((x, pos + 8))
    } else {
        None
    }
}

// ---------------------------------------------------------------- u8 fields

/// Wire form of a single byte field.
pub open spec fn enc_u8(x: u8) -> Seq<u8> {
    seq![x]
}

/// Decode a single byte at `pos`.
pub open spec fn dec_u8(buf: Seq<u8>, pos: int) -> Option<(u8, int)> {
    if 0 <= pos && pos + 1 <= buf.len() {
        Some((buf[pos], pos + 1))
    } else {
        None
    }
}

pub fn write_u8(out: &mut Vec<u8>, x: u8)
    ensures
        final(out)@ == old(out)@ + enc_u8(x),
{
    out.push(x);
    proof {
        assert(out@ =~= old(out)@ + enc_u8(x));
    }
}

pub fn read_u8(buf: &Vec<u8>, pos: usize) -> (r: Option<(u8, usize)>)
    ensures
        match r {
            Some((x, p)) => dec_u8(buf@, pos as int) == Some((x, p as int)),
            None => dec_u8(buf@, pos as int) is None,
        },
{
    if pos < buf.len() {
        Some((buf[pos], pos + 1))
    } else {
        None
    }
}

// ------------------------------------------------------- length-prefixed bytes

/// Wire form of a byte string: 64-bit length, then the bytes.
pub open spec fn enc_bytes(b: Seq<u8>) -> Seq<u8> {
    enc_u64(b.len() as u64) + b
}

/// Decode a length-prefixed byte string at `pos`.
pub open spec fn dec_bytes(buf: Seq<u8>, pos: int) -> Option<(Seq<u8>, int)> {
    match dec_u64(buf, pos) {
        Option::None => None,
        Option::Some((n, p)) => {
            if p + n <= buf.len() {
                Some((buf.subrange(p, p + n), p + n))
            } else {
                None
            }
        },
    }
}

/// Splitting a known concatenation out of a buffer window.
pub proof fn lemma_subrange_split(buf: Seq<u8>, pos: int, a: Seq<u8>, b: Seq<u8>)
    requires
        0 <= pos,
        pos + a.len() + b.len() <= buf.len(),
        buf.subrange(pos, pos + a.len() + b.len()) == a + b,
    ensures
        buf.subrange(pos, pos + a.len()) == a,
        buf.subrange(pos + a.len(), pos + a.len() + b.len()) == b,
{
    let w = buf.subrange(pos, pos + a.len() + b.len());
    assert forall|i: int| 0 <= i < a.len() implies buf[pos + i] == a[i] by {
        assert(w[i] == (a + b)[i]);
    }
    assert forall|i: int| 0 <= i < b.len() implies buf[pos + a.len() + i] == b[i] by {
        assert(w[a.len() + i] == (a + b)[a.len() + i]);
    }
    assert(buf.subrange(pos, pos + a.len()) =~= a);
    assert(buf.subrange(pos + a.len(), pos + a.len() + b.len()) =~= b);
}

pub proof fn lemma_dec_enc_bytes(buf: Seq<u8>, pos: int, b: Seq<u8>)
    requires
        0 <= pos,
        fits_u64(b.len()),
        pos + enc_bytes(b).len() <= buf.len(),
        buf.subrange(pos, pos + enc_bytes(b).len()) == enc_bytes(b),
    ensures
        dec_bytes(buf, pos) == Some((b, pos + enc_bytes(b).len())),
{
    lemma_auto_spec_u64_to_from_le_bytes();
    let lenb = enc_u64(b.len() as u64);
    lemma_subrange_split(buf, pos, lenb, b);
    lemma_dec_enc_u64(buf, pos, b.len() as u64);
}

pub fn write_bytes(out: &mut Vec<u8>, b: &Vec<u8>)
    ensures
        final(out)@ == old(out)@ + enc_bytes(b@),
{
    let ghost start = out@;
    write_u64(out, b.len() as u64);
    out.extend_from_slice(b.as_slice());
    proof {
        assert(out@ =~= start + enc_bytes(b@));
    }
}

pub fn read_bytes(buf: &Vec<u8>, pos: usize) -> (r: Option<(Vec<u8>, usize)>)
    ensures
        match r {
            Some((b, p)) => dec_bytes(buf@, pos as int) == Some((b@, p as int)),
            None => dec_bytes(buf@, pos as int) is None,
        },
{
    match read_u64(buf, pos) {
        Option::None => None,
        Option::Some((n, p)) => {
            if n <= (buf.len() - p) as u64 {
                let end = p + (n as usize);
                let s = vstd::slice::slice_subrange(buf.as_slice(), p, end);
                let v = vstd::slice::slice_to_vec(s);
                Some((v, end))
            } else {
                None
            }
        },
    }
}

// ------------------------------------------------------------------- strings

/// Wire form of a string: its UTF-8 bytes, length-prefixed.
pub open spec fn enc_str(s: Seq<char>) -> Seq<u8> {
    enc_bytes(encode_utf8(s))
}

/// Decode a length-prefixed UTF-8 string at `pos`.
pub open spec fn dec_str(buf: Seq<u8>, pos: int) -> Option<(Seq<char>, int)> {
    match dec_bytes(buf, pos) {
        Option::None => None,
        Option::Some((bs, p)) => {
            if valid_utf8(bs) {
                Some((decode_utf8(bs), p))
            } else {
                None
            }
        },
    }
}

pub proof fn lemma_dec_enc_str(buf: Seq<u8>, pos: int, s: Seq<char>)
    requires
        0 <= pos,
        fits_u64(encode_utf8(s).len()),
        pos + enc_str(s).len() <= buf.len(),
        buf.subrange(pos, pos + enc_str(s).len()) == enc_str(s),
    ensures
        dec_str(buf, pos) == Some((s, pos + enc_str(s).len())),
{
    lemma_dec_enc_bytes(buf, pos, encode_utf8(s));
    vstd::utf8::encode_utf8_valid_utf8(s);
    vstd::utf8::encode_utf8_decode_utf8(s);
}

pub fn write_str(out: &mut Vec<u8>, s: &String)
    ensures
        final(out)@ == old(out)@ + enc_str(s@),
{
    let ghost start = out@;
    let bs = s.as_str().as_bytes();
    write_u64(out, bs.len() as u64);
    out.extend_from_slice(bs);
    proof {
        assert(out@ =~= start + enc_str(s@));
    }
}

pub fn read_str(buf: &Vec<u8>, pos: usize) -> (r: Option<(String, usize)>)
    ensures
        match r {
            Some((s, p)) => dec_str(buf@, pos as int) == Some((s@, p as int)),
            None => dec_str(buf@, pos as int) is None,
        },
{
    match read_bytes(buf, pos) {
        Option::None => None,
        Option::Some((bs, p)) => {
            let ghost bsv = bs@;
            match crate::trusted::string_from_utf8(bs) {
                Option::None => None,
                Option::Some(s) => {
                    proof {
                        vstd::utf8::decode_utf8_encode_utf8(bsv);
                        vstd::utf8::encode_utf8_decode_utf8(s@);
                    }
                    Some((s, p))
                },
            }
        },
    }
}

// -------------------------------------------------------------- string lists

/// Wire form of the elements of a string list, in order.
pub open spec fn enc_str_elems(v: Seq<Seq<char>>) -> Seq<u8>
    decreases v.len(),
{
    if v.len() == 0 {
        Seq::empty()
    } else {
        enc_str(v[0]) + enc_str_elems(v.drop_first())
    }
}

/// Wire form of a string list: 64-bit count, then each string.
pub open spec fn enc_str_list(v: Seq<Seq<char>>) -> Seq<u8> {
    enc_u64(v.len() as u64) + enc_str_elems(v)
}

/// Decode `n` consecutive strings at `pos`.
pub open spec fn dec_str_elems(buf: Seq<u8>, pos: int, n: nat) -> Option<(Seq<Seq<char>>, int)>
    decreases n,
{
    if n == 0 {
        Some((Seq::empty(), pos))
    } else {
        match dec_str(buf, pos) {
            Option::None => None,
            Option::Some((s, p)) => match dec_str_elems(buf, p, (n - 1) as nat) {
                Option::None => None,
                Option::Some((rest, q)) => Some((seq![s] + rest, q)),
            },
        }
    }
}

/// Decode a counted string list at `pos`.
pub open spec fn dec_str_list(buf: Seq<u8>, pos: int) -> Option<(Seq<Seq<char>>, int)> {
    match dec_u64(buf, pos) {
        Option::None => None,
        Option::Some((n, p)) => dec_str_elems(buf, p, n as nat),
    }
}

/// Every string in a list has an encodable length.
pub open spec fn strs_fit(v: Seq<Seq<char>>) -> bool {
    forall|i: int| 0 <= i < v.len() ==> fits_u64(encode_utf8(#[trigger] v[i]).len())
}

pub proof fn lemma_dec_enc_str_elems(buf: Seq<u8>, pos: int, v: Seq<Seq<char>>)
    requires
        0 <= pos,
        strs_fit(v),
        pos + enc_str_elems(v).len() <= buf.len(),
        buf.subrange(pos, pos + enc_str_elems(v).len()) == enc_str_elems(v),
    ensures
        dec_str_elems(buf, pos, v.len()) == Some((v, pos + enc_str_elems(v).len())),
    decreases v.len(),
{
    if v.len() == 0 {
        assert(dec_str_elems(buf, pos, 0) == Some((Seq::<Seq<char>>::empty(), pos)));
        assert(v =~= Seq::<Seq<char>>::empty());
    } else {
        let head = enc_str(v[0]);
        let tail = enc_str_elems(v.drop_first());
        lemma_subrange_split(buf, pos, head, tail);
        lemma_dec_enc_str(buf, pos, v[0]);
        assert(strs_fit(v.drop_first())) by {
            assert(forall|i: int|
                0 <= i < v.drop_first().len() ==> #[trigger] v.drop_first()[i] == v[i + 1]);
        }
        lemma_dec_enc_str_elems(buf, pos + head.len(), v.drop_first());
        assert(seq![v[0]] + v.drop_first() =~= v);
    }
}

pub proof fn lemma_dec_enc_str_list(buf: Seq<u8>, pos: int, v: Seq<Seq<char>>)
    requires
        0 <= pos,
        fits_u64(v.len()),
        strs_fit(v),
        pos + enc_str_list(v).len() <= buf.len(),
        buf.subrange(pos, pos + enc_str_list(v).len()) == enc_str_list(v),
    ensures
        dec_str_list(buf, pos) == Some((v, pos + enc_str_list(v).len())),
{
    lemma_auto_spec_u64_to_from_le_bytes();
    lemma_subrange_split(buf, pos, enc_u64(v.len() as u64), enc_str_elems(v));
    lemma_dec_enc_u64(buf, pos, v.len() as u64);
    lemma_dec_enc_str_elems(buf, pos + 8, v);
}

pub fn write_str_list(out: &mut Vec<u8>, v: &Vec<String>)
    ensures
        final(out)@ == old(out)@ + enc_str_list(v.deep_view()),
{
    let ghost start = out@;
    write_u64(out, v.len() as u64);
    let mut i: usize = 0;
    while i < v.len()
        invariant
            0 <= i <= v@.len(),
            out@ == start + enc_u64(v.deep_view().len() as u64) + enc_str_elems(
                v.deep_view().take(i as int),
            ),
        decreases v@.len() - i,
    {
        let ghost before = v.deep_view().take(i as int);
        write_str(out, &v[i]);
        proof {
            lemma_enc_str_elems_push(before, v.deep_view()[i as int]);
            assert(v.deep_view().take(i as int + 1) =~= before.push(v.deep_view()[i as int]));
        }
        i = i + 1;
    }
    proof {
        assert(v.deep_view().take(v.deep_view().len() as int) =~= v.deep_view());
        assert(out@ =~= start + enc_str_list(v.deep_view()));
    }
}

proof fn lemma_enc_str_elems_push(v: Seq<Seq<char>>, s: Seq<char>)
    ensures
        enc_str_elems(v.push(s)) == enc_str_elems(v) + enc_str(s),
    decreases v.len(),
{
    if v.len() == 0 {
        assert(v.push(s).drop_first() =~= v);
        assert(v.push(s)[0] == s);
        assert(enc_str_elems(v) =~= Seq::<u8>::empty());
        assert(enc_str_elems(v.push(s)) == enc_str(s) + enc_str_elems(v));
        assert(enc_str(s) + Seq::<u8>::empty() =~= enc_str(s));
        assert(enc_str_elems(v) + enc_str(s) =~= enc_str(s));
    } else {
        assert(v.push(s).drop_first() =~= v.drop_first().push(s));
        assert(v.push(s)[0] == v[0]);
        lemma_enc_str_elems_push(v.drop_first(), s);
        assert(enc_str_elems(v.push(s)) =~= enc_str_elems(v) + enc_str(s));
    }
}

pub fn read_str_list(buf: &Vec<u8>, pos: usize) -> (r: Option<(Vec<String>, usize)>)
    ensures
        match r {
            Some((v, p)) => dec_str_list(buf@, pos as int) == Some((v.deep_view(), p as int)),
            None => dec_str_list(buf@, pos as int) is None,
        },
{
    match read_u64(buf, pos) {
        Option::None => None,
        Option::Some((n, p0)) => {
            let mut v: Vec<String> = Vec::new();
            let mut p = p0;
            let mut i: u64 = 0;
            loop
                invariant
                    0 <= i <= n,
                    v@.len() == i,
                    dec_u64(buf@, pos as int) == Some((n, p0 as int)),
                    dec_str_elems(buf@, p0 as int, n as nat) == (match dec_str_elems(
                        buf@,
                        p as int,
                        (n - i) as nat,
                    ) {
                        Option::None => None::<(Seq<Seq<char>>, int)>,
                        Option::Some((rest, q)) => Some((v.deep_view() + rest, q)),
                    }),
                decreases n - i,
            {
                if i == n {
                    proof {
                        assert(dec_str_elems(buf@, p as int, 0) == Some(
                            (Seq::<Seq<char>>::empty(), p as int),
                        ));
                        assert(v.deep_view() + Seq::<Seq<char>>::empty() =~= v.deep_view());
                    }
                    return Some((v, p));
                }
                match read_str(buf, p) {
                    Option::None => {
                        proof {
                            assert(dec_str_elems(buf@, p as int, (n - i) as nat) is None);
                        }
                        return None;
                    },
                    Option::Some((s, q)) => {
                        let ghost old_v = v.deep_view();
                        let ghost rem = (n - i) as nat;
                        proof {
                            assert(dec_str_elems(buf@, p as int, rem) == (
                            match dec_str_elems(buf@, q as int, (rem - 1) as nat) {
                                Option::None => None::<(Seq<Seq<char>>, int)>,
                                Option::Some((rest, q2)) => Some((seq![s@] + rest, q2)),
                            }));
                        }
                        v.push(s);
                        p = q;
                        i = i + 1;
                        proof {
                            assert(v.deep_view() =~= old_v.push(s@));
                            match dec_str_elems(buf@, p as int, (n - i) as nat) {
                                Option::None => {},
                                Option::Some((rest, q2)) => {
                                    assert(old_v + (seq![s@] + rest) =~= v.deep_view() + rest);
                                },
                            }
                        }
                    },
                }
            }
        },
    }
}

} // verus!
