//! Wrappers around the outside crates and the few std functions that vstd
//! gives no specification. Verus believes the contracts stated here; each doc
//! comment names the function relied on.

use vstd::prelude::*;

verus! {

/// Relies on `String::from_utf8`: it succeeds exactly on valid UTF-8 input
/// and returns the string whose UTF-8 encoding is that input.
#[verifier::external_body]
pub fn string_from_utf8(v: Vec<u8>) -> (r: Option<String>)
    ensures
        r is Some <==> vstd::utf8::valid_utf8(v@),
        r matches Some(s) ==> vstd::utf8::encode_utf8(s@) == v@,
{
    String::from_utf8(v).ok()
}

/// The compressed frame that zstd produces for `data` at compression level
/// `level` with long-distance matching switched per `long_matching`. The frame
/// is a function of these three inputs alone.
pub uninterp spec fn zstd_frame(data: Seq<u8>, level: int, long_matching: bool) -> Seq<u8>;

/// Relies on zstd stream compression (`zstd::stream::Encoder`: `new`,
/// `long_distance_matching`, `write_all`, `finish`) producing the deterministic
/// frame for the input bytes and parameters. Compressing into an in-memory
/// buffer always succeeds: levels are clamped to the valid range and the
/// `Vec` sink's writes cannot fail.
#[verifier::external_body]
pub fn zstd_compress(data: &[u8], level: i32, long_matching: bool) -> (r: Vec<u8>)
    ensures
        r@ == zstd_frame(data@, level as int, long_matching),
{
    let mut enc = zstd::stream::Encoder::new(Vec::new(), level)
        .expect("in-memory zstd encoder construction cannot fail");
    enc.long_distance_matching(long_matching)
        .expect("setting long-distance matching cannot fail");
    std::io::Write::write_all(&mut enc, data).expect("writing to a Vec sink cannot fail");
    enc.finish().expect("finishing an in-memory zstd frame cannot fail")
}

/// What zstd decompression yields for the given bytes, if it accepts them:
/// the decoder is deterministic, so the result is a function of the input
/// bytes alone.
pub uninterp spec fn zstd_inflate(data: Seq<u8>) -> Option<Seq<u8>>;

/// Relies on `zstd::stream::decode_all`: decompression is a deterministic
/// function of the input bytes (`zstd_inflate`), and it inverts compression —
/// decompressing a frame produced at any level yields the original bytes.
#[verifier::external_body]
pub fn zstd_decompress(data: &[u8]) -> (r: Option<Vec<u8>>)
    ensures
        r matches Some(d) ==> zstd_inflate(data@) == Some(d@),
        r is None ==> zstd_inflate(data@) is None,
        forall|d: Seq<u8>, level: int, lm: bool|
            data@ == #[trigger] zstd_frame(d, level, lm) ==> (r is Some && r->Some_0@ == d),
{
    zstd::stream::decode_all(data).ok()
}

#[verifier::external_type_specification]
#[verifier::external_body]
pub struct ExDynamicImage(image::DynamicImage);

/// Whether `image::load_from_memory` decodes the given bytes: decoding is a
/// function of the bytes alone.
pub uninterp spec fn image_decodes(bytes: Seq<u8>) -> bool;

/// Relies on `image::load_from_memory` to decode an encoded image: it succeeds
/// exactly on bytes it can decode (`image_decodes`) and fails on malformed
/// bytes; the decoded pixels are not modeled here.
#[verifier::external_body]
pub fn decode_image(bytes: &[u8]) -> (r: Option<image::DynamicImage>)
    ensures
        r is Some <==> image_decodes(bytes@),
{
    image::load_from_memory(bytes).ok()
}

} // verus!
