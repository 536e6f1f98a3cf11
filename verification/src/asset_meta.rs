//! Per-asset transform metadata: how one source asset is to be transformed,
//! and its verified wire form, used both inside shards (`FileMeta` payloads)
//! and as an input to the transform cache's key.
//!
//! Fractional settings (the resolution multiplier and the UV rectangle) are
//! carried as integer thousandths, so `1000` stands for a factor of one.

use vstd::prelude::*;
use crate::codec::{
    enc_str, enc_u8, enc_u64, dec_str, dec_u8, dec_u64, fits_u64, lemma_subrange_split,
    lemma_dec_enc_str, lemma_dec_enc_u64, write_str, write_u8, write_u64, read_str, read_u8,
    read_u64,
};
use crate::asset::TextureFormat;
use vstd::utf8::encode_utf8;

verus! {

/// How a texture asset is to be transformed, all fractions in thousandths.
pub struct TextureMetadata {
    pub resolution_multiplier: Option<u32>,
    pub include_alpha: Option<bool>,
    pub uv: Option<(u32, u32, u32, u32)>,
    pub target: String,
}

/// Mathematical model of texture metadata.
pub struct TextureMetadataV {
    pub resolution_multiplier: Option<u32>,
    pub include_alpha: Option<bool>,
    pub uv: Option<(u32, u32, u32, u32)>,
    pub target: Seq<char>,
}

impl View for TextureMetadata {
    type V = TextureMetadataV;

    open spec fn view(&self) -> TextureMetadataV {
        TextureMetadataV {
            resolution_multiplier: self.resolution_multiplier,
            include_alpha: self.include_alpha,
            uv: self.uv,
            target: self.target@,
        }
    }
}

/// The transform attached to one asset: none (pass-through), or a texture
/// transform.
pub enum AssetMeta {
    NoTransform,
    TextureMeta(TextureMetadata),
}

/// Mathematical model of an asset's metadata.
pub enum AssetMetaV {
    NoTransform,
    TextureMeta(TextureMetadataV),
}

impl View for AssetMeta {
    type V = AssetMetaV;

    open spec fn view(&self) -> AssetMetaV {
        match self {
            AssetMeta::NoTransform => AssetMetaV::NoTransform,
            AssetMeta::TextureMeta(t) => AssetMetaV::TextureMeta(t@),
        }
    }
}

impl TextureMetadata {
    /// The resolution multiplier in thousandths; one when absent.
    pub fn get_resolution_multiplier(&self) -> (r: u32)
        ensures
            r == spec_resolution_multiplier(self@),
    {
        match self.resolution_multiplier {
            Option::Some(m) => m,
            Option::None => 1000,
        }
    }

    /// Whether the texture keeps its alpha channel; `false` when absent.
    pub fn get_include_alpha(&self) -> (r: bool)
        ensures
            r == spec_include_alpha(self@),
    {
        match self.include_alpha {
            Option::Some(b) => b,
            Option::None => false,
        }
    }

    /// The companion payload file this metadata points at.
    pub fn get_target(&self) -> (r: &str)
        ensures
            r@ == self@.target,
    {
        self.target.as_str()
    }

    /// The UV rectangle in thousandths; the full rectangle when absent.
    pub fn get_uv(&self) -> (r: (u32, u32, u32, u32))
        ensures
            r == spec_uv(self@),
    {
        match self.uv {
            Option::Some(uv) => uv,
            Option::None => (0, 0, 1000, 1000),
        }
    }

    /// The texture format the transform produces: with alpha when the
    /// metadata asks for it, without otherwise.
    pub fn get_format(&self) -> (r: TextureFormat)
        ensures
            r == spec_format(self@),
    {
        match self.include_alpha {
            Option::Some(true) => TextureFormat::RGBA8,
            Option::Some(false) => TextureFormat::RGB8,
            Option::None => TextureFormat::RGB8,
        }
    }
}

/// The effective resolution multiplier, in thousandths.
pub open spec fn spec_resolution_multiplier(t: TextureMetadataV) -> u32 {
    match t.resolution_multiplier {
        Option::Some(m) => m,
        Option::None => 1000,
    }
}

/// The effective alpha setting.
pub open spec fn spec_include_alpha(t: TextureMetadataV) -> bool {
    match t.include_alpha {
        Option::Some(b) => b,
        Option::None => false,
    }
}

/// The effective UV rectangle, in thousandths.
pub open spec fn spec_uv(t: TextureMetadataV) -> (u32, u32, u32, u32) {
    match t.uv {
        Option::Some(uv) => uv,
        Option::None => (0, 0, 1000, 1000),
    }
}

/// The texture format the transform produces.
pub open spec fn spec_format(t: TextureMetadataV) -> TextureFormat {
    if spec_include_alpha(t) {
        TextureFormat::RGBA8
    } else {
        TextureFormat::RGB8
    }
}

/// The name of the companion payload file a transformed asset is stored
/// under: the asset's own name with the target suffix.
pub fn target_name(asset: &str) -> (r: String)
    ensures
        r@ == asset@ + ".TARGET"@,
{
    let mut r = asset.to_owned();
    r.append(".TARGET");
    r
}

/// The metadata synthesized for a texture asset that carries no descriptor
/// file: scale by one, drop alpha, the full UV rectangle, and the companion
/// payload name derived from the asset's own name.
pub fn default_texture_meta(asset_path: &str) -> (r: AssetMeta)
    ensures
        r@ == AssetMetaV::TextureMeta(
            TextureMetadataV {
                resolution_multiplier: Some(1000u32),
                include_alpha: Some(false),
                uv: Some((0u32, 0u32, 1000u32, 1000u32)),
                target: asset_path@ + ".TARGET"@,
            },
        ),
{
    AssetMeta::TextureMeta(
        TextureMetadata {
            resolution_multiplier: Some(1000),
            include_alpha: Some(false),
            uv: Some((0, 0, 1000, 1000)),
            target: target_name(asset_path),
        },
    )
}

// --------------------------------------------------------------- wire format

/// Wire form of an optional 32-bit field.
pub open spec fn enc_opt_u32(o: Option<u32>) -> Seq<u8> {
    match o {
        Option::None => seq![0u8],
        Option::Some(v) => seq![1u8] + enc_u64(v as u64),
    }
}

/// Wire form of an optional flag.
pub open spec fn enc_opt_bool(o: Option<bool>) -> Seq<u8> {
    match o {
        Option::None => seq![0u8],
        Option::Some(b) => seq![
            1u8,
            if b {
                1u8
            } else {
                0u8
            },
        ],
    }
}

/// Wire form of an optional UV rectangle.
pub open spec fn enc_opt_uv(o: Option<(u32, u32, u32, u32)>) -> Seq<u8> {
    match o {
        Option::None => seq![0u8],
        Option::Some(uv) => seq![1u8] + enc_u64(uv.0 as u64) + enc_u64(uv.1 as u64) + enc_u64(
            uv.2 as u64,
        ) + enc_u64(uv.3 as u64),
    }
}

/// Wire form of asset metadata.
pub open spec fn enc_meta(m: AssetMetaV) -> Seq<u8> {
    match m {
        AssetMetaV::NoTransform => seq![0u8],
        AssetMetaV::TextureMeta(t) => seq![1u8] + enc_opt_u32(t.resolution_multiplier)
            + enc_opt_bool(t.include_alpha) + enc_opt_uv(t.uv) + enc_str(t.target),
    }
}

/// Decode an optional 32-bit field at `pos`.
pub open spec fn dec_opt_u32(buf: Seq<u8>, pos: int) -> Option<(Option<u32>, int)> {
    match dec_u8(buf, pos) {
        Option::None => None,
        Option::Some((tag, p)) => {
            if tag == 0 {
                Some((Option::None, p))
            } else if tag == 1 {
                match dec_u64(buf, p) {
                    Option::None => None,
                    Option::Some((v, q)) => {
                        if v <= u32::MAX as u64 {
                            Some((Option::Some(v as u32), q))
                        } else {
                            None
                        }
                    },
                }
            } else {
                None
            }
        },
    }
}

/// Decode an optional flag at `pos`.
pub open spec fn dec_opt_bool(buf: Seq<u8>, pos: int) -> Option<(Option<bool>, int)> {
    match dec_u8(buf, pos) {
        Option::None => None,
        Option::Some((tag, p)) => {
            if tag == 0 {
                Some((Option::None, p))
            } else if tag == 1 {
                match dec_u8(buf, p) {
                    Option::None => None,
                    Option::Some((b, q)) => {
                        if b == 0 {
                            Some((Option::Some(false), q))
                        } else if b == 1 {
                            Some((Option::Some(true), q))
                        } else {
                            None
                        }
                    },
                }
            } else {
                None
            }
        },
    }
}

/// Decode one 32-bit UV component at `pos`.
pub open spec fn dec_uv_part(buf: Seq<u8>, pos: int) -> Option<(u32, int)> {
    match dec_u64(buf, pos) {
        Option::None => None,
        Option::Some((v, q)) => {
            if v <= u32::MAX as u64 {
                Some((v as u32, q))
            } else {
                None
            }
        },
    }
}

/// Decode an optional UV rectangle at `pos`.
pub open spec fn dec_opt_uv(buf: Seq<u8>, pos: int) -> Option<(Option<(u32, u32, u32, u32)>, int)> {
    match dec_u8(buf, pos) {
        Option::None => None,
        Option::Some((tag, p)) => {
            if tag == 0 {
                Some((Option::None, p))
            } else if tag == 1 {
                match dec_uv_part(buf, p) {
                    Option::None => None,
                    Option::Some((a, p1)) => match dec_uv_part(buf, p1) {
                        Option::None => None,
                        Option::Some((b, p2)) => match dec_uv_part(buf, p2) {
                            Option::None => None,
                            Option::Some((c, p3)) => match dec_uv_part(buf, p3) {
                                Option::None => None,
                                Option::Some((d, p4)) => Some(
                                    (Option::Some((a, b, c, d)), p4),
                                ),
                            },
                        },
                    },
                }
            } else {
                None
            }
        },
    }
}

/// Decode a whole metadata record; the input must be consumed exactly.
pub open spec fn dec_meta(buf: Seq<u8>) -> Option<AssetMetaV> {
    match dec_u8(buf, 0) {
        Option::None => None,
        Option::Some((tag, p0)) => {
            if tag == 0 {
                if p0 == buf.len() {
                    Some(AssetMetaV::NoTransform)
                } else {
                    None
                }
            } else if tag == 1 {
                match dec_opt_u32(buf, p0) {
                    Option::None => None,
                    Option::Some((rm, p1)) => match dec_opt_bool(buf, p1) {
                        Option::None => None,
                        Option::Some((ia, p2)) => match dec_opt_uv(buf, p2) {
                            Option::None => None,
                            Option::Some((uv, p3)) => match dec_str(buf, p3) {
                                Option::None => None,
                                Option::Some((target, p4)) => {
                                    if p4 == buf.len() {
                                        Some(
                                            AssetMetaV::TextureMeta(
                                                TextureMetadataV {
                                                    resolution_multiplier: rm,
                                                    include_alpha: ia,
                                                    uv,
                                                    target,
                                                },
                                            ),
                                        )
                                    } else {
                                        None
                                    }
                                },
                            },
                        },
                    },
                }
            } else {
                None
            }
        },
    }
}

/// The metadata's target name fits the wire's length fields.
pub open spec fn meta_fits(m: AssetMetaV) -> bool {
    match m {
        AssetMetaV::NoTransform => true,
        AssetMetaV::TextureMeta(t) => fits_u64(encode_utf8(t.target).len()),
    }
}

/// Serialization round trip: decoding an encoded metadata record yields the
/// record, field for field.
#[verifier::rlimit(100)]
pub proof fn lemma_dec_enc_meta(m: AssetMetaV)
    requires
        meta_fits(m),
    ensures
        dec_meta(enc_meta(m)) == Some(m),
{
    vstd::bytes::lemma_auto_spec_u64_to_from_le_bytes();
    match m {
        AssetMetaV::NoTransform => {
            assert(dec_u8(enc_meta(m), 0) == Some((0u8, 1int)));
        },
        AssetMetaV::TextureMeta(t) => {
            let buf = enc_meta(m);
            let a = enc_opt_u32(t.resolution_multiplier);
            let b = enc_opt_bool(t.include_alpha);
            let c = enc_opt_uv(t.uv);
            let d = enc_str(t.target);
            assert(buf =~= seq![1u8] + (a + (b + (c + d))));
            assert(buf[0] == 1u8);
            assert(buf.subrange(1, buf.len() as int) =~= a + (b + (c + d)));
            lemma_subrange_split(buf, 1, a, b + (c + d));
            let p1 = 1 + a.len() as int;
            lemma_subrange_split(buf, p1, b, c + d);
            let p2 = p1 + b.len();
            lemma_subrange_split(buf, p2, c, d);
            let p3 = p2 + c.len();
            lemma_dec_enc_opt_u32(buf, 1, t.resolution_multiplier);
            lemma_dec_enc_opt_bool(buf, p1, t.include_alpha);
            lemma_dec_enc_opt_uv(buf, p2, t.uv);
            lemma_dec_enc_str(buf, p3, t.target);
        },
    }
}

proof fn lemma_dec_enc_opt_u32(buf: Seq<u8>, pos: int, o: Option<u32>)
    requires
        0 <= pos,
        pos + enc_opt_u32(o).len() <= buf.len(),
        buf.subrange(pos, pos + enc_opt_u32(o).len()) == enc_opt_u32(o),
    ensures
        dec_opt_u32(buf, pos) == Some((o, pos + enc_opt_u32(o).len())),
{
    vstd::bytes::lemma_auto_spec_u64_to_from_le_bytes();
    match o {
        Option::None => {
            assert(buf.subrange(pos, pos + 1)[0] == buf[pos]);
        },
        Option::Some(v) => {
            lemma_subrange_split(buf, pos, seq![1u8], enc_u64(v as u64));
            assert(buf.subrange(pos, pos + 1)[0] == buf[pos]);
            lemma_dec_enc_u64(buf, pos + 1, v as u64);
        },
    }
}

proof fn lemma_dec_enc_opt_bool(buf: Seq<u8>, pos: int, o: Option<bool>)
    requires
        0 <= pos,
        pos + enc_opt_bool(o).len() <= buf.len(),
        buf.subrange(pos, pos + enc_opt_bool(o).len()) == enc_opt_bool(o),
    ensures
        dec_opt_bool(buf, pos) == Some((o, pos + enc_opt_bool(o).len())),
{
    match o {
        Option::None => {
            assert(buf.subrange(pos, pos + 1)[0] == buf[pos]);
        },
        Option::Some(bv) => {
            assert(buf.subrange(pos, pos + 2)[0] == buf[pos]);
            assert(buf.subrange(pos, pos + 2)[1] == buf[pos + 1]);
        },
    }
}

proof fn lemma_dec_enc_opt_uv(buf: Seq<u8>, pos: int, o: Option<(u32, u32, u32, u32)>)
    requires
        0 <= pos,
        pos + enc_opt_uv(o).len() <= buf.len(),
        buf.subrange(pos, pos + enc_opt_uv(o).len()) == enc_opt_uv(o),
    ensures
        dec_opt_uv(buf, pos) == Some((o, pos + enc_opt_uv(o).len())),
{
    vstd::bytes::lemma_auto_spec_u64_to_from_le_bytes();
    match o {
        Option::None => {
            assert(buf.subrange(pos, pos + 1)[0] == buf[pos]);
        },
        Option::Some(uv) => {
            let a = enc_u64(uv.0 as u64);
            let b = enc_u64(uv.1 as u64);
            let c = enc_u64(uv.2 as u64);
            let d = enc_u64(uv.3 as u64);
            assert(enc_opt_uv(o) =~= seq![1u8] + (a + (b + (c + d))));
            assert(buf.subrange(pos, pos + enc_opt_uv(o).len()) == seq![1u8] + (a + (b + (c
                + d))));
            lemma_subrange_split(buf, pos, seq![1u8], a + (b + (c + d)));
            assert(buf.subrange(pos, pos + 1)[0] == buf[pos]);
            let p0 = pos + 1;
            lemma_subrange_split(buf, p0, a, b + (c + d));
            let p1 = p0 + 8;
            lemma_subrange_split(buf, p1, b, c + d);
            let p2 = p1 + 8;
            lemma_subrange_split(buf, p2, c, d);
            let p3 = p2 + 8;
            lemma_dec_enc_u64(buf, p0, uv.0 as u64);
            lemma_dec_enc_u64(buf, p1, uv.1 as u64);
            lemma_dec_enc_u64(buf, p2, uv.2 as u64);
            lemma_dec_enc_u64(buf, p3, uv.3 as u64);
        },
    }
}

// --------------------------------------------------------------- exec layer

/// Serialize asset metadata into its wire form.
pub fn encode_meta(m: &AssetMeta) -> (r: Vec<u8>)
    ensures
        r@ == enc_meta(m@),
{
    let mut out: Vec<u8> = Vec::new();
    match m {
        AssetMeta::NoTransform => {
            write_u8(&mut out, 0);
            proof {
                assert(out@ =~= enc_meta(m@));
            }
        },
        AssetMeta::TextureMeta(t) => {
            write_u8(&mut out, 1);
            match t.resolution_multiplier {
                Option::None => write_u8(&mut out, 0),
                Option::Some(v) => {
                    write_u8(&mut out, 1);
                    write_u64(&mut out, v as u64);
                },
            }
            match t.include_alpha {
                Option::None => write_u8(&mut out, 0),
                Option::Some(bv) => {
                    write_u8(&mut out, 1);
                    write_u8(
                        &mut out,
                        if bv {
                            1
                        } else {
                            0
                        },
                    );
                },
            }
            match t.uv {
                Option::None => write_u8(&mut out, 0),
                Option::Some(uv) => {
                    write_u8(&mut out, 1);
                    write_u64(&mut out, uv.0 as u64);
                    write_u64(&mut out, uv.1 as u64);
                    write_u64(&mut out, uv.2 as u64);
                    write_u64(&mut out, uv.3 as u64);
                },
            }
            write_str(&mut out, &t.target);
            proof {
                assert(out@ =~= enc_meta(m@));
            }
        },
    }
    out
}

fn read_uv_part(buf: &Vec<u8>, pos: usize) -> (r: Option<(u32, usize)>)
    ensures
        match r {
            Some((v, p)) => dec_uv_part(buf@, pos as int) == Some((v, p as int)),
            None => dec_uv_part(buf@, pos as int) is None,
        },
{
    match read_u64(buf, pos) {
        Option::None => None,
        Option::Some((v, p)) => {
            if v <= u32::MAX as u64 {
                Some((v as u32, p))
            } else {
                None
            }
        },
    }
}

/// Parse a metadata record from its wire form; `dec_meta` pins the result.
pub fn parse_meta(buf: &Vec<u8>) -> (r: Option<AssetMeta>)
    ensures
        match r {
            Some(m) => dec_meta(buf@) == Some(m@),
            None => dec_meta(buf@) is None,
        },
{
    let (tag, p0) = match read_u8(buf, 0) {
        Option::Some(x) => x,
        Option::None => {
            return None;
        },
    };
    if tag == 0 {
        if p0 == buf.len() {
            return Some(AssetMeta::NoTransform);
        }
        return None;
    }
    if tag != 1 {
        return None;
    }
    let (rmtag, p1a) = match read_u8(buf, p0) {
        Option::Some(x) => x,
        Option::None => {
            return None;
        },
    };
    let (resolution_multiplier, p1) = if rmtag == 0 {
        (Option::None, p1a)
    } else if rmtag == 1 {
        match read_u64(buf, p1a) {
            Option::Some((v, q)) => {
                if v <= u32::MAX as u64 {
                    (Option::Some(v as u32), q)
                } else {
                    return None;
                }
            },
            Option::None => {
                return None;
            },
        }
    } else {
        return None;
    };
    let (iatag, p2a) = match read_u8(buf, p1) {
        Option::Some(x) => x,
        Option::None => {
            return None;
        },
    };
    let (include_alpha, p2) = if iatag == 0 {
        (Option::None, p2a)
    } else if iatag == 1 {
        match read_u8(buf, p2a) {
            Option::Some((bv, q)) => {
                if bv == 0 {
                    (Option::Some(false), q)
                } else if bv == 1 {
                    (Option::Some(true), q)
                } else {
                    return None;
                }
            },
            Option::None => {
                return None;
            },
        }
    } else {
        return None;
    };
    let (uvtag, p3a) = match read_u8(buf, p2) {
        Option::Some(x) => x,
        Option::None => {
            return None;
        },
    };
    let (uv, p3) = if uvtag == 0 {
        (Option::None, p3a)
    } else if uvtag == 1 {
        let (a, q1) = match read_uv_part(buf, p3a) {
            Option::Some(x) => x,
            Option::None => {
                return None;
            },
        };
        let (b, q2) = match read_uv_part(buf, q1) {
            Option::Some(x) => x,
            Option::None => {
                return None;
            },
        };
        let (c, q3) = match read_uv_part(buf, q2) {
            Option::Some(x) => x,
            Option::None => {
                return None;
            },
        };
        let (d, q4) = match read_uv_part(buf, q3) {
            Option::Some(x) => x,
            Option::None => {
                return None;
            },
        };
        (Option::Some((a, b, c, d)), q4)
    } else {
        return None;
    };
    let (target, p4) = match read_str(buf, p3) {
        Option::Some(x) => x,
        Option::None => {
            return None;
        },
    };
    if p4 != buf.len() {
        return None;
    }
    Some(
        AssetMeta::TextureMeta(
            TextureMetadata { resolution_multiplier, include_alpha, uv, target },
        ),
    )
}

} // verus!
