//! Typed runtime assets: what a shard file becomes once parsed, and the
//! dispatch from a file's type tag to its typed form.

use vstd::prelude::*;
use crate::asset_meta::{
    AssetMeta, AssetMetaV, dec_meta, spec_format, spec_uv, parse_meta,
};
use crate::manager::AssetError;
use crate::shard::{ShardFile, ShardFileType, ShardFileV};
use crate::trusted::{decode_image, image_decodes};

verus! {

/// The pixel layout a texture transform produces.
#[derive(Debug, Clone, Copy, PartialEq, Eq, Structural)]
pub enum TextureFormat {
    RGBA8,
    RGBA16,
    RGBA32,
    RGB8,
    RGB16,
    RGB32,
}

/// A decoded texture: its name and its decoded image, kept opaque until the
/// rendering backend takes it over.
pub struct TextureAsset {
    name: String,
    image: image::DynamicImage,
}

impl TextureAsset {
    /// Decode an encoded image into a texture asset: succeeds exactly on
    /// bytes the image decoder accepts, and fails on malformed bytes.
    pub fn from_bytes(bytes: &Vec<u8>, name: &str) -> (r: Result<TextureAsset, AssetError>)
        ensures
            r is Ok <==> image_decodes(bytes@),
            r matches Ok(t) ==> t.spec_name() == name@,
    {
        match decode_image(bytes.as_slice()) {
            Option::Some(image) => Ok(TextureAsset { name: name.to_owned(), image }),
            Option::None => Err(AssetError::new("could not decode texture bytes")),
        }
    }

    /// The texture's name.
    pub closed spec fn spec_name(&self) -> Seq<char> {
        self.name@
    }

    /// The texture's name.
    pub fn get_name(&self) -> (r: &str)
        ensures
            r@ == self.spec_name(),
    {
        self.name.as_str()
    }

    /// The decoded image, for the rendering backend.
    pub fn get_image(&self) -> &image::DynamicImage {
        &self.image
    }
}

/// A parsed metadata asset: the name of its companion payload file, the UV
/// rectangle (in thousandths) and the texture format.
pub struct TextureMeta {
    target: String,
    uv: (u32, u32, u32, u32),
    format: TextureFormat,
}

/// Mathematical model of a metadata asset.
pub struct TextureMetaView {
    pub target: Seq<char>,
    pub uv: (u32, u32, u32, u32),
    pub format: TextureFormat,
}

impl View for TextureMeta {
    type V = TextureMetaView;

    closed spec fn view(&self) -> TextureMetaView {
        TextureMetaView { target: self.target@, uv: self.uv, format: self.format }
    }
}

impl TextureMeta {
    /// A metadata asset pointing at `target`.
    pub fn new(target: &str, uv: (u32, u32, u32, u32), format: TextureFormat) -> (r: TextureMeta)
        ensures
            r@ == (TextureMetaView { target: target@, uv, format }),
    {
        TextureMeta { target: target.to_owned(), uv, format }
    }

    /// The companion payload file's name.
    pub fn get_target(&self) -> (r: &str)
        ensures
            r@ == self@.target,
    {
        self.target.as_str()
    }

    /// The UV rectangle, in thousandths.
    pub fn get_uv(&self) -> (r: (u32, u32, u32, u32))
        ensures
            r == self@.uv,
    {
        self.uv
    }

    /// The texture format of the companion payload.
    pub fn get_format(&self) -> (r: TextureFormat)
        ensures
            r == self@.format,
    {
        self.format
    }
}

/// A typed runtime asset. `NoData` is the placeholder a reference carries
/// before any shard has published a value under its name.
pub enum Asset {
    NoData,
    Texture(TextureAsset),
    TextureMeta(TextureMeta),
}

/// Mathematical model of a runtime asset; a texture's pixels stay opaque.
pub enum AssetV {
    NoData,
    Texture { name: Seq<char> },
    TextureMeta { target: Seq<char>, uv: (u32, u32, u32, u32), format: TextureFormat },
}

impl View for Asset {
    type V = AssetV;

    open spec fn view(&self) -> AssetV {
        match self {
            Asset::NoData => AssetV::NoData,
            Asset::Texture(t) => AssetV::Texture { name: t.spec_name() },
            Asset::TextureMeta(m) => AssetV::TextureMeta {
                target: m@.target,
                uv: m@.uv,
                format: m@.format,
            },
        }
    }
}

/// What parsing a metadata payload must yield: the metadata asset whose
/// fields the decoded record dictates, an error on a pass-through record
/// (those never belong inside a shard) and on undecodable bytes.
pub open spec fn spec_parse_meta_file(data: Seq<u8>) -> Option<AssetV> {
    match dec_meta(data) {
        Option::Some(AssetMetaV::TextureMeta(t)) => Some(
            AssetV::TextureMeta { target: t.target, uv: spec_uv(t), format: spec_format(t) },
        ),
        _ => None,
    }
}

/// What parsing one shard file must yield: a texture asset when the decoder
/// accepts the bytes, a metadata asset per the metadata wire format; `None`
/// is a parse failure.
pub open spec fn spec_parse_file(f: ShardFileV) -> Option<AssetV> {
    match f.file_type {
        ShardFileType::Texture => if image_decodes(f.data) {
            Some(AssetV::Texture { name: f.name })
        } else {
            None
        },
        ShardFileType::FileMeta => spec_parse_meta_file(f.data),
    }
}

/// Parse one shard file into its typed runtime asset: texture bytes are
/// decoded into an image, metadata bytes into a metadata asset; the result is
/// exactly what `spec_parse_file` names for the file.
pub fn parse(file: &ShardFile) -> (r: Result<Asset, AssetError>)
    ensures
        match spec_parse_file(file@) {
            Option::Some(av) => r matches Ok(a) && a@ == av,
            Option::None => r is Err,
        },
{
    match file.file_type {
        ShardFileType::Texture => {
            match TextureAsset::from_bytes(&file.data, file.name.as_str()) {
                Result::Ok(t) => Ok(Asset::Texture(t)),
                Result::Err(e) => Err(e),
            }
        },
        ShardFileType::FileMeta => {
            match parse_meta(&file.data) {
                Option::Some(AssetMeta::TextureMeta(t)) => {
                    let uv = t.get_uv();
                    let format = t.get_format();
                    Ok(Asset::TextureMeta(TextureMeta::new(t.get_target(), uv, format)))
                },
                Option::Some(AssetMeta::NoTransform) => Err(
                    AssetError::new("pass-through metadata does not belong inside a shard"),
                ),
                Option::None => Err(AssetError::new("malformed metadata payload")),
            }
        },
    }
}

/// Decode raw texture bytes into a texture asset value: succeeds exactly on
/// bytes the image decoder accepts.
pub fn texture_from_bytes(bytes: &Vec<u8>, name: &str) -> (r: Result<Asset, AssetError>)
    ensures
        r is Ok <==> image_decodes(bytes@),
        r matches Ok(a) ==> a@ == (AssetV::Texture { name: name@ }),
{
    match TextureAsset::from_bytes(bytes, name) {
        Result::Ok(t) => Ok(Asset::Texture(t)),
        Result::Err(e) => Err(e),
    }
}

} // verus!
