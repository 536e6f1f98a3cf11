//! The shard artifact: a named bundle of processed asset files, serialized
//! into a compact binary body and compressed into its on-disk form.
//!
//! `encode` pins the compressed output to `zstd_frame(enc_shard_body(..))`;
//! `decode` returns the encoded shard whenever its input is such a frame, so
//! the pair round-trips field for field (see `lemma_dec_enc_shard_body`).

use vstd::prelude::*;
use crate::codec::{
    enc_str, enc_u8, enc_u64, enc_bytes, dec_str, dec_u8, dec_u64, dec_bytes, fits_u64,
    lemma_subrange_split, lemma_dec_enc_str, lemma_dec_enc_u64, lemma_dec_enc_bytes,
    write_str, write_u8, write_u64, write_bytes, read_str, read_u8, read_u64, read_bytes,
};
use crate::manager::AssetError;
use crate::strutil::{str_eq, string_eq};
use crate::trusted::{zstd_frame, zstd_compress, zstd_decompress};
use vstd::utf8::encode_utf8;

verus! {

/// How a shard file's bytes are to be parsed at runtime.
#[derive(Debug, Clone, Copy, PartialEq, Eq, Structural)]
pub enum ShardFileType {
    Texture,
    FileMeta,
}

/// One processed asset inside a shard.
pub struct ShardFile {
    pub name: String,
    pub data: Vec<u8>,
    pub file_type: ShardFileType,
}

/// Mathematical model of a shard file.
pub struct ShardFileV {
    pub name: Seq<char>,
    pub data: Seq<u8>,
    pub file_type: ShardFileType,
}

impl View for ShardFile {
    type V = ShardFileV;

    open spec fn view(&self) -> ShardFileV {
        ShardFileV { name: self.name@, data: self.data@, file_type: self.file_type }
    }
}

/// A named bundle of asset files, keyed by asset name.
pub struct Shard {
    name: String,
    assets: Vec<ShardFile>,
}

/// Mathematical model of a shard.
pub struct ShardV {
    pub name: Seq<char>,
    pub assets: Seq<ShardFileV>,
}

impl View for Shard {
    type V = ShardV;

    closed spec fn view(&self) -> ShardV {
        ShardV { name: self.name@, assets: self.assets@.map_values(|f: ShardFile| f@) }
    }
}

/// The first file carrying `name`, if any: the value the asset map associates
/// with that name.
pub open spec fn spec_get(assets: Seq<ShardFileV>, name: Seq<char>) -> Option<ShardFileV>
    decreases assets.len(),
{
    if assets.len() == 0 {
        None
    } else if assets[0].name == name {
        Some(assets[0])
    } else {
        spec_get(assets.drop_first(), name)
    }
}

/// Asset names are unique within a shard, as in a map.
pub open spec fn unique_names(assets: Seq<ShardFileV>) -> bool {
    forall|i: int, j: int|
        0 <= i < j < assets.len() ==> (#[trigger] assets[i]).name != (#[trigger] assets[j]).name
}

proof fn lemma_spec_get_skip(assets: Seq<ShardFileV>, name: Seq<char>, i: int)
    requires
        0 <= i < assets.len(),
    ensures
        spec_get(assets.skip(i), name) == (if assets[i].name == name {
            Some(assets[i])
        } else {
            spec_get(assets.skip(i + 1), name)
        }),
{
    assert(assets.skip(i)[0] == assets[i]);
    assert(assets.skip(i).drop_first() =~= assets.skip(i + 1));
}

// --------------------------------------------------------------- wire format

/// Wire tag of a file type.
pub open spec fn file_type_tag(t: ShardFileType) -> u8 {
    match t {
        ShardFileType::Texture => 0,
        ShardFileType::FileMeta => 1,
    }
}

/// Wire form of one shard file: name, type tag, then the payload bytes.
pub open spec fn enc_file(f: ShardFileV) -> Seq<u8> {
    enc_str(f.name) + enc_u8(file_type_tag(f.file_type)) + enc_bytes(f.data)
}

/// Wire form of consecutive shard files.
pub open spec fn enc_file_elems(v: Seq<ShardFileV>) -> Seq<u8>
    decreases v.len(),
{
    if v.len() == 0 {
        Seq::empty()
    } else {
        enc_file(v[0]) + enc_file_elems(v.drop_first())
    }
}

/// Wire form of a whole shard body (before compression): shard name, file
/// count, then each file.
pub open spec fn enc_shard_body(s: ShardV) -> Seq<u8> {
    enc_str(s.name) + enc_u64(s.assets.len() as u64) + enc_file_elems(s.assets)
}

/// Decode one shard file at `pos`.
pub open spec fn dec_file(buf: Seq<u8>, pos: int) -> Option<(ShardFileV, int)> {
    match dec_str(buf, pos) {
        Option::None => None,
        Option::Some((name, p1)) => match dec_u8(buf, p1) {
            Option::None => None,
            Option::Some((tag, p2)) => {
                if tag == 0 || tag == 1 {
                    match dec_bytes(buf, p2) {
                        Option::None => None,
                        Option::Some((data, p3)) => Some(
                            (
                                ShardFileV {
                                    name,
                                    data,
                                    file_type: if tag == 0 {
                                        ShardFileType::Texture
                                    } else {
                                        ShardFileType::FileMeta
                                    },
                                },
                                p3,
                            ),
                        ),
                    }
                } else {
                    None
                }
            },
        },
    }
}

/// Decode `n` consecutive shard files at `pos`.
pub open spec fn dec_file_elems(buf: Seq<u8>, pos: int, n: nat) -> Option<(Seq<ShardFileV>, int)>
    decreases n,
{
    if n == 0 {
        Some((Seq::empty(), pos))
    } else {
        match dec_file(buf, pos) {
            Option::None => None,
            Option::Some((f, p)) => match dec_file_elems(buf, p, (n - 1) as nat) {
                Option::None => None,
                Option::Some((rest, q)) => Some((seq![f] + rest, q)),
            },
        }
    }
}

/// Decode a whole shard body; the body must be consumed exactly.
pub open spec fn dec_shard_body(buf: Seq<u8>) -> Option<ShardV> {
    match dec_str(buf, 0) {
        Option::None => None,
        Option::Some((name, p1)) => match dec_u64(buf, p1) {
            Option::None => None,
            Option::Some((n, p2)) => match dec_file_elems(buf, p2, n as nat) {
                Option::None => None,
                Option::Some((assets, q)) => {
                    if q == buf.len() {
                        Some(ShardV { name, assets })
                    } else {
                        None
                    }
                },
            },
        },
    }
}

/// The shard's lengths all fit the wire's 64-bit length fields.
pub open spec fn shard_fits(s: ShardV) -> bool {
    &&& fits_u64(encode_utf8(s.name).len())
    &&& fits_u64(s.assets.len())
    &&& forall|i: int|
        0 <= i < s.assets.len() ==> fits_u64(
            encode_utf8((#[trigger] s.assets[i]).name).len(),
        ) && fits_u64(s.assets[i].data.len())
}

pub proof fn lemma_dec_enc_file(buf: Seq<u8>, pos: int, f: ShardFileV)
    requires
        0 <= pos,
        fits_u64(encode_utf8(f.name).len()),
        fits_u64(f.data.len()),
        pos + enc_file(f).len() <= buf.len(),
        buf.subrange(pos, pos + enc_file(f).len()) == enc_file(f),
    ensures
        dec_file(buf, pos) == Some((f, pos + enc_file(f).len())),
{
    let a = enc_str(f.name);
    let b = enc_u8(file_type_tag(f.file_type));
    let c = enc_bytes(f.data);
    assert(enc_file(f) =~= a + (b + c));
    lemma_subrange_split(buf, pos, a, b + c);
    lemma_subrange_split(buf, pos + a.len(), b, c);
    lemma_dec_enc_str(buf, pos, f.name);
    let p1 = pos + a.len();
    assert(buf[p1] == b[0]);
    lemma_dec_enc_bytes(buf, p1 + 1, f.data);
}

pub proof fn lemma_dec_enc_file_elems(buf: Seq<u8>, pos: int, v: Seq<ShardFileV>)
    requires
        0 <= pos,
        forall|i: int|
            0 <= i < v.len() ==> fits_u64(encode_utf8((#[trigger] v[i]).name).len()) && fits_u64(
                v[i].data.len(),
            ),
        pos + enc_file_elems(v).len() <= buf.len(),
        buf.subrange(pos, pos + enc_file_elems(v).len()) == enc_file_elems(v),
    ensures
        dec_file_elems(buf, pos, v.len()) == Some((v, pos + enc_file_elems(v).len())),
    decreases v.len(),
{
    if v.len() == 0 {
        assert(v =~= Seq::<ShardFileV>::empty());
    } else {
        let head = enc_file(v[0]);
        let tail = enc_file_elems(v.drop_first());
        lemma_subrange_split(buf, pos, head, tail);
        lemma_dec_enc_file(buf, pos, v[0]);
        assert(forall|i: int|
            0 <= i < v.drop_first().len() ==> #[trigger] v.drop_first()[i] == v[i + 1]);
        lemma_dec_enc_file_elems(buf, pos + head.len(), v.drop_first());
        assert(seq![v[0]] + v.drop_first() =~= v);
    }
}

/// Serialization round trip: decoding an encoded shard body yields the shard,
/// field for field.
#[verifier::rlimit(50)]
pub proof fn lemma_dec_enc_shard_body(s: ShardV)
    requires
        shard_fits(s),
    ensures
        dec_shard_body(enc_shard_body(s)) == Some(s),
{
    vstd::bytes::lemma_auto_spec_u64_to_from_le_bytes();
    let buf = enc_shard_body(s);
    let a = enc_str(s.name);
    let b = enc_u64(s.assets.len() as u64);
    let c = enc_file_elems(s.assets);
    assert(buf =~= a + (b + c));
    assert(buf.subrange(0, buf.len() as int) =~= buf);
    lemma_subrange_split(buf, 0, a, b + c);
    lemma_subrange_split(buf, a.len() as int, b, c);
    lemma_dec_enc_str(buf, 0, s.name);
    lemma_dec_enc_u64(buf, a.len() as int, s.assets.len() as u64);
    lemma_dec_enc_file_elems(buf, a.len() + b.len() as int, s.assets);
}

// ------------------------------------------------------------ the shard type

/// The file type inferred from an asset name's extension: `.png`, `.jpg` and
/// `.jpeg` name textures, `.meta` names metadata descriptors; the comparison
/// ignores ASCII case. Stated over the name's UTF-8 bytes.
pub open spec fn lower_byte(b: u8) -> u8 {
    if 65 <= b && b <= 90 {
        (b + 32) as u8
    } else {
        b
    }
}

/// Case-insensitive (ASCII) suffix test on byte strings.
pub open spec fn ends_with_ci(s: Seq<u8>, suf: Seq<u8>) -> bool {
    s.len() >= suf.len() && forall|i: int|
        0 <= i < suf.len() ==> lower_byte(s[s.len() - suf.len() + i]) == suf[i]
}

/// Whether `name` names a texture file.
pub open spec fn is_texture_name(name: Seq<char>) -> bool {
    ||| ends_with_ci(encode_utf8(name), seq![46u8, 112u8, 110u8, 103u8])  // ".png"
    ||| ends_with_ci(encode_utf8(name), seq![46u8, 106u8, 112u8, 103u8])  // ".jpg"
    ||| ends_with_ci(
        encode_utf8(name),
        seq![46u8, 106u8, 112u8, 101u8, 103u8],
    )  // ".jpeg"

}

/// Whether `name` names a metadata descriptor file.
pub open spec fn is_meta_name(name: Seq<char>) -> bool {
    ends_with_ci(encode_utf8(name), seq![46u8, 109u8, 101u8, 116u8, 97u8])  // ".meta"

}

fn ends_with_ci_exec(s: &[u8], suf: &[u8]) -> (r: bool)
    ensures
        r == ends_with_ci(s@, suf@),
{
    if s.len() < suf.len() {
        return false;
    }
    let off = s.len() - suf.len();
    let mut i: usize = 0;
    while i < suf.len()
        invariant
            0 <= i <= suf@.len(),
            suf@.len() <= s@.len(),
            s@.len() <= usize::MAX,
            off == s@.len() - suf@.len(),
            forall|k: int| 0 <= k < i ==> lower_byte(s@[off + k]) == suf@[k],
        decreases suf@.len() - i,
    {
        let b = s[off + i];
        let lb = if 65 <= b && b <= 90 {
            b + 32
        } else {
            b
        };
        if lb != suf[i] {
            return false;
        }
        i = i + 1;
    }
    true
}

/// Infer a file's shard type tag from its name's extension. Unknown
/// extensions are a build-time fatal error and are excluded by contract.
pub fn guess_file_type(name: &str) -> (r: ShardFileType)
    requires
        is_texture_name(name@) || is_meta_name(name@),
    ensures
        r == ShardFileType::Texture <==> is_texture_name(name@),
        r == ShardFileType::FileMeta <==> (is_meta_name(name@) && !is_texture_name(name@)),
{
    let bs = name.as_bytes();
    let png: [u8; 4] = [46, 112, 110, 103];
    let jpg: [u8; 4] = [46, 106, 112, 103];
    let jpeg: [u8; 5] = [46, 106, 112, 101, 103];
    proof {
        assert(png@ =~= seq![46u8, 112u8, 110u8, 103u8]);
        assert(jpg@ =~= seq![46u8, 106u8, 112u8, 103u8]);
        assert(jpeg@ =~= seq![46u8, 106u8, 112u8, 101u8, 103u8]);
    }
    if ends_with_ci_exec(bs, png.as_slice()) || ends_with_ci_exec(bs, jpg.as_slice())
        || ends_with_ci_exec(bs, jpeg.as_slice()) {
        ShardFileType::Texture
    } else {
        ShardFileType::FileMeta
    }
}

impl Shard {
    /// An empty shard carrying `name`.
    pub fn new(name: String) -> (r: Shard)
        ensures
            r@.name == name@,
            r@.assets =~= Seq::<ShardFileV>::empty(),
            unique_names(r@.assets),
    {
        Shard { name, assets: Vec::new() }
    }

    /// The shard's content-derived name.
    pub fn get_name(&self) -> (r: &str)
        ensures
            r@ == self@.name,
    {
        self.name.as_str()
    }

    /// All files bundled in this shard.
    pub fn get_assets(&self) -> (r: &Vec<ShardFile>)
        ensures
            r@.map_values(|f: ShardFile| f@) == self@.assets,
    {
        &self.assets
    }

    /// The position of the file stored under `name`, if any.
    fn find_index(&self, name: &String) -> (r: Option<usize>)
        ensures
            match r {
                Some(i) => i < self@.assets.len() && self@.assets[i as int].name == name@ && forall|
                    k: int,
                |
                    0 <= k < i ==> (#[trigger] self@.assets[k]).name != name@,
                None => forall|k: int|
                    0 <= k < self@.assets.len() ==> (#[trigger] self@.assets[k]).name != name@,
            },
    {
        let n = self.assets.len();
        let mut i: usize = 0;
        while i < n
            invariant
                n == self@.assets.len(),
                0 <= i <= n,
                forall|k: int| 0 <= k < i ==> (#[trigger] self@.assets[k]).name != name@,
            decreases n - i,
        {
            if string_eq(&self.assets[i].name, name) {
                return Some(i);
            }
            i = i + 1;
        }
        None
    }

    /// Insert a file under `name`, replacing any file already stored under it,
    /// as a map insert would.
    pub fn add_file(&mut self, name: String, data: Vec<u8>, file_type: ShardFileType)
        requires
            unique_names(old(self)@.assets),
        ensures
            unique_names(final(self)@.assets),
            final(self)@.name == old(self)@.name,
            spec_get(final(self)@.assets, name@) == Some(
                ShardFileV { name: name@, data: data@, file_type },
            ),
            forall|other: Seq<char>|
                other != name@ ==> spec_get(final(self)@.assets, other) == spec_get(
                    old(self)@.assets,
                    other,
                ),
    {
        let idx = self.find_index(&name);
        let f = ShardFile { name, data, file_type };
        let ghost fv = f@;
        let ghost pre = self@.assets;
        match idx {
            Option::Some(i) => {
                self.assets.set(i, f);
                proof {
                    assert(self@.assets =~= pre.update(i as int, fv));
                    lemma_update_semantics(pre, i as int, fv);
                }
            },
            Option::None => {
                self.assets.push(f);
                proof {
                    assert(self@.assets =~= pre.push(fv));
                    lemma_push_semantics(pre, fv);
                }
            },
        }
    }

    /// Look an asset up by name.
    pub fn get_file(&self, name: &str) -> (r: Option<&ShardFile>)
        ensures
            match r {
                Some(f) => spec_get(self@.assets, name@) == Some(f@),
                None => spec_get(self@.assets, name@) is None,
            },
    {
        let n = self.assets.len();
        let mut i: usize = 0;
        proof {
            assert(self@.assets.skip(0) =~= self@.assets);
        }
        while i < n
            invariant
                n == self.assets@.len(),
                0 <= i <= n,
                spec_get(self@.assets, name@) == spec_get(self@.assets.skip(i as int), name@),
        decreases n - i,
        {
            proof {
                lemma_spec_get_skip(self@.assets, name@, i as int);
            }
            if str_eq(self.assets[i].name.as_str(), name) {
                return Some(&self.assets[i]);
            }
            i = i + 1;
        }
        proof {
            assert(self@.assets.skip(n as int) =~= Seq::<ShardFileV>::empty());
        }
        None
    }

    /// Serialize and compress this shard. Release builds use the high
    /// compression level with long-distance matching; debug builds the
    /// fastest level. Encoding is total: it succeeds on every shard.
    pub fn encode(&self, release: bool) -> (r: Vec<u8>)
        ensures
            r@ == zstd_frame(enc_shard_body(self@), compression_level(release) as int, release),
    {
        let mut body: Vec<u8> = Vec::new();
        write_str(&mut body, &self.name);
        write_u64(&mut body, self.assets.len() as u64);
        let n = self.assets.len();
        let mut i: usize = 0;
        while i < n
            invariant
                n == self.assets@.len(),
                0 <= i <= n,
                body@ == enc_str(self@.name) + enc_u64(self@.assets.len() as u64)
                    + enc_file_elems(self@.assets.take(i as int)),
            decreases n - i,
        {
            let ghost before = self@.assets.take(i as int);
            let f = &self.assets[i];
            write_str(&mut body, &f.name);
            let tag: u8 = match f.file_type {
                ShardFileType::Texture => 0,
                ShardFileType::FileMeta => 1,
            };
            write_u8(&mut body, tag);
            write_bytes(&mut body, &f.data);
            proof {
                lemma_enc_file_elems_push(before, self@.assets[i as int]);
                assert(self@.assets.take(i + 1) =~= before.push(self@.assets[i as int]));
                assert(body@ =~= enc_str(self@.name) + enc_u64(self@.assets.len() as u64)
                    + enc_file_elems(self@.assets.take(i + 1)));
            }
            i = i + 1;
        }
        proof {
            assert(self@.assets.take(n as int) =~= self@.assets);
            assert(body@ =~= enc_shard_body(self@));
        }
        let level: i32 = if release {
            20
        } else {
            0
        };
        zstd_compress(body.as_slice(), level, release)
    }

    /// Decompress and deserialize a shard: exactly the value `spec_decode`
    /// names for the input bytes, an error where it names none. In
    /// particular, whenever the input is the encoding of some shard, that
    /// shard is returned.
    pub fn decode(bytes: &Vec<u8>) -> (r: Result<Shard, AssetError>)
        ensures
            match spec_decode(bytes@) {
                Option::Some(sv) => r matches Ok(s) && s@ == sv,
                Option::None => r is Err,
            },
            forall|sv: ShardV, level: int, lm: bool|
                (shard_fits(sv) && bytes@ == #[trigger] zstd_frame(enc_shard_body(sv), level, lm))
                    ==> (r matches Ok(s) && s@ == sv),
    {
        let decompressed = match zstd_decompress(bytes.as_slice()) {
            Option::Some(d) => d,
            Option::None => {
                return Err(AssetError::new("shard decompression failed"));
            },
        };
        let r = match parse_shard_body(&decompressed) {
            Option::Some(s) => Ok(s),
            Option::None => Err(AssetError::new("malformed shard container")),
        };
        proof {
            assert forall|sv: ShardV, level: int, lm: bool|
                shard_fits(sv) && bytes@ == #[trigger] zstd_frame(
                    enc_shard_body(sv),
                    level,
                    lm,
                ) implies (r matches Ok(s) && s@ == sv) by {
                lemma_dec_enc_shard_body(sv);
            }
        }
        r
    }
}

/// What decoding yields for the given compressed bytes: decompress, then
/// deserialize the body, consuming it exactly.
pub open spec fn spec_decode(bytes: Seq<u8>) -> Option<ShardV> {
    match crate::trusted::zstd_inflate(bytes) {
        Option::Some(d) => dec_shard_body(d),
        Option::None => None,
    }
}

/// The zstd compression level selected for a build mode.
pub open spec fn compression_level(release: bool) -> int {
    if release {
        20
    } else {
        0
    }
}

proof fn lemma_update_semantics(assets: Seq<ShardFileV>, i: int, f: ShardFileV)
    requires
        unique_names(assets),
        0 <= i < assets.len(),
        assets[i].name == f.name,
        forall|k: int| 0 <= k < i ==> (#[trigger] assets[k]).name != f.name,
    ensures
        unique_names(assets.update(i, f)),
        spec_get(assets.update(i, f), f.name) == Some(f),
        forall|other: Seq<char>|
            other != f.name ==> spec_get(assets.update(i, f), other) == spec_get(assets, other),
{
    let upd = assets.update(i, f);
    assert(unique_names(upd));
    lemma_spec_get_update(assets, i, f, f.name);
    assert forall|other: Seq<char>| other != f.name implies spec_get(upd, other) == spec_get(
        assets,
        other,
    ) by {
        lemma_spec_get_update(assets, i, f, other);
    }
}

proof fn lemma_spec_get_update(assets: Seq<ShardFileV>, i: int, f: ShardFileV, name: Seq<char>)
    requires
        0 <= i < assets.len(),
        assets[i].name == f.name,
        forall|k: int| 0 <= k < i ==> (#[trigger] assets[k]).name != f.name,
    ensures
        spec_get(assets.update(i, f), name) == (if name == f.name {
            Some(f)
        } else {
            spec_get(assets, name)
        }),
    decreases assets.len(),
{
    let upd = assets.update(i, f);
    if i == 0 {
        assert(upd[0] == f);
        if name == f.name {
        } else {
            assert(upd.drop_first() =~= assets.drop_first());
        }
    } else {
        assert(upd[0] == assets[0]);
        assert(upd.drop_first() =~= assets.drop_first().update(i - 1, f));
        assert(forall|k: int|
            0 <= k < i - 1 ==> (#[trigger] assets.drop_first()[k]).name != f.name);
        lemma_spec_get_update(assets.drop_first(), i - 1, f, name);
        assert(assets[0].name != f.name);
    }
}

proof fn lemma_push_semantics(assets: Seq<ShardFileV>, f: ShardFileV)
    requires
        unique_names(assets),
        forall|k: int| 0 <= k < assets.len() ==> (#[trigger] assets[k]).name != f.name,
    ensures
        unique_names(assets.push(f)),
        spec_get(assets.push(f), f.name) == Some(f),
        forall|other: Seq<char>|
            other != f.name ==> spec_get(assets.push(f), other) == spec_get(assets, other),
{
    let p = assets.push(f);
    assert forall|i: int, j: int| 0 <= i < j < p.len() implies (#[trigger] p[i]).name
        != (#[trigger] p[j]).name by {
        if j < assets.len() {
        } else {
            assert(p[j] == f);
            assert(p[i] == assets[i]);
        }
    }
    lemma_spec_get_push(assets, f, f.name);
    assert forall|other: Seq<char>| other != f.name implies spec_get(p, other) == spec_get(
        assets,
        other,
    ) by {
        lemma_spec_get_push(assets, f, other);
    }
}

proof fn lemma_spec_get_push(assets: Seq<ShardFileV>, f: ShardFileV, name: Seq<char>)
    requires
        forall|k: int| 0 <= k < assets.len() ==> (#[trigger] assets[k]).name != f.name,
    ensures
        spec_get(assets.push(f), name) == (if name == f.name {
            Some(f)
        } else {
            spec_get(assets, name)
        }),
    decreases assets.len(),
{
    let p = assets.push(f);
    if assets.len() == 0 {
        assert(p[0] == f);
        assert(p.drop_first() =~= Seq::<ShardFileV>::empty());
    } else {
        assert(p[0] == assets[0]);
        assert(p.drop_first() =~= assets.drop_first().push(f));
        assert(forall|k: int|
            0 <= k < assets.drop_first().len() ==> (#[trigger] assets.drop_first()[k]).name
                != f.name);
        lemma_spec_get_push(assets.drop_first(), f, name);
        if assets[0].name == name {
            assert(spec_get(p, name) == Some(assets[0]));
            assert(spec_get(assets, name) == Some(assets[0]));
        } else {
            assert(spec_get(p, name) == spec_get(p.drop_first(), name));
            assert(spec_get(assets, name) == spec_get(assets.drop_first(), name));
        }
    }
}

proof fn lemma_enc_file_elems_push(v: Seq<ShardFileV>, f: ShardFileV)
    ensures
        enc_file_elems(v.push(f)) == enc_file_elems(v) + enc_file(f),
    decreases v.len(),
{
    if v.len() == 0 {
        assert(v.push(f).drop_first() =~= v);
        assert(v.push(f)[0] == f);
        assert(enc_file_elems(v) =~= Seq::<u8>::empty());
        assert(enc_file_elems(v.push(f)) == enc_file(f) + enc_file_elems(v));
        assert(enc_file(f) + Seq::<u8>::empty() =~= enc_file(f));
        assert(enc_file_elems(v) + enc_file(f) =~= enc_file(f));
    } else {
        assert(v.push(f).drop_first() =~= v.drop_first().push(f));
        assert(v.push(f)[0] == v[0]);
        lemma_enc_file_elems_push(v.drop_first(), f);
        assert(enc_file_elems(v.push(f)) =~= enc_file_elems(v) + enc_file(f));
    }
}

/// Parse a serialized shard body; the exact inverse of `enc_shard_body` on
/// encoded inputs (`dec_shard_body` pins the result).
fn parse_shard_body(buf: &Vec<u8>) -> (r: Option<Shard>)
    ensures
        match r {
            Some(s) => dec_shard_body(buf@) == Some(s@),
            None => dec_shard_body(buf@) is None,
        },
{
    let (name, p1) = match read_str(buf, 0) {
        Option::Some(x) => x,
        Option::None => {
            return None;
        },
    };
    let (n, p2) = match read_u64(buf, p1) {
        Option::Some(x) => x,
        Option::None => {
            return None;
        },
    };
    let mut assets: Vec<ShardFile> = Vec::new();
    let mut p = p2;
    let mut i: u64 = 0;
    loop
        invariant
            0 <= i <= n,
            assets@.len() == i,
            dec_str(buf@, 0) == Some((name@, p1 as int)),
            dec_u64(buf@, p1 as int) == Some((n, p2 as int)),
            dec_file_elems(buf@, p2 as int, n as nat) == (match dec_file_elems(
                buf@,
                p as int,
                (n - i) as nat,
            ) {
                Option::None => None::<(Seq<ShardFileV>, int)>,
                Option::Some((rest, q)) => Some(
                    (assets@.map_values(|f: ShardFile| f@) + rest, q),
                ),
            }),
            p <= buf@.len(),
        decreases n - i,
    {
        if i == n {
            if p == buf.len() {
                proof {
                    assert(dec_file_elems(buf@, p as int, 0) == Some(
                        (Seq::<ShardFileV>::empty(), p as int),
                    ));
                    assert(assets@.map_values(|f: ShardFile| f@) + Seq::<ShardFileV>::empty()
                        =~= assets@.map_values(|f: ShardFile| f@));
                }
                return Some(Shard { name, assets });
            } else {
                proof {
                    assert(dec_file_elems(buf@, p as int, 0) == Some(
                        (Seq::<ShardFileV>::empty(), p as int),
                    ));
                }
                return None;
            }
        }
        let (f, q) = match parse_file(buf, p) {
            Option::Some(x) => x,
            Option::None => {
                proof {
                    assert(dec_file_elems(buf@, p as int, (n - i) as nat) is None);
                }
                return None;
            },
        };
        let ghost old_assets = assets@.map_values(|g: ShardFile| g@);
        let ghost rem = (n - i) as nat;
        proof {
            assert(dec_file_elems(buf@, p as int, rem) == (match dec_file_elems(
                buf@,
                q as int,
                (rem - 1) as nat,
            ) {
                Option::None => None::<(Seq<ShardFileV>, int)>,
                Option::Some((rest, q2)) => Some((seq![f@] + rest, q2)),
            }));
        }
        assets.push(f);
        p = q;
        i = i + 1;
        proof {
            assert(assets@.map_values(|g: ShardFile| g@) =~= old_assets.push(f@));
            match dec_file_elems(buf@, p as int, (n - i) as nat) {
                Option::None => {},
                Option::Some((rest, q2)) => {
                    assert(old_assets + (seq![f@] + rest) =~= assets@.map_values(
                        |g: ShardFile| g@,
                    ) + rest);
                },
            }
        }
    }
}

/// Parse one shard file record; `dec_file` pins the result.
fn parse_file(buf: &Vec<u8>, pos: usize) -> (r: Option<(ShardFile, usize)>)
    ensures
        match r {
            Some((f, p)) => dec_file(buf@, pos as int) == Some((f@, p as int)) && p <= buf@.len(),
            None => dec_file(buf@, pos as int) is None,
        },
{
    let (name, p1) = match read_str(buf, pos) {
        Option::Some(x) => x,
        Option::None => {
            return None;
        },
    };
    let (tag, p2) = match read_u8(buf, p1) {
        Option::Some(x) => x,
        Option::None => {
            return None;
        },
    };
    let file_type = if tag == 0 {
        ShardFileType::Texture
    } else if tag == 1 {
        ShardFileType::FileMeta
    } else {
        return None;
    };
    let (data, p3) = match read_bytes(buf, p2) {
        Option::Some(x) => x,
        Option::None => {
            return None;
        },
    };
    Some((ShardFile { name, data, file_type }, p3))
}

} // verus!
