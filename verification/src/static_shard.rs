//! The static shard: the single always-loaded bundle carrying the
//! scene-to-shard-names map, all script sources, all scene records and the
//! project preferences, serialized and compressed with the same container
//! discipline as ordinary shards.

use vstd::prelude::*;
use crate::codec::{
    enc_str, enc_u64, enc_bytes, enc_str_list, dec_str, dec_u64, dec_bytes, dec_str_list, fits_u64,
    strs_fit, lemma_subrange_split, lemma_dec_enc_str, lemma_dec_enc_u64, lemma_dec_enc_bytes,
    lemma_dec_enc_str_list, write_str, write_u64, write_bytes, write_str_list, read_str, read_u64,
    read_bytes, read_str_list,
};
use crate::manager::AssetError;
use crate::scene::{Scene, SceneV};
use crate::scripting::{ScriptingSource, ScriptingSourceV};
use crate::trusted::{zstd_frame, zstd_compress, zstd_decompress};
use crate::{Preferences, PreferencesV};
use vstd::utf8::encode_utf8;

verus! {

/// A named blob inside the static shard.
pub struct StaticShardFile {
    pub name: String,
    pub data: Vec<u8>,
}

/// One entry of the scene-to-required-shards map.
pub type ShardMapEntryV = (Seq<char>, Seq<Seq<char>>);

/// The static shard: scene-to-shard map, scripts, scenes and preferences.
pub struct StaticShard {
    shard_map: Vec<(String, Vec<String>)>,
    scripts: Vec<ScriptingSource>,
    scenes: Vec<Scene>,
    preferences: Preferences,
}

/// Mathematical model of a static shard.
pub struct StaticShardV {
    pub shard_map: Seq<ShardMapEntryV>,
    pub scripts: Seq<ScriptingSourceV>,
    pub scenes: Seq<SceneV>,
    pub preferences: PreferencesV,
}

/// View of a scene-to-shards map as entry models.
pub open spec fn map_entries_view(v: Seq<(String, Vec<String>)>) -> Seq<ShardMapEntryV> {
    v.map_values(|e: (String, Vec<String>)| (e.0@, e.1.deep_view()))
}

/// View of a script source list as source models.
pub open spec fn sources_view(v: Seq<ScriptingSource>) -> Seq<ScriptingSourceV> {
    v.map_values(|s: ScriptingSource| s@)
}

/// View of a scene list as scene models.
pub open spec fn scenes_view(v: Seq<Scene>) -> Seq<SceneV> {
    v.map_values(|s: Scene| s@)
}

impl View for StaticShard {
    type V = StaticShardV;

    closed spec fn view(&self) -> StaticShardV {
        StaticShardV {
            shard_map: map_entries_view(self.shard_map@),
            scripts: sources_view(self.scripts@),
            scenes: scenes_view(self.scenes@),
            preferences: self.preferences@,
        }
    }
}

/// The first scene carrying `name`, if any.
pub open spec fn spec_get_scene(scenes: Seq<SceneV>, name: Seq<char>) -> Option<SceneV>
    decreases scenes.len(),
{
    if scenes.len() == 0 {
        None
    } else if scenes[0].name == name {
        Some(scenes[0])
    } else {
        spec_get_scene(scenes.drop_first(), name)
    }
}

// --------------------------------------------------------------- wire format

/// Wire form of a 32-bit field, carried in a 64-bit slot.
pub open spec fn enc_u32(x: u32) -> Seq<u8> {
    enc_u64(x as u64)
}

/// Decode a 32-bit field at `pos`.
pub open spec fn dec_u32(buf: Seq<u8>, pos: int) -> Option<(u32, int)> {
    match dec_u64(buf, pos) {
        Option::None => None,
        Option::Some((v, p)) => {
            if v <= u32::MAX as u64 {
                Some((v as u32, p))
            } else {
                None
            }
        },
    }
}

/// Wire form of a script source: name, then text.
pub open spec fn enc_source(s: ScriptingSourceV) -> Seq<u8> {
    enc_str(s.name) + enc_str(s.source)
}

/// Decode a script source at `pos`.
pub open spec fn dec_source(buf: Seq<u8>, pos: int) -> Option<(ScriptingSourceV, int)> {
    match dec_str(buf, pos) {
        Option::None => None,
        Option::Some((name, p1)) => match dec_str(buf, p1) {
            Option::None => None,
            Option::Some((source, p2)) => Some((ScriptingSourceV { name, source }, p2)),
        },
    }
}

/// Wire form of a scene record.
pub open spec fn enc_scene(s: SceneV) -> Seq<u8> {
    enc_str(s.name) + enc_str_list(s.required_assets) + enc_str_list(s.shards) + enc_bytes(s.graph)
        + enc_u32(s.id_space)
}

/// Decode a scene record at `pos`.
pub open spec fn dec_scene(buf: Seq<u8>, pos: int) -> Option<(SceneV, int)> {
    match dec_str(buf, pos) {
        Option::None => None,
        Option::Some((name, p1)) => match dec_str_list(buf, p1) {
            Option::None => None,
            Option::Some((required_assets, p2)) => match dec_str_list(buf, p2) {
                Option::None => None,
                Option::Some((shards, p3)) => match dec_bytes(buf, p3) {
                    Option::None => None,
                    Option::Some((graph, p4)) => match dec_u32(buf, p4) {
                        Option::None => None,
                        Option::Some((id_space, p5)) => Some(
                            (SceneV { name, required_assets, shards, graph, id_space }, p5),
                        ),
                    },
                },
            },
        },
    }
}

/// Wire form of one scene-to-shards map entry: key, then the shard name list.
pub open spec fn enc_map_entry(e: ShardMapEntryV) -> Seq<u8> {
    enc_str(e.0) + enc_str_list(e.1)
}

/// Decode one map entry at `pos`.
pub open spec fn dec_map_entry(buf: Seq<u8>, pos: int) -> Option<(ShardMapEntryV, int)> {
    match dec_str(buf, pos) {
        Option::None => None,
        Option::Some((key, p1)) => match dec_str_list(buf, p1) {
            Option::None => None,
            Option::Some((names, p2)) => Some(((key, names), p2)),
        },
    }
}

/// Wire form of consecutive script sources.
pub open spec fn enc_source_elems(v: Seq<ScriptingSourceV>) -> Seq<u8>
    decreases v.len(),
{
    if v.len() == 0 {
        Seq::empty()
    } else {
        enc_source(v[0]) + enc_source_elems(v.drop_first())
    }
}

/// Wire form of consecutive scene records.
pub open spec fn enc_scene_elems(v: Seq<SceneV>) -> Seq<u8>
    decreases v.len(),
{
    if v.len() == 0 {
        Seq::empty()
    } else {
        enc_scene(v[0]) + enc_scene_elems(v.drop_first())
    }
}

/// Wire form of consecutive map entries.
pub open spec fn enc_map_elems(v: Seq<ShardMapEntryV>) -> Seq<u8>
    decreases v.len(),
{
    if v.len() == 0 {
        Seq::empty()
    } else {
        enc_map_entry(v[0]) + enc_map_elems(v.drop_first())
    }
}

/// Decode `n` consecutive script sources at `pos`.
pub open spec fn dec_source_elems(buf: Seq<u8>, pos: int, n: nat) -> Option<
    (Seq<ScriptingSourceV>, int),
>
    decreases n,
{
    if n == 0 {
        Some((Seq::empty(), pos))
    } else {
        match dec_source(buf, pos) {
            Option::None => None,
            Option::Some((s, p)) => match dec_source_elems(buf, p, (n - 1) as nat) {
                Option::None => None,
                Option::Some((rest, q)) => Some((seq![s] + rest, q)),
            },
        }
    }
}

/// Decode `n` consecutive scene records at `pos`.
pub open spec fn dec_scene_elems(buf: Seq<u8>, pos: int, n: nat) -> Option<(Seq<SceneV>, int)>
    decreases n,
{
    if n == 0 {
        Some((Seq::empty(), pos))
    } else {
        match dec_scene(buf, pos) {
            Option::None => None,
            Option::Some((s, p)) => match dec_scene_elems(buf, p, (n - 1) as nat) {
                Option::None => None,
                Option::Some((rest, q)) => Some((seq![s] + rest, q)),
            },
        }
    }
}

/// Decode `n` consecutive map entries at `pos`.
pub open spec fn dec_map_elems(buf: Seq<u8>, pos: int, n: nat) -> Option<(Seq<ShardMapEntryV>, int)>
    decreases n,
{
    if n == 0 {
        Some((Seq::empty(), pos))
    } else {
        match dec_map_entry(buf, pos) {
            Option::None => None,
            Option::Some((e, p)) => match dec_map_elems(buf, p, (n - 1) as nat) {
                Option::None => None,
                Option::Some((rest, q)) => Some((seq![e] + rest, q)),
            },
        }
    }
}

/// Wire form of a whole static shard body (before compression).
pub open spec fn enc_static_body(v: StaticShardV) -> Seq<u8> {
    enc_u64(v.shard_map.len() as u64) + enc_map_elems(v.shard_map) + enc_u64(
        v.scripts.len() as u64,
    ) + enc_source_elems(v.scripts) + enc_u64(v.scenes.len() as u64) + enc_scene_elems(v.scenes)
        + enc_str(v.preferences.default_scene)
}

/// Decode a whole static shard body; the body must be consumed exactly.
pub open spec fn dec_static_body(buf: Seq<u8>) -> Option<StaticShardV> {
    match dec_u64(buf, 0) {
        Option::None => None,
        Option::Some((nm, p0)) => match dec_map_elems(buf, p0, nm as nat) {
            Option::None => None,
            Option::Some((shard_map, p1)) => match dec_u64(buf, p1) {
                Option::None => None,
                Option::Some((ns, p2)) => match dec_source_elems(buf, p2, ns as nat) {
                    Option::None => None,
                    Option::Some((scripts, p3)) => match dec_u64(buf, p3) {
                        Option::None => None,
                        Option::Some((nc, p4)) => match dec_scene_elems(buf, p4, nc as nat) {
                            Option::None => None,
                            Option::Some((scenes, p5)) => match dec_str(buf, p5) {
                                Option::None => None,
                                Option::Some((default_scene, p6)) => {
                                    if p6 == buf.len() {
                                        Some(
                                            StaticShardV {
                                                shard_map,
                                                scripts,
                                                scenes,
                                                preferences: PreferencesV { default_scene },
                                            },
                                        )
                                    } else {
                                        None
                                    }
                                },
                            },
                        },
                    },
                },
            },
        },
    }
}

// ------------------------------------------------------------ fits predicates

/// The source's lengths fit the wire's length fields.
pub open spec fn source_fits(s: ScriptingSourceV) -> bool {
    fits_u64(encode_utf8(s.name).len()) && fits_u64(encode_utf8(s.source).len())
}

/// The scene record's lengths fit the wire's length fields.
pub open spec fn scene_fits(s: SceneV) -> bool {
    &&& fits_u64(encode_utf8(s.name).len())
    &&& fits_u64(s.required_assets.len())
    &&& strs_fit(s.required_assets)
    &&& fits_u64(s.shards.len())
    &&& strs_fit(s.shards)
    &&& fits_u64(s.graph.len())
}

/// The map entry's lengths fit the wire's length fields.
pub open spec fn entry_fits(e: ShardMapEntryV) -> bool {
    fits_u64(encode_utf8(e.0).len()) && fits_u64(e.1.len()) && strs_fit(e.1)
}

/// The static shard's lengths all fit the wire's length fields.
pub open spec fn static_fits(v: StaticShardV) -> bool {
    &&& fits_u64(v.shard_map.len())
    &&& forall|i: int| 0 <= i < v.shard_map.len() ==> entry_fits(#[trigger] v.shard_map[i])
    &&& fits_u64(v.scripts.len())
    &&& forall|i: int| 0 <= i < v.scripts.len() ==> source_fits(#[trigger] v.scripts[i])
    &&& fits_u64(v.scenes.len())
    &&& forall|i: int| 0 <= i < v.scenes.len() ==> scene_fits(#[trigger] v.scenes[i])
    &&& fits_u64(encode_utf8(v.preferences.default_scene).len())
}

// ------------------------------------------------------- decode/encode lemmas

pub proof fn lemma_dec_enc_source(buf: Seq<u8>, pos: int, s: ScriptingSourceV)
    requires
        0 <= pos,
        source_fits(s),
        pos + enc_source(s).len() <= buf.len(),
        buf.subrange(pos, pos + enc_source(s).len()) == enc_source(s),
    ensures
        dec_source(buf, pos) == Some((s, pos + enc_source(s).len())),
{
    let a = enc_str(s.name);
    let b = enc_str(s.source);
    lemma_subrange_split(buf, pos, a, b);
    lemma_dec_enc_str(buf, pos, s.name);
    lemma_dec_enc_str(buf, pos + a.len(), s.source);
}

#[verifier::rlimit(50)]
pub proof fn lemma_dec_enc_scene(buf: Seq<u8>, pos: int, s: SceneV)
    requires
        0 <= pos,
        scene_fits(s),
        pos + enc_scene(s).len() <= buf.len(),
        buf.subrange(pos, pos + enc_scene(s).len()) == enc_scene(s),
    ensures
        dec_scene(buf, pos) == Some((s, pos + enc_scene(s).len())),
{
    vstd::bytes::lemma_auto_spec_u64_to_from_le_bytes();
    let a = enc_str(s.name);
    let b = enc_str_list(s.required_assets);
    let c = enc_str_list(s.shards);
    let d = enc_bytes(s.graph);
    let e = enc_u32(s.id_space);
    assert(enc_scene(s) =~= a + (b + (c + (d + e))));
    lemma_subrange_split(buf, pos, a, b + (c + (d + e)));
    let p1 = pos + a.len();
    lemma_subrange_split(buf, p1, b, c + (d + e));
    let p2 = p1 + b.len();
    lemma_subrange_split(buf, p2, c, d + e);
    let p3 = p2 + c.len();
    lemma_subrange_split(buf, p3, d, e);
    let p4 = p3 + d.len();
    lemma_dec_enc_str(buf, pos, s.name);
    lemma_dec_enc_str_list(buf, p1, s.required_assets);
    lemma_dec_enc_str_list(buf, p2, s.shards);
    lemma_dec_enc_bytes(buf, p3, s.graph);
    lemma_dec_enc_u64(buf, p4, s.id_space as u64);
}

pub proof fn lemma_dec_enc_map_entry(buf: Seq<u8>, pos: int, e: ShardMapEntryV)
    requires
        0 <= pos,
        entry_fits(e),
        pos + enc_map_entry(e).len() <= buf.len(),
        buf.subrange(pos, pos + enc_map_entry(e).len()) == enc_map_entry(e),
    ensures
        dec_map_entry(buf, pos) == Some((e, pos + enc_map_entry(e).len())),
{
    let a = enc_str(e.0);
    let b = enc_str_list(e.1);
    lemma_subrange_split(buf, pos, a, b);
    lemma_dec_enc_str(buf, pos, e.0);
    lemma_dec_enc_str_list(buf, pos + a.len(), e.1);
}

pub proof fn lemma_dec_enc_source_elems(buf: Seq<u8>, pos: int, v: Seq<ScriptingSourceV>)
    requires
        0 <= pos,
        forall|i: int| 0 <= i < v.len() ==> source_fits(#[trigger] v[i]),
        pos + enc_source_elems(v).len() <= buf.len(),
        buf.subrange(pos, pos + enc_source_elems(v).len()) == enc_source_elems(v),
    ensures
        dec_source_elems(buf, pos, v.len()) == Some((v, pos + enc_source_elems(v).len())),
    decreases v.len(),
{
    if v.len() == 0 {
        assert(v =~= Seq::<ScriptingSourceV>::empty());
    } else {
        let head = enc_source(v[0]);
        let tail = enc_source_elems(v.drop_first());
        lemma_subrange_split(buf, pos, head, tail);
        lemma_dec_enc_source(buf, pos, v[0]);
        assert(forall|i: int|
            0 <= i < v.drop_first().len() ==> #[trigger] v.drop_first()[i] == v[i + 1]);
        lemma_dec_enc_source_elems(buf, pos + head.len(), v.drop_first());
        assert(seq![v[0]] + v.drop_first() =~= v);
    }
}

pub proof fn lemma_dec_enc_scene_elems(buf: Seq<u8>, pos: int, v: Seq<SceneV>)
    requires
        0 <= pos,
        forall|i: int| 0 <= i < v.len() ==> scene_fits(#[trigger] v[i]),
        pos + enc_scene_elems(v).len() <= buf.len(),
        buf.subrange(pos, pos + enc_scene_elems(v).len()) == enc_scene_elems(v),
    ensures
        dec_scene_elems(buf, pos, v.len()) == Some((v, pos + enc_scene_elems(v).len())),
    decreases v.len(),
{
    if v.len() == 0 {
        assert(v =~= Seq::<SceneV>::empty());
    } else {
        let head = enc_scene(v[0]);
        let tail = enc_scene_elems(v.drop_first());
        lemma_subrange_split(buf, pos, head, tail);
        lemma_dec_enc_scene(buf, pos, v[0]);
        assert(forall|i: int|
            0 <= i < v.drop_first().len() ==> #[trigger] v.drop_first()[i] == v[i + 1]);
        lemma_dec_enc_scene_elems(buf, pos + head.len(), v.drop_first());
        assert(seq![v[0]] + v.drop_first() =~= v);
    }
}

pub proof fn lemma_dec_enc_map_elems(buf: Seq<u8>, pos: int, v: Seq<ShardMapEntryV>)
    requires
        0 <= pos,
        forall|i: int| 0 <= i < v.len() ==> entry_fits(#[trigger] v[i]),
        pos + enc_map_elems(v).len() <= buf.len(),
        buf.subrange(pos, pos + enc_map_elems(v).len()) == enc_map_elems(v),
    ensures
        dec_map_elems(buf, pos, v.len()) == Some((v, pos + enc_map_elems(v).len())),
    decreases v.len(),
{
    if v.len() == 0 {
        assert(v =~= Seq::<ShardMapEntryV>::empty());
    } else {
        let head = enc_map_entry(v[0]);
        let tail = enc_map_elems(v.drop_first());
        lemma_subrange_split(buf, pos, head, tail);
        lemma_dec_enc_map_entry(buf, pos, v[0]);
        assert(forall|i: int|
            0 <= i < v.drop_first().len() ==> #[trigger] v.drop_first()[i] == v[i + 1]);
        lemma_dec_enc_map_elems(buf, pos + head.len(), v.drop_first());
        assert(seq![v[0]] + v.drop_first() =~= v);
    }
}

/// Serialization round trip: decoding an encoded static shard body yields the
/// static shard, field for field.
#[verifier::rlimit(100)]
pub proof fn lemma_dec_enc_static_body(v: StaticShardV)
    requires
        static_fits(v),
    ensures
        dec_static_body(enc_static_body(v)) == Some(v),
{
    vstd::bytes::lemma_auto_spec_u64_to_from_le_bytes();
    let buf = enc_static_body(v);
    let a = enc_u64(v.shard_map.len() as u64);
    let b = enc_map_elems(v.shard_map);
    let c = enc_u64(v.scripts.len() as u64);
    let d = enc_source_elems(v.scripts);
    let e = enc_u64(v.scenes.len() as u64);
    let f = enc_scene_elems(v.scenes);
    let g = enc_str(v.preferences.default_scene);
    assert(buf =~= a + (b + (c + (d + (e + (f + g))))));
    assert(buf.subrange(0, buf.len() as int) =~= buf);
    lemma_subrange_split(buf, 0, a, b + (c + (d + (e + (f + g)))));
    let p0 = a.len() as int;
    lemma_subrange_split(buf, p0, b, c + (d + (e + (f + g))));
    let p1 = p0 + b.len();
    lemma_subrange_split(buf, p1, c, d + (e + (f + g)));
    let p2 = p1 + c.len();
    lemma_subrange_split(buf, p2, d, e + (f + g));
    let p3 = p2 + d.len();
    lemma_subrange_split(buf, p3, e, f + g);
    let p4 = p3 + e.len();
    lemma_subrange_split(buf, p4, f, g);
    let p5 = p4 + f.len();
    lemma_dec_enc_u64(buf, 0, v.shard_map.len() as u64);
    lemma_dec_enc_map_elems(buf, p0, v.shard_map);
    lemma_dec_enc_u64(buf, p1, v.scripts.len() as u64);
    lemma_dec_enc_source_elems(buf, p2, v.scripts);
    lemma_dec_enc_u64(buf, p3, v.scenes.len() as u64);
    lemma_dec_enc_scene_elems(buf, p4, v.scenes);
    lemma_dec_enc_str(buf, p5, v.preferences.default_scene);
}

proof fn lemma_enc_map_elems_push(v: Seq<ShardMapEntryV>, e: ShardMapEntryV)
    ensures
        enc_map_elems(v.push(e)) == enc_map_elems(v) + enc_map_entry(e),
    decreases v.len(),
{
    if v.len() == 0 {
        assert(v.push(e).drop_first() =~= v);
        assert(v.push(e)[0] == e);
        assert(enc_map_elems(v) =~= Seq::<u8>::empty());
        assert(enc_map_elems(v.push(e)) == enc_map_entry(e) + enc_map_elems(v));
        assert(enc_map_entry(e) + Seq::<u8>::empty() =~= enc_map_entry(e));
        assert(enc_map_elems(v) + enc_map_entry(e) =~= enc_map_entry(e));
    } else {
        assert(v.push(e).drop_first() =~= v.drop_first().push(e));
        assert(v.push(e)[0] == v[0]);
        lemma_enc_map_elems_push(v.drop_first(), e);
        assert(enc_map_elems(v.push(e)) =~= enc_map_elems(v) + enc_map_entry(e));
    }
}

proof fn lemma_enc_source_elems_push(v: Seq<ScriptingSourceV>, s: ScriptingSourceV)
    ensures
        enc_source_elems(v.push(s)) == enc_source_elems(v) + enc_source(s),
    decreases v.len(),
{
    if v.len() == 0 {
        assert(v.push(s).drop_first() =~= v);
        assert(v.push(s)[0] == s);
        assert(enc_source_elems(v) =~= Seq::<u8>::empty());
        assert(enc_source_elems(v.push(s)) == enc_source(s) + enc_source_elems(v));
        assert(enc_source(s) + Seq::<u8>::empty() =~= enc_source(s));
        assert(enc_source_elems(v) + enc_source(s) =~= enc_source(s));
    } else {
        assert(v.push(s).drop_first() =~= v.drop_first().push(s));
        assert(v.push(s)[0] == v[0]);
        lemma_enc_source_elems_push(v.drop_first(), s);
        assert(enc_source_elems(v.push(s)) =~= enc_source_elems(v) + enc_source(s));
    }
}

proof fn lemma_enc_scene_elems_push(v: Seq<SceneV>, s: SceneV)
    ensures
        enc_scene_elems(v.push(s)) == enc_scene_elems(v) + enc_scene(s),
    decreases v.len(),
{
    if v.len() == 0 {
        assert(v.push(s).drop_first() =~= v);
        assert(v.push(s)[0] == s);
        assert(enc_scene_elems(v) =~= Seq::<u8>::empty());
        assert(enc_scene_elems(v.push(s)) == enc_scene(s) + enc_scene_elems(v));
        assert(enc_scene(s) + Seq::<u8>::empty() =~= enc_scene(s));
        assert(enc_scene_elems(v) + enc_scene(s) =~= enc_scene(s));
    } else {
        assert(v.push(s).drop_first() =~= v.drop_first().push(s));
        assert(v.push(s)[0] == v[0]);
        lemma_enc_scene_elems_push(v.drop_first(), s);
        assert(enc_scene_elems(v.push(s)) =~= enc_scene_elems(v) + enc_scene(s));
    }
}

proof fn lemma_get_scene_skip(scenes: Seq<SceneV>, name: Seq<char>, i: int)
    requires
        0 <= i < scenes.len(),
    ensures
        spec_get_scene(scenes.skip(i), name) == (if scenes[i].name == name {
            Some(scenes[i])
        } else {
            spec_get_scene(scenes.skip(i + 1), name)
        }),
{
    assert(scenes.skip(i)[0] == scenes[i]);
    assert(scenes.skip(i).drop_first() =~= scenes.skip(i + 1));
}

// --------------------------------------------------------------- exec layer

fn write_map_entry(out: &mut Vec<u8>, key: &String, names: &Vec<String>)
    ensures
        final(out)@ == old(out)@ + enc_map_entry((key@, names.deep_view())),
{
    let ghost start = out@;
    write_str(out, key);
    write_str_list(out, names);
    proof {
        assert(out@ =~= start + enc_map_entry((key@, names.deep_view())));
    }
}

fn write_source(out: &mut Vec<u8>, s: &ScriptingSource)
    ensures
        final(out)@ == old(out)@ + enc_source(s@),
{
    let ghost start = out@;
    write_str(out, &s.name);
    write_str(out, &s.source);
    proof {
        assert(out@ =~= start + enc_source(s@));
    }
}

fn write_scene(out: &mut Vec<u8>, s: &Scene)
    ensures
        final(out)@ == old(out)@ + enc_scene(s@),
{
    let ghost start = out@;
    write_str(out, &s.name);
    write_str_list(out, &s.required_assets);
    write_str_list(out, &s.shards);
    write_bytes(out, &s.graph);
    write_u64(out, s.id_space as u64);
    proof {
        assert(out@ =~= start + enc_scene(s@));
    }
}

fn parse_map_entry(buf: &Vec<u8>, pos: usize) -> (r: Option<((String, Vec<String>), usize)>)
    ensures
        match r {
            Some((e, p)) => dec_map_entry(buf@, pos as int) == Some(
                ((e.0@, e.1.deep_view()), p as int),
            ),
            None => dec_map_entry(buf@, pos as int) is None,
        },
{
    let (key, p1) = match read_str(buf, pos) {
        Option::Some(x) => x,
        Option::None => {
            return None;
        },
    };
    let (names, p2) = match read_str_list(buf, p1) {
        Option::Some(x) => x,
        Option::None => {
            return None;
        },
    };
    Some(((key, names), p2))
}

fn parse_source(buf: &Vec<u8>, pos: usize) -> (r: Option<(ScriptingSource, usize)>)
    ensures
        match r {
            Some((s, p)) => dec_source(buf@, pos as int) == Some((s@, p as int)),
            None => dec_source(buf@, pos as int) is None,
        },
{
    let (name, p1) = match read_str(buf, pos) {
        Option::Some(x) => x,
        Option::None => {
            return None;
        },
    };
    let (source, p2) = match read_str(buf, p1) {
        Option::Some(x) => x,
        Option::None => {
            return None;
        },
    };
    Some((ScriptingSource { name, source }, p2))
}

fn parse_scene(buf: &Vec<u8>, pos: usize) -> (r: Option<(Scene, usize)>)
    ensures
        match r {
            Some((s, p)) => dec_scene(buf@, pos as int) == Some((s@, p as int)),
            None => dec_scene(buf@, pos as int) is None,
        },
{
    let (name, p1) = match read_str(buf, pos) {
        Option::Some(x) => x,
        Option::None => {
            return None;
        },
    };
    let (required_assets, p2) = match read_str_list(buf, p1) {
        Option::Some(x) => x,
        Option::None => {
            return None;
        },
    };
    let (shards, p3) = match read_str_list(buf, p2) {
        Option::Some(x) => x,
        Option::None => {
            return None;
        },
    };
    let (graph, p4) = match read_bytes(buf, p3) {
        Option::Some(x) => x,
        Option::None => {
            return None;
        },
    };
    let (wide, p5) = match read_u64(buf, p4) {
        Option::Some(x) => x,
        Option::None => {
            return None;
        },
    };
    if wide > u32::MAX as u64 {
        return None;
    }
    let id_space = wide as u32;
    Some((Scene { name, required_assets, shards, graph, id_space }, p5))
}

fn parse_map_elems(buf: &Vec<u8>, pos: usize, n: u64) -> (r: Option<
    (Vec<(String, Vec<String>)>, usize),
>)
    ensures
        match r {
            Some((v, p)) => dec_map_elems(buf@, pos as int, n as nat) == Some(
                (map_entries_view(v@), p as int),
            ),
            None => dec_map_elems(buf@, pos as int, n as nat) is None,
        },
{
    let mut v: Vec<(String, Vec<String>)> = Vec::new();
    let mut p = pos;
    let mut i: u64 = 0;
    loop
        invariant
            0 <= i <= n,
            v@.len() == i,
            dec_map_elems(buf@, pos as int, n as nat) == (match dec_map_elems(
                buf@,
                p as int,
                (n - i) as nat,
            ) {
                Option::None => None::<(Seq<ShardMapEntryV>, int)>,
                Option::Some((rest, q)) => Some((map_entries_view(v@) + rest, q)),
            }),
        decreases n - i,
    {
        if i == n {
            proof {
                assert(dec_map_elems(buf@, p as int, 0) == Some(
                    (Seq::<ShardMapEntryV>::empty(), p as int),
                ));
                assert(map_entries_view(v@) + Seq::<ShardMapEntryV>::empty() =~= map_entries_view(
                    v@,
                ));
            }
            return Some((v, p));
        }
        let (e, q) = match parse_map_entry(buf, p) {
            Option::Some(x) => x,
            Option::None => {
                proof {
                    assert(dec_map_elems(buf@, p as int, (n - i) as nat) is None);
                }
                return None;
            },
        };
        let ghost old_v = map_entries_view(v@);
        let ghost ev = (e.0@, e.1.deep_view());
        let ghost rem = (n - i) as nat;
        proof {
            assert(dec_map_elems(buf@, p as int, rem) == (match dec_map_elems(
                buf@,
                q as int,
                (rem - 1) as nat,
            ) {
                Option::None => None::<(Seq<ShardMapEntryV>, int)>,
                Option::Some((rest, q2)) => Some((seq![ev] + rest, q2)),
            }));
        }
        v.push(e);
        p = q;
        i = i + 1;
        proof {
            assert(map_entries_view(v@) =~= old_v.push(ev));
            match dec_map_elems(buf@, p as int, (n - i) as nat) {
                Option::None => {},
                Option::Some((rest, q2)) => {
                    assert(old_v + (seq![ev] + rest) =~= map_entries_view(v@) + rest);
                },
            }
        }
    }
}

fn parse_source_elems(buf: &Vec<u8>, pos: usize, n: u64) -> (r: Option<
    (Vec<ScriptingSource>, usize),
>)
    ensures
        match r {
            Some((v, p)) => dec_source_elems(buf@, pos as int, n as nat) == Some(
                (sources_view(v@), p as int),
            ),
            None => dec_source_elems(buf@, pos as int, n as nat) is None,
        },
{
    let mut v: Vec<ScriptingSource> = Vec::new();
    let mut p = pos;
    let mut i: u64 = 0;
    loop
        invariant
            0 <= i <= n,
            v@.len() == i,
            dec_source_elems(buf@, pos as int, n as nat) == (match dec_source_elems(
                buf@,
                p as int,
                (n - i) as nat,
            ) {
                Option::None => None::<(Seq<ScriptingSourceV>, int)>,
                Option::Some((rest, q)) => Some((sources_view(v@) + rest, q)),
            }),
        decreases n - i,
    {
        if i == n {
            proof {
                assert(dec_source_elems(buf@, p as int, 0) == Some(
                    (Seq::<ScriptingSourceV>::empty(), p as int),
                ));
                assert(sources_view(v@) + Seq::<ScriptingSourceV>::empty() =~= sources_view(v@));
            }
            return Some((v, p));
        }
        let (s, q) = match parse_source(buf, p) {
            Option::Some(x) => x,
            Option::None => {
                proof {
                    assert(dec_source_elems(buf@, p as int, (n - i) as nat) is None);
                }
                return None;
            },
        };
        let ghost old_v = sources_view(v@);
        let ghost sv = s@;
        let ghost rem = (n - i) as nat;
        proof {
            assert(dec_source_elems(buf@, p as int, rem) == (match dec_source_elems(
                buf@,
                q as int,
                (rem - 1) as nat,
            ) {
                Option::None => None::<(Seq<ScriptingSourceV>, int)>,
                Option::Some((rest, q2)) => Some((seq![sv] + rest, q2)),
            }));
        }
        v.push(s);
        p = q;
        i = i + 1;
        proof {
            assert(sources_view(v@) =~= old_v.push(sv));
            match dec_source_elems(buf@, p as int, (n - i) as nat) {
                Option::None => {},
                Option::Some((rest, q2)) => {
                    assert(old_v + (seq![sv] + rest) =~= sources_view(v@) + rest);
                },
            }
        }
    }
}

fn parse_scene_elems(buf: &Vec<u8>, pos: usize, n: u64) -> (r: Option<(Vec<Scene>, usize)>)
    ensures
        match r {
            Some((v, p)) => dec_scene_elems(buf@, pos as int, n as nat) == Some(
                (scenes_view(v@), p as int),
            ),
            None => dec_scene_elems(buf@, pos as int, n as nat) is None,
        },
{
    let mut v: Vec<Scene> = Vec::new();
    let mut p = pos;
    let mut i: u64 = 0;
    loop
        invariant
            0 <= i <= n,
            v@.len() == i,
            dec_scene_elems(buf@, pos as int, n as nat) == (match dec_scene_elems(
                buf@,
                p as int,
                (n - i) as nat,
            ) {
                Option::None => None::<(Seq<SceneV>, int)>,
                Option::Some((rest, q)) => Some((scenes_view(v@) + rest, q)),
            }),
        decreases n - i,
    {
        if i == n {
            proof {
                assert(dec_scene_elems(buf@, p as int, 0) == Some(
                    (Seq::<SceneV>::empty(), p as int),
                ));
                assert(scenes_view(v@) + Seq::<SceneV>::empty() =~= scenes_view(v@));
            }
            return Some((v, p));
        }
        let (s, q) = match parse_scene(buf, p) {
            Option::Some(x) => x,
            Option::None => {
                proof {
                    assert(dec_scene_elems(buf@, p as int, (n - i) as nat) is None);
                }
                return None;
            },
        };
        let ghost old_v = scenes_view(v@);
        let ghost sv = s@;
        let ghost rem = (n - i) as nat;
        proof {
            assert(dec_scene_elems(buf@, p as int, rem) == (match dec_scene_elems(
                buf@,
                q as int,
                (rem - 1) as nat,
            ) {
                Option::None => None::<(Seq<SceneV>, int)>,
                Option::Some((rest, q2)) => Some((seq![sv] + rest, q2)),
            }));
        }
        v.push(s);
        p = q;
        i = i + 1;
        proof {
            assert(scenes_view(v@) =~= old_v.push(sv));
            match dec_scene_elems(buf@, p as int, (n - i) as nat) {
                Option::None => {},
                Option::Some((rest, q2)) => {
                    assert(old_v + (seq![sv] + rest) =~= scenes_view(v@) + rest);
                },
            }
        }
    }
}

/// Parse a serialized static shard body; `dec_static_body` pins the result.
fn parse_static_body(buf: &Vec<u8>) -> (r: Option<StaticShard>)
    ensures
        match r {
            Some(s) => dec_static_body(buf@) == Some(s@),
            None => dec_static_body(buf@) is None,
        },
{
    let (nm, p0) = match read_u64(buf, 0) {
        Option::Some(x) => x,
        Option::None => {
            return None;
        },
    };
    let (shard_map, p1) = match parse_map_elems(buf, p0, nm) {
        Option::Some(x) => x,
        Option::None => {
            return None;
        },
    };
    let (ns, p2) = match read_u64(buf, p1) {
        Option::Some(x) => x,
        Option::None => {
            return None;
        },
    };
    let (scripts, p3) = match parse_source_elems(buf, p2, ns) {
        Option::Some(x) => x,
        Option::None => {
            return None;
        },
    };
    let (nc, p4) = match read_u64(buf, p3) {
        Option::Some(x) => x,
        Option::None => {
            return None;
        },
    };
    let (scenes, p5) = match parse_scene_elems(buf, p4, nc) {
        Option::Some(x) => x,
        Option::None => {
            return None;
        },
    };
    let (default_scene, p6) = match read_str(buf, p5) {
        Option::Some(x) => x,
        Option::None => {
            return None;
        },
    };
    if p6 != buf.len() {
        return None;
    }
    Some(StaticShard { shard_map, scripts, scenes, preferences: Preferences { default_scene } })
}

impl StaticShard {
    /// Assemble a static shard from its four parts.
    pub fn new(
        shard_map: Vec<(String, Vec<String>)>,
        scripts: Vec<ScriptingSource>,
        scenes: Vec<Scene>,
        preferences: Preferences,
    ) -> (r: StaticShard)
        ensures
            r@.shard_map == map_entries_view(shard_map@),
            r@.scripts == sources_view(scripts@),
            r@.scenes == scenes_view(scenes@),
            r@.preferences == preferences@,
    {
        StaticShard { shard_map, scripts, scenes, preferences }
    }

    /// The project preferences carried in this shard.
    pub fn get_preferences(&self) -> (r: &Preferences)
        ensures
            r@ == self@.preferences,
    {
        &self.preferences
    }

    /// The scene-to-required-shard-names map.
    pub fn get_shard_map(&self) -> (r: &Vec<(String, Vec<String>)>)
        ensures
            map_entries_view(r@) == self@.shard_map,
    {
        &self.shard_map
    }

    /// The names of every scene carried in this shard, in order.
    pub fn get_available_scene_names(&self) -> (r: Vec<String>)
        ensures
            r.deep_view() == self@.scenes.map_values(|s: SceneV| s.name),
    {
        let mut out: Vec<String> = Vec::new();
        let n = self.scenes.len();
        let mut i: usize = 0;
        while i < n
            invariant
                n == self@.scenes.len(),
                0 <= i <= n,
                out@.len() == i,
                forall|k: int| 0 <= k < i ==> (#[trigger] out@[k])@ == self@.scenes[k].name,
            decreases n - i,
        {
            out.push(self.scenes[i].name.clone());
            i = i + 1;
        }
        proof {
            assert(out.deep_view() =~= self@.scenes.map_values(|s: SceneV| s.name));
        }
        out
    }

    /// Look a scene up by name.
    pub fn get_scene(&self, name: &str) -> (r: Option<&Scene>)
        ensures
            match r {
                Some(s) => spec_get_scene(self@.scenes, name@) == Some(s@),
                None => spec_get_scene(self@.scenes, name@) is None,
            },
    {
        let n = self.scenes.len();
        let mut i: usize = 0;
        proof {
            assert(self@.scenes.skip(0) =~= self@.scenes);
        }
        while i < n
            invariant
                n == self@.scenes.len(),
                0 <= i <= n,
                spec_get_scene(self@.scenes, name@) == spec_get_scene(
                    self@.scenes.skip(i as int),
                    name@,
                ),
            decreases n - i,
        {
            proof {
                lemma_get_scene_skip(self@.scenes, name@, i as int);
            }
            if crate::strutil::str_eq(self.scenes[i].name.as_str(), name) {
                return Some(&self.scenes[i]);
            }
            i = i + 1;
        }
        proof {
            assert(self@.scenes.skip(n as int) =~= Seq::<SceneV>::empty());
        }
        None
    }

    /// All script sources carried in this shard.
    pub fn get_scripts(&self) -> (r: &Vec<ScriptingSource>)
        ensures
            sources_view(r@) == self@.scripts,
    {
        &self.scripts
    }

    /// Serialize and compress this static shard (always the fast level: the
    /// static shard is rebuilt on every build). Encoding is total: it
    /// succeeds on every static shard.
    pub fn encode(&self) -> (r: Vec<u8>)
        ensures
            r@ == zstd_frame(enc_static_body(self@), 0, false),
    {
        let mut body: Vec<u8> = Vec::new();
        write_u64(&mut body, self.shard_map.len() as u64);
        let nm = self.shard_map.len();
        let mut i: usize = 0;
        while i < nm
            invariant
                nm == self.shard_map@.len(),
                0 <= i <= nm,
                body@ == enc_u64(self@.shard_map.len() as u64) + enc_map_elems(
                    self@.shard_map.take(i as int),
                ),
        decreases nm - i,
        {
            let ghost before = self@.shard_map.take(i as int);
            let entry = &self.shard_map[i];
            write_map_entry(&mut body, &entry.0, &entry.1);
            proof {
                lemma_enc_map_elems_push(before, self@.shard_map[i as int]);
                assert(self@.shard_map.take(i + 1) =~= before.push(self@.shard_map[i as int]));
            }
            i = i + 1;
        }
        proof {
            assert(self@.shard_map.take(nm as int) =~= self@.shard_map);
        }
        let ghost part1 = body@;
        write_u64(&mut body, self.scripts.len() as u64);
        let ns = self.scripts.len();
        let mut i: usize = 0;
        while i < ns
            invariant
                ns == self.scripts@.len(),
                0 <= i <= ns,
                body@ == part1 + enc_u64(self@.scripts.len() as u64) + enc_source_elems(
                    self@.scripts.take(i as int),
                ),
        decreases ns - i,
        {
            let ghost before = self@.scripts.take(i as int);
            write_source(&mut body, &self.scripts[i]);
            proof {
                lemma_enc_source_elems_push(before, self@.scripts[i as int]);
                assert(self@.scripts.take(i + 1) =~= before.push(self@.scripts[i as int]));
                assert(body@ =~= part1 + enc_u64(self@.scripts.len() as u64) + enc_source_elems(
                    self@.scripts.take(i + 1),
                ));
            }
            i = i + 1;
        }
        proof {
            assert(self@.scripts.take(ns as int) =~= self@.scripts);
        }
        let ghost part2 = body@;
        write_u64(&mut body, self.scenes.len() as u64);
        let nc = self.scenes.len();
        let mut i: usize = 0;
        while i < nc
            invariant
                nc == self.scenes@.len(),
                0 <= i <= nc,
                body@ == part2 + enc_u64(self@.scenes.len() as u64) + enc_scene_elems(
                    self@.scenes.take(i as int),
                ),
        decreases nc - i,
        {
            let ghost before = self@.scenes.take(i as int);
            write_scene(&mut body, &self.scenes[i]);
            proof {
                lemma_enc_scene_elems_push(before, self@.scenes[i as int]);
                assert(self@.scenes.take(i + 1) =~= before.push(self@.scenes[i as int]));
                assert(body@ =~= part2 + enc_u64(self@.scenes.len() as u64) + enc_scene_elems(
                    self@.scenes.take(i + 1),
                ));
            }
            i = i + 1;
        }
        proof {
            assert(self@.scenes.take(nc as int) =~= self@.scenes);
        }
        write_str(&mut body, &self.preferences.default_scene);
        proof {
            assert(body@ =~= enc_static_body(self@));
        }
        zstd_compress(body.as_slice(), 0, false)
    }

    /// Decompress and deserialize a static shard: exactly the value
    /// `spec_decode_static` names for the input bytes, an error where it
    /// names none. In particular, whenever the input is the encoding of some
    /// static shard, that static shard is returned.
    pub fn decode(bytes: &Vec<u8>) -> (r: Result<StaticShard, AssetError>)
        ensures
            match spec_decode_static(bytes@) {
                Option::Some(sv) => r matches Ok(s) && s@ == sv,
                Option::None => r is Err,
            },
            forall|sv: StaticShardV, level: int, lm: bool|
                (static_fits(sv) && bytes@ == #[trigger] zstd_frame(
                    enc_static_body(sv),
                    level,
                    lm,
                )) ==> (r matches Ok(s) && s@ == sv),
    {
        let decompressed = match zstd_decompress(bytes.as_slice()) {
            Option::Some(d) => d,
            Option::None => {
                return Err(AssetError::new("static shard decompression failed"));
            },
        };
        let r = match parse_static_body(&decompressed) {
            Option::Some(s) => Ok(s),
            Option::None => Err(AssetError::new("malformed static shard container")),
        };
        proof {
            assert forall|sv: StaticShardV, level: int, lm: bool|
                static_fits(sv) && bytes@ == #[trigger] zstd_frame(
                    enc_static_body(sv),
                    level,
                    lm,
                ) implies (r matches Ok(s) && s@ == sv) by {
                lemma_dec_enc_static_body(sv);
            }
        }
        r
    }
}

/// What decoding yields for the given compressed bytes: decompress, then
/// deserialize the body, consuming it exactly.
pub open spec fn spec_decode_static(bytes: Seq<u8>) -> Option<StaticShardV> {
    match crate::trusted::zstd_inflate(bytes) {
        Option::Some(d) => dec_static_body(d),
        Option::None => None,
    }
}

} // verus!
