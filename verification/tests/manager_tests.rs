use loitsu::asset::Asset;
use loitsu::asset_meta::{encode_meta, AssetMeta, TextureMetadata};
use loitsu::manager::AssetManager;
use loitsu::scene::Scene;
use loitsu::shard::{Shard, ShardFileType};
use loitsu::static_shard::StaticShard;
use loitsu::Preferences;

fn tiny_png() -> Vec<u8> {
    let img = image::DynamicImage::ImageRgba8(image::RgbaImage::new(2, 2));
    let mut bytes: Vec<u8> = Vec::new();
    img.write_to(&mut std::io::Cursor::new(&mut bytes), image::ImageFormat::Png)
        .expect("png encode");
    bytes
}

fn sample_shard_bytes(shard_name: &str) -> Vec<u8> {
    let mut shard = Shard::new(shard_name.to_string());
    shard.add_file("bg.png".to_string(), tiny_png(), ShardFileType::Texture);
    let meta = AssetMeta::TextureMeta(TextureMetadata {
        resolution_multiplier: None,
        include_alpha: Some(true),
        uv: None,
        target: "bg.png".to_string(),
    });
    shard.add_file(
        "bg.png.meta".to_string(),
        encode_meta(&meta),
        ShardFileType::FileMeta,
    );
    shard.encode(false)
}

fn static_shard_bytes() -> Vec<u8> {
    let shard_map = vec![("A".to_string(), vec!["CAFE".to_string()])];
    let mut scene = Scene::new("A".to_string());
    scene.shards = vec!["CAFE".to_string()];
    let st = StaticShard::new(
        shard_map,
        Vec::new(),
        vec![scene],
        Preferences {
            default_scene: "A".to_string(),
        },
    );
    st.encode()
}

#[test]
fn counter_starts_owing_the_static_shard() {
    let mut mgr = AssetManager::new();
    assert_eq!(mgr.pending_tasks(), 1);
    assert!(mgr.static_shard().is_none());
    mgr.complete_static_shard(Some(static_shard_bytes()));
    assert_eq!(mgr.pending_tasks(), 0);
    let st = mgr.static_shard().expect("static shard");
    assert_eq!(st.get_preferences().default_scene, "A");
}

#[test]
fn counter_returns_to_baseline_even_when_tasks_fail() {
    let mut mgr = AssetManager::new();
    mgr.complete_static_shard(None);
    assert_eq!(mgr.pending_tasks(), 0);

    let paths = mgr.request_shards(vec![
        "CAFE".to_string(),
        "BEEF".to_string(),
        "F00D".to_string(),
    ]);
    assert_eq!(mgr.pending_tasks(), 3);
    assert_eq!(paths.len(), 3);
    assert_eq!(paths[0], "shards/CAFE.shard");
    assert_eq!(paths[1], "shards/BEEF.shard");
    assert_eq!(paths[2], "shards/F00D.shard");

    mgr.complete_shard_fetch(Some(sample_shard_bytes("CAFE")));
    assert_eq!(mgr.pending_tasks(), 2);
    // a failed fetch still releases its task
    mgr.complete_shard_fetch(None);
    assert_eq!(mgr.pending_tasks(), 1);
    // a malformed container still releases its task
    mgr.complete_shard_fetch(Some(vec![0u8; 16]));
    assert_eq!(mgr.pending_tasks(), 0);
}

#[test]
fn published_assets_update_in_place_with_rising_versions() {
    let mut mgr = AssetManager::new();
    mgr.complete_static_shard(None);

    // a consumer may ask before any data exists: placeholder at version zero
    let handle = mgr.get_asset("bg.png");
    assert_eq!(mgr.ref_version(handle), 0);
    assert!(matches!(mgr.ref_asset(handle), Asset::NoData));
    // asking again returns the same handle and changes nothing
    assert_eq!(mgr.get_asset("bg.png"), handle);
    assert_eq!(mgr.ref_count(), 1);

    // first load publishes the texture and the metadata
    mgr.request_shards(vec!["CAFE".to_string()]);
    mgr.complete_shard_fetch(Some(sample_shard_bytes("CAFE")));
    assert_eq!(mgr.pending_tasks(), 0);
    let v1 = mgr.ref_version(handle);
    assert_eq!(mgr.ref_name(handle), "bg.png");
    assert!(matches!(mgr.ref_asset(handle), Asset::Texture(_)));
    assert!(v1 >= 1);

    let meta_handle = mgr.get_asset("bg.png.meta");
    match mgr.ref_asset(meta_handle) {
        Asset::TextureMeta(m) => {
            assert_eq!(m.get_target(), "bg.png");
            assert_eq!(m.get_uv(), (0, 0, 1000, 1000));
        }
        _ => panic!("metadata asset expected"),
    }

    // a hot reload of the same shard bumps versions, never lowers them
    mgr.request_shards(vec!["CAFE".to_string()]);
    mgr.complete_shard_fetch(Some(sample_shard_bytes("CAFE")));
    let v2 = mgr.ref_version(handle);
    assert!(v2 >= v1);
    assert!(v2 > 0);
    assert!(matches!(mgr.ref_asset(handle), Asset::Texture(_)));
}

#[test]
fn initialize_runs_only_once_all_tasks_are_done() {
    let mut mgr = AssetManager::new();
    // the static shard is still outstanding: initialization must be a no-op
    assert!(mgr.initialize_shards().is_empty());
    mgr.complete_static_shard(Some(static_shard_bytes()));

    mgr.request_shards(vec!["CAFE".to_string(), "BEEF".to_string()]);
    mgr.complete_shard_fetch(Some(sample_shard_bytes("CAFE")));
    // one fetch still outstanding: still a no-op
    assert!(mgr.initialize_shards().is_empty());
    mgr.complete_shard_fetch(Some(sample_shard_bytes("BEEF")));
    assert_eq!(mgr.pending_tasks(), 0);

    // every loaded shard is handed over exactly once
    let newly = mgr.initialize_shards();
    assert_eq!(
        newly,
        vec!["CAFE".to_string(), "BEEF".to_string()]
    );
    assert!(mgr.initialize_shards().is_empty());
}

#[test]
fn reference_versions_never_decrease() {
    let mut r = loitsu::manager::AssetReference::new(Asset::NoData);
    assert_eq!(r.get_version(), 0);
    r.update(Asset::NoData);
    assert_eq!(r.get_version(), 1);
    r.increment_version(5);
    assert_eq!(r.get_version(), 6);
    r.increment_version(u32::MAX);
    assert_eq!(r.get_version(), u32::MAX);
    r.update(Asset::NoData);
    assert_eq!(r.get_version(), u32::MAX);
}

#[test]
fn texture_decode_rejects_garbage() {
    assert!(loitsu::asset::texture_from_bytes(&vec![1, 2, 3], "x.png").is_err());
    let ok = loitsu::asset::texture_from_bytes(&tiny_png(), "x.png").expect("texture");
    match ok {
        Asset::Texture(t) => assert_eq!(t.get_name(), "x.png"),
        _ => panic!("texture expected"),
    }
}

#[test]
fn metadata_targets_resolve_to_their_payload() {
    let mut mgr = AssetManager::new();
    mgr.complete_static_shard(None);
    mgr.request_shards(vec!["CAFE".to_string()]);
    mgr.complete_shard_fetch(Some(sample_shard_bytes("CAFE")));

    let meta_handle = mgr.get_asset("bg.png.meta");
    let meta = match mgr.ref_asset(meta_handle) {
        Asset::TextureMeta(m) => {
            loitsu::asset::TextureMeta::new(m.get_target(), m.get_uv(), m.get_format())
        }
        _ => panic!("metadata asset expected"),
    };
    let payload = mgr
        .resolve_target(&meta)
        .expect("target must live in the same shard");
    assert_eq!(mgr.ref_name(payload), "bg.png");
    assert!(matches!(mgr.ref_asset(payload), Asset::Texture(_)));

    // a target that no shard published is a fatal authoring error
    let stray = loitsu::asset::TextureMeta::new(
        "missing.png",
        (0, 0, 1000, 1000),
        loitsu::asset::TextureFormat::RGB8,
    );
    assert!(mgr.resolve_target(&stray).is_none());
}

#[test]
fn a_shard_with_an_unparsable_file_publishes_nothing() {
    let mut mgr = AssetManager::new();
    mgr.complete_static_shard(None);

    // one good file, one texture whose bytes no decoder accepts: the whole
    // consume step fails and nothing is published
    let mut shard = Shard::new("BAD".to_string());
    shard.add_file("ok.png".to_string(), tiny_png(), ShardFileType::Texture);
    shard.add_file("broken.png".to_string(), vec![1, 2, 3], ShardFileType::Texture);
    let bytes = shard.encode(false);

    mgr.request_shards(vec!["BAD".to_string()]);
    mgr.complete_shard_fetch(Some(bytes));
    assert_eq!(mgr.pending_tasks(), 0);
    assert_eq!(mgr.ref_count(), 0);
    assert!(mgr.initialize_shards().is_empty());
}
