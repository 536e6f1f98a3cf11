use loitsu::asset_meta::{AssetMeta, TextureMetadata, encode_meta, parse_meta};
use loitsu::scene::Scene;
use loitsu::scripting::ScriptingSource;
use loitsu::shard::{guess_file_type, Shard, ShardFileType};
use loitsu::static_shard::StaticShard;
use loitsu::Preferences;

fn sample_shard() -> Shard {
    let mut shard = Shard::new("CAFE".to_string());
    shard.add_file(
        "hero.png".to_string(),
        vec![1, 2, 3, 200, 255],
        ShardFileType::Texture,
    );
    shard.add_file(
        "hero.png.meta".to_string(),
        vec![9, 9],
        ShardFileType::FileMeta,
    );
    shard
}

fn assert_same_shard(a: &Shard, b: &Shard) {
    assert_eq!(a.get_name(), b.get_name());
    let fa = a.get_assets();
    let fb = b.get_assets();
    assert_eq!(fa.len(), fb.len());
    for (x, y) in fa.iter().zip(fb.iter()) {
        assert_eq!(x.name, y.name);
        assert_eq!(x.data, y.data);
        assert_eq!(x.file_type, y.file_type);
    }
}

#[test]
fn shard_round_trips_in_debug_mode() {
    let shard = sample_shard();
    let bytes = shard.encode(false);
    let back = Shard::decode(&bytes).expect("decode");
    assert_same_shard(&shard, &back);
}

#[test]
fn shard_round_trips_in_release_mode() {
    let shard = sample_shard();
    let bytes = shard.encode(true);
    let back = Shard::decode(&bytes).expect("decode");
    assert_same_shard(&shard, &back);
}

#[test]
fn shard_decode_rejects_garbage() {
    let garbage = vec![7u8; 64];
    assert!(Shard::decode(&garbage).is_err());
}

#[test]
fn add_file_replaces_by_name() {
    let mut shard = Shard::new("s".to_string());
    shard.add_file("a".to_string(), vec![1], ShardFileType::Texture);
    shard.add_file("a".to_string(), vec![2, 3], ShardFileType::Texture);
    assert_eq!(shard.get_assets().len(), 1);
    let f = shard.get_file("a").expect("file");
    assert_eq!(f.data, vec![2, 3]);
    assert!(shard.get_file("missing").is_none());
}

#[test]
fn static_shard_round_trips() {
    let shard_map = vec![
        (
            "A".to_string(),
            vec!["CAFE".to_string(), "BEEF".to_string()],
        ),
        ("B".to_string(), vec!["CAFE".to_string()]),
    ];
    let scripts = vec![ScriptingSource {
        name: "boot.rn".to_string(),
        source: "fn main() {}".to_string(),
    }];
    let mut scene_a = Scene::new("A".to_string());
    scene_a.shards = vec!["CAFE".to_string(), "BEEF".to_string()];
    scene_a.graph = vec![5, 6, 7];
    scene_a.id_space = 42;
    let scenes = vec![scene_a];
    let preferences = Preferences {
        default_scene: "A".to_string(),
    };
    let static_shard = StaticShard::new(shard_map, scripts, scenes, preferences);

    let bytes = static_shard.encode();
    let back = StaticShard::decode(&bytes).expect("decode");

    assert_eq!(back.get_preferences().default_scene, "A");
    assert_eq!(back.get_available_scene_names(), vec!["A".to_string()]);
    let scene = back.get_scene("A").expect("scene A");
    assert_eq!(scene.shards, vec!["CAFE".to_string(), "BEEF".to_string()]);
    assert_eq!(scene.graph, vec![5, 6, 7]);
    assert_eq!(scene.id_space, 42);
    assert!(back.get_scene("missing").is_none());
    let scripts = back.get_scripts();
    assert_eq!(scripts.len(), 1);
    assert_eq!(scripts[0].name, "boot.rn");
    assert_eq!(scripts[0].source, "fn main() {}");
    let map = back.get_shard_map();
    assert_eq!(map.len(), 2);
    assert_eq!(map[0].0, "A");
    assert_eq!(map[0].1, vec!["CAFE".to_string(), "BEEF".to_string()]);
    assert_eq!(map[1].0, "B");
    assert_eq!(map[1].1, vec!["CAFE".to_string()]);
}

#[test]
fn static_shard_decode_rejects_garbage() {
    let garbage = vec![3u8; 40];
    assert!(StaticShard::decode(&garbage).is_err());
}

#[test]
fn meta_round_trips_through_its_wire_form() {
    let meta = AssetMeta::TextureMeta(TextureMetadata {
        resolution_multiplier: Some(500),
        include_alpha: Some(true),
        uv: Some((0, 0, 1000, 1000)),
        target: "hero.png.TARGET".to_string(),
    });
    let bytes = encode_meta(&meta);
    match parse_meta(&bytes) {
        Some(AssetMeta::TextureMeta(t)) => {
            assert_eq!(t.resolution_multiplier, Some(500));
            assert_eq!(t.include_alpha, Some(true));
            assert_eq!(t.uv, Some((0, 0, 1000, 1000)));
            assert_eq!(t.target, "hero.png.TARGET");
        }
        _ => panic!("texture metadata expected"),
    }

    let none = AssetMeta::NoTransform;
    let bytes = encode_meta(&none);
    assert!(matches!(parse_meta(&bytes), Some(AssetMeta::NoTransform)));
}

#[test]
fn meta_parse_rejects_garbage() {
    assert!(parse_meta(&vec![2u8, 2, 2]).is_none());
    assert!(parse_meta(&Vec::new()).is_none());
}

#[test]
fn file_types_follow_the_extension() {
    assert_eq!(guess_file_type("bg.png"), ShardFileType::Texture);
    assert_eq!(guess_file_type("BG.PNG"), ShardFileType::Texture);
    assert_eq!(guess_file_type("photo.jpg"), ShardFileType::Texture);
    assert_eq!(guess_file_type("photo.Jpeg"), ShardFileType::Texture);
    assert_eq!(guess_file_type("bg.png.meta"), ShardFileType::FileMeta);
}

#[test]
fn compression_shrinks_repetitive_payloads() {
    let mut shard = Shard::new("R".to_string());
    shard.add_file(
        "flat.png".to_string(),
        vec![42u8; 65536],
        ShardFileType::Texture,
    );
    let debug_bytes = shard.encode(false);
    assert!(debug_bytes.len() < 65536);
    let release_bytes = shard.encode(true);
    assert!(release_bytes.len() < 65536);
    let back = Shard::decode(&release_bytes).expect("decode");
    assert_eq!(back.get_file("flat.png").expect("file").data.len(), 65536);
}

#[test]
fn default_metadata_names_its_companion_payload() {
    assert_eq!(
        loitsu::asset_meta::target_name("chars/hero.png"),
        "chars/hero.png.TARGET"
    );
    match loitsu::asset_meta::default_texture_meta("chars/hero.png") {
        AssetMeta::TextureMeta(t) => {
            assert_eq!(t.resolution_multiplier, Some(1000));
            assert_eq!(t.include_alpha, Some(false));
            assert_eq!(t.uv, Some((0, 0, 1000, 1000)));
            assert_eq!(t.target, "chars/hero.png.TARGET");
        }
        _ => panic!("texture metadata expected"),
    }
}
