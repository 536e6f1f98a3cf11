use loitsu::partition::{generate_shards, Shard};
use loitsu::scene::Scene;
use loitsu::Preferences;

fn scene(name: &str, required: &[&str]) -> Scene {
    let mut s = Scene::new(name.to_string());
    s.required_assets = required.iter().map(|a| a.to_string()).collect();
    s
}

fn prefs(default_scene: &str) -> Preferences {
    Preferences {
        default_scene: default_scene.to_string(),
    }
}

fn shard_with(shards: &[Shard], asset: &str) -> Shard {
    let found: Vec<&Shard> = shards
        .iter()
        .filter(|s| s.assets.iter().any(|a| a == asset))
        .collect();
    assert_eq!(found.len(), 1, "asset {} must sit in exactly one shard", asset);
    found[0].clone()
}

#[test]
fn two_scenes_sharing_one_asset_yield_three_shards() {
    let scenes = vec![
        scene("A", &["bg.png", "hero.png"]),
        scene("B", &["bg.png", "enemy.png"]),
    ];
    let (shards, static_shard) = generate_shards(scenes, Vec::new(), &prefs("A"));

    assert_eq!(shards.len(), 3);
    for s in &shards {
        assert!(!s.assets.is_empty());
        assert!(!s.name.is_empty());
    }

    let bg = shard_with(&shards, "bg.png");
    assert_eq!(bg.assets, vec!["bg.png".to_string()]);
    assert!(bg.dependents.contains(&"A".to_string()));
    assert!(bg.dependents.contains(&"B".to_string()));
    assert!(!bg.is_root);

    let hero = shard_with(&shards, "hero.png");
    assert_eq!(hero.assets, vec!["hero.png".to_string()]);
    assert_eq!(hero.dependents, vec!["A".to_string()]);
    assert!(hero.is_root);

    let enemy = shard_with(&shards, "enemy.png");
    assert_eq!(enemy.assets, vec!["enemy.png".to_string()]);
    assert_eq!(enemy.dependents, vec!["B".to_string()]);
    assert!(enemy.is_root);

    // the shared shard is distinct from either scene's remaining shard
    assert_ne!(bg.name, hero.name);
    assert_ne!(bg.name, enemy.name);

    // each scene's shard list names exactly the shards depending on it
    let a_scene = static_shard.get_scene("A").expect("scene A");
    assert_eq!(a_scene.shards.len(), 2);
    assert!(a_scene.shards.contains(&bg.name));
    assert!(a_scene.shards.contains(&hero.name));
    assert!(a_scene.required_assets.is_empty());
    let b_scene = static_shard.get_scene("B").expect("scene B");
    assert_eq!(b_scene.shards.len(), 2);
    assert!(b_scene.shards.contains(&bg.name));
    assert!(b_scene.shards.contains(&enemy.name));
}

#[test]
fn partition_covers_union_without_duplicates() {
    let scenes = vec![
        scene("menu", &["logo.png", "cursor.png"]),
        scene("level1", &["tiles.png", "cursor.png", "boss.png"]),
        scene("level2", &["tiles.png", "cursor.png"]),
    ];
    let inputs: Vec<String> = vec![
        "logo.png", "cursor.png", "tiles.png", "boss.png",
    ]
    .into_iter()
    .map(|s| s.to_string())
    .collect();
    let (shards, _static_shard) = generate_shards(scenes, Vec::new(), &prefs("menu"));

    // union of outputs equals union of inputs
    let mut all: Vec<String> = shards.iter().flat_map(|s| s.assets.clone()).collect();
    all.sort();
    let mut expected = inputs.clone();
    expected.sort();
    assert_eq!(all, expected);

    // and no asset occurs twice across the final shard set
    for asset in &inputs {
        let owners = shards
            .iter()
            .filter(|s| s.assets.iter().any(|a| a == asset))
            .count();
        assert_eq!(owners, 1, "asset {} owned once", asset);
    }
}

#[test]
fn identical_asset_lists_hash_to_the_same_name() {
    let mut one = Shard::new(
        vec!["x.png".to_string(), "y.png".to_string()],
        true,
        vec!["A".to_string()],
    );
    let mut two = Shard::new(
        vec!["x.png".to_string(), "y.png".to_string()],
        false,
        vec!["B".to_string()],
    );
    one.generate_name();
    two.generate_name();
    assert_eq!(one.name, two.name);
    assert!(!one.name.is_empty());
}

#[test]
fn find_intersection_and_remove_items() {
    let a = Shard::new(
        vec!["p".to_string(), "q".to_string(), "r".to_string()],
        true,
        vec!["A".to_string()],
    );
    let b = Shard::new(
        vec!["q".to_string(), "r".to_string(), "s".to_string()],
        true,
        vec!["B".to_string()],
    );
    let shared = a.find_intersection(&b);
    assert_eq!(shared, vec!["q".to_string(), "r".to_string()]);

    let mut c = a.clone();
    c.remove_items(shared);
    assert_eq!(c.assets, vec!["p".to_string()]);
}

#[test]
fn analyse_against_reports_no_change_for_disjoint_shards() {
    let a = Shard::new(vec!["a.png".to_string()], true, vec!["A".to_string()]);
    let b = Shard::new(vec!["b.png".to_string()], true, vec!["B".to_string()]);
    let list = vec![a.clone(), b];
    assert!(a.analyse_against(&list).is_none());
}
