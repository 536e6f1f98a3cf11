use loitsu::asset_meta::{AssetMeta, TextureMetadata};
use loitsu::cache::{compute_key, preprocess, PreprocessOutcome, TransformCache};

fn texture_meta() -> AssetMeta {
    AssetMeta::TextureMeta(TextureMetadata {
        resolution_multiplier: Some(2000),
        include_alpha: None,
        uv: None,
        target: "hero.png.TARGET".to_string(),
    })
}

#[test]
fn keys_are_deterministic() {
    let path = "assets/hero.png".to_string();
    let data = vec![10u8, 20, 30];
    let k1 = compute_key(&path, &data, &texture_meta());
    let k2 = compute_key(&path, &data, &texture_meta());
    assert_eq!(k1, k2);
}

#[test]
fn second_preprocess_is_a_cache_hit_with_identical_bytes() {
    let mut cache = TransformCache::new();
    let path = "assets/hero.png".to_string();
    let data = vec![10u8, 20, 30];
    let meta = texture_meta();

    // first consultation: a miss naming the key to fill
    let key = match preprocess(&cache, &path, data.clone(), &meta) {
        PreprocessOutcome::NeedsTransform(key) => key,
        _ => panic!("first call must ask for the transform"),
    };
    assert_eq!(key, compute_key(&path, &data, &meta));

    // the caller performs the expensive transform and stores the result
    let transformed = vec![99u8, 98, 97];
    cache.store(key, transformed.clone());

    // second consultation with the identical triple: a hit, byte-identical
    match preprocess(&cache, &path, data.clone(), &meta) {
        PreprocessOutcome::CacheHit(bytes) => assert_eq!(bytes, transformed),
        _ => panic!("second call must hit the cache"),
    }
}

#[test]
fn pass_through_returns_the_bytes_unchanged_and_uncached() {
    let cache = TransformCache::new();
    let path = "assets/notes.txt".to_string();
    let data = vec![1u8, 2, 3];
    match preprocess(&cache, &path, data.clone(), &AssetMeta::NoTransform) {
        PreprocessOutcome::PassThrough(bytes) => assert_eq!(bytes, data),
        _ => panic!("pass-through expected"),
    }
}

#[test]
fn store_replaces_an_existing_entry() {
    let mut cache = TransformCache::new();
    cache.store(7, vec![1]);
    cache.store(7, vec![2, 2]);
    assert_eq!(cache.lookup(7).expect("entry"), &vec![2u8, 2]);
    assert!(cache.lookup(8).is_none());
}
