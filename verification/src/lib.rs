//! Packaging, caching and streaming core for game content: partitions each
//! scene's required assets into deduplicated shards, memoizes expensive
//! per-asset transforms in a content-addressed cache, serializes shards into a
//! compressed binary container, and tracks the runtime state of asynchronous
//! shard loading through versioned asset references.

pub mod asset;
pub mod asset_meta;
pub mod hashing;
pub mod cache;
pub mod codec;
pub mod manager;
pub mod scene;
pub mod scripting;
pub mod shard;
pub mod partition;
pub mod static_shard;
pub mod strutil;
pub mod trusted;
pub mod util;

use vstd::prelude::*;

verus! {

/// Global project preferences carried inside the static shard.
pub struct Preferences {
    pub default_scene: String,
}

/// Mathematical model of the preferences.
pub struct PreferencesV {
    pub default_scene: Seq<char>,
}

impl View for Preferences {
    type V = PreferencesV;

    open spec fn view(&self) -> PreferencesV {
        PreferencesV { default_scene: self.default_scene@ }
    }
}

impl Clone for Preferences {
    fn clone(&self) -> (r: Self)
        ensures
            r@ == self@,
    {
        Preferences { default_scene: self.default_scene.clone() }
    }
}

} // verus!
