//! The content-addressed transform cache and the asset preprocessor.
//!
//! A cache key is the FNV-1a hash of the framed triple (asset path, raw
//! bytes, encoded metadata); the store maps keys to previously computed
//! transformed bytes. The preprocessor consults the store before asking for
//! the expensive transform, and `lemma_preprocess_idempotent` states the
//! cache-idempotence guarantee: once a transform's result is stored, the same
//! inputs hit the cache and return exactly the stored bytes.

use vstd::prelude::*;
use crate::asset_meta::{AssetMeta, AssetMetaV, enc_meta, encode_meta};
use crate::codec::{enc_bytes, enc_str, write_bytes, write_str};
use crate::hashing::{fnv1a, fnv1a_hash};

verus! {

/// The cache key of one `(path, bytes, metadata)` triple: the hash of the
/// three parts, each length-framed.
pub open spec fn spec_cache_key(path: Seq<char>, data: Seq<u8>, meta: AssetMetaV) -> u64 {
    fnv1a(enc_str(path) + enc_bytes(data) + enc_meta(meta))
}

/// Compute the cache key of a `(path, bytes, metadata)` triple.
pub fn compute_key(path: &String, data: &Vec<u8>, meta: &AssetMeta) -> (k: u64)
    ensures
        k == spec_cache_key(path@, data@, meta@),
{
    let mut framed: Vec<u8> = Vec::new();
    write_str(&mut framed, path);
    write_bytes(&mut framed, data);
    let mut encoded = encode_meta(meta);
    framed.append(&mut encoded);
    proof {
        assert(framed@ =~= enc_str(path@) + enc_bytes(data@) + enc_meta(meta@));
    }
    fnv1a_hash(framed.as_slice())
}

/// The content-addressed store: transformed bytes by cache key.
pub struct TransformCache {
    entries: Vec<(u64, Vec<u8>)>,
}

/// The map an entry list denotes, later entries winning.
pub open spec fn entries_map(s: Seq<(u64, Seq<u8>)>) -> Map<u64, Seq<u8>>
    decreases s.len(),
{
    if s.len() == 0 {
        Map::empty()
    } else {
        entries_map(s.drop_last()).insert(s.last().0, s.last().1)
    }
}

impl View for TransformCache {
    type V = Map<u64, Seq<u8>>;

    closed spec fn view(&self) -> Map<u64, Seq<u8>> {
        entries_map(self.entries@.map_values(|e: (u64, Vec<u8>)| (e.0, e.1@)))
    }
}

impl TransformCache {
    /// Keys are stored at most once.
    pub closed spec fn wf(&self) -> bool {
        forall|i: int, j: int|
            0 <= i < j < self.entries@.len() ==> (#[trigger] self.entries@[i]).0 != (
            #[trigger] self.entries@[j]).0
    }

    /// An empty cache.
    pub fn new() -> (r: TransformCache)
        ensures
            r.wf(),
            r@ == Map::<u64, Seq<u8>>::empty(),
    {
        let r = TransformCache { entries: Vec::new() };
        proof {
            assert(r.entries@.map_values(|e: (u64, Vec<u8>)| (e.0, e.1@)) =~= Seq::<(
                u64,
                Seq<u8>,
            )>::empty());
        }
        r
    }

    /// The bytes stored under `key`, if any.
    pub fn lookup(&self, key: u64) -> (r: Option<&Vec<u8>>)
        requires
            self.wf(),
        ensures
            match r {
                Some(d) => self@.contains_key(key) && self@[key] == d@,
                None => !self@.contains_key(key),
            },
    {
        let n = self.entries.len();
        let ghost es = self.entries@.map_values(|e: (u64, Vec<u8>)| (e.0, e.1@));
        let mut i: usize = 0;
        while i < n
            invariant
                self.wf(),
                n == self.entries@.len(),
                0 <= i <= n,
                es == self.entries@.map_values(|e: (u64, Vec<u8>)| (e.0, e.1@)),
                forall|k: int| 0 <= k < i ==> (#[trigger] self.entries@[k]).0 != key,
            decreases n - i,
        {
            if self.entries[i].0 == key {
                proof {
                    lemma_entries_map_found(es, i as int);
                }
                return Some(&self.entries[i].1);
            }
            i = i + 1;
        }
        proof {
            lemma_entries_map_absent(es, key);
        }
        None
    }

    /// Store `data` under `key`, replacing what was there.
    pub fn store(&mut self, key: u64, data: Vec<u8>)
        requires
            old(self).wf(),
        ensures
            final(self).wf(),
            final(self)@ == old(self)@.insert(key, data@),
    {
        let ghost es = self.entries@.map_values(|e: (u64, Vec<u8>)| (e.0, e.1@));
        let n = self.entries.len();
        let mut i: usize = 0;
        while i < n
            invariant
                self.wf(),
                n == self.entries@.len(),
                0 <= i <= n,
                es == self.entries@.map_values(|e: (u64, Vec<u8>)| (e.0, e.1@)),
                entries_map(es) == old(self)@,
                forall|k: int| 0 <= k < i ==> (#[trigger] self.entries@[k]).0 != key,
            decreases n - i,
        {
            if self.entries[i].0 == key {
                let ghost pre = self.entries@;
                self.entries.set(i, (key, data));
                proof {
                    assert(es[i as int].0 == key);
                    let es2 = self.entries@.map_values(|e: (u64, Vec<u8>)| (e.0, e.1@));
                    assert(es2 =~= es.update(i as int, (key, data@)));
                    lemma_entries_map_update(es, i as int, data@);
                    assert forall|a: int, b: int|
                        0 <= a < b < self.entries@.len() implies (#[trigger] self.entries@[a]).0
                        != (#[trigger] self.entries@[b]).0 by {
                        assert(pre[a].0 != pre[b].0);
                    }
                }
                return ;
            }
            i = i + 1;
        }
        self.entries.push((key, data));
        proof {
            let es2 = self.entries@.map_values(|e: (u64, Vec<u8>)| (e.0, e.1@));
            assert(es2 =~= es.push((key, data@)));
            assert(es2.drop_last() =~= es);
            assert(final(self)@ == old(self)@.insert(key, data@));
        }
    }
}

proof fn lemma_entries_map_found(es: Seq<(u64, Seq<u8>)>, i: int)
    requires
        0 <= i < es.len(),
        forall|a: int, b: int| 0 <= a < b < es.len() ==> (#[trigger] es[a]).0 != (
        #[trigger] es[b]).0,
    ensures
        entries_map(es).contains_key(es[i].0),
        entries_map(es)[es[i].0] == es[i].1,
    decreases es.len(),
{
    if i == es.len() - 1 {
    } else {
        assert(es.drop_last()[i] == es[i]);
        lemma_entries_map_found(es.drop_last(), i);
        assert(es.last().0 != es[i].0);
    }
}

proof fn lemma_entries_map_absent(es: Seq<(u64, Seq<u8>)>, key: u64)
    requires
        forall|k: int| 0 <= k < es.len() ==> (#[trigger] es[k]).0 != key,
    ensures
        !entries_map(es).contains_key(key),
    decreases es.len(),
{
    if es.len() > 0 {
        assert(forall|k: int| 0 <= k < es.drop_last().len() ==> (#[trigger] es.drop_last()[k]).0
            != key);
        lemma_entries_map_absent(es.drop_last(), key);
        assert(es.last().0 != key) by {
            assert(es[es.len() - 1].0 != key);
        }
    }
}

proof fn lemma_entries_map_update(es: Seq<(u64, Seq<u8>)>, i: int, data: Seq<u8>)
    requires
        0 <= i < es.len(),
        forall|a: int, b: int| 0 <= a < b < es.len() ==> (#[trigger] es[a]).0 != (
        #[trigger] es[b]).0,
    ensures
        entries_map(es.update(i, (es[i].0, data))) == entries_map(es).insert(es[i].0, data),
    decreases es.len(),
{
    let key = es[i].0;
    let upd = es.update(i, (key, data));
    if i == es.len() - 1 {
        assert(upd.drop_last() =~= es.drop_last());
        assert(upd.last() == (key, data));
    } else {
        assert(upd.drop_last() =~= es.drop_last().update(i, (key, data)));
        assert(upd.last() == es.last());
        assert(es.drop_last()[i] == es[i]);
        lemma_entries_map_update(es.drop_last(), i, data);
        assert(es.last().0 != key) by {
            assert(es[es.len() - 1].0 != es[i].0);
        }
        assert(entries_map(upd) =~= entries_map(es).insert(key, data)) by {
            assert(entries_map(upd) == entries_map(es.drop_last()).insert(key, data).insert(
                es.last().0,
                es.last().1,
            ));
            assert(entries_map(es) == entries_map(es.drop_last()).insert(
                es.last().0,
                es.last().1,
            ));
        }
    }
}

// ------------------------------------------------------------- preprocessor

/// What one preprocessor consultation yields: the bytes to use directly (a
/// pass-through or a cache hit), or the key under which the caller must store
/// the transform's result.
pub enum PreprocessOutcome {
    PassThrough(Vec<u8>),
    CacheHit(Vec<u8>),
    NeedsTransform(u64),
}

/// Mathematical model of a preprocessor outcome.
pub enum PreprocessOutcomeV {
    PassThrough(Seq<u8>),
    CacheHit(Seq<u8>),
    NeedsTransform(u64),
}

impl View for PreprocessOutcome {
    type V = PreprocessOutcomeV;

    open spec fn view(&self) -> PreprocessOutcomeV {
        match self {
            PreprocessOutcome::PassThrough(d) => PreprocessOutcomeV::PassThrough(d@),
            PreprocessOutcome::CacheHit(d) => PreprocessOutcomeV::CacheHit(d@),
            PreprocessOutcome::NeedsTransform(k) => PreprocessOutcomeV::NeedsTransform(*k),
        }
    }
}

/// What the preprocessor yields for given inputs against a given cache state.
pub open spec fn spec_preprocess(
    cache: Map<u64, Seq<u8>>,
    path: Seq<char>,
    data: Seq<u8>,
    meta: AssetMetaV,
) -> PreprocessOutcomeV {
    if meta == AssetMetaV::NoTransform {
        PreprocessOutcomeV::PassThrough(data)
    } else {
        let key = spec_cache_key(path, data, meta);
        if cache.contains_key(key) {
            PreprocessOutcomeV::CacheHit(cache[key])
        } else {
            PreprocessOutcomeV::NeedsTransform(key)
        }
    }
}

/// Consult the cache for one `(path, bytes, metadata)` triple: a pass-through
/// returns the bytes unchanged (and is never cached); otherwise a hit returns
/// the cached bytes and a miss names the key to store the transform's result
/// under (via `TransformCache::store`).
pub fn preprocess(cache: &TransformCache, path: &String, data: Vec<u8>, meta: &AssetMeta) -> (r:
    PreprocessOutcome)
    requires
        cache.wf(),
    ensures
        r@ == spec_preprocess(cache@, path@, data@, meta@),
{
    match meta {
        AssetMeta::NoTransform => PreprocessOutcome::PassThrough(data),
        AssetMeta::TextureMeta(_) => {
            let key = compute_key(path, &data, meta);
            match cache.lookup(key) {
                Option::Some(cached) => {
                    let mut copy: Vec<u8> = Vec::new();
                    copy.extend_from_slice(cached.as_slice());
                    proof {
                        assert(copy@ =~= cache@[key]);
                    }
                    PreprocessOutcome::CacheHit(copy)
                },
                Option::None => PreprocessOutcome::NeedsTransform(key),
            }
        },
    }
}

/// Cache idempotence: once the transform result `t` for a triple is stored
/// under that triple's key, running the preprocessor again on the identical
/// triple is a cache hit returning exactly `t` — the expensive transform is
/// never asked for a second time.
pub proof fn lemma_preprocess_idempotent(
    cache: Map<u64, Seq<u8>>,
    path: Seq<char>,
    data: Seq<u8>,
    meta: AssetMetaV,
    t: Seq<u8>,
)
    requires
        meta != AssetMetaV::NoTransform,
    ensures
        spec_preprocess(
            cache.insert(spec_cache_key(path, data, meta), t),
            path,
            data,
            meta,
        ) == PreprocessOutcomeV::CacheHit(t),
{
}

} // verus!
