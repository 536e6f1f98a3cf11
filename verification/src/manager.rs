//! Runtime asset management: typed failures, versioned asset references and
//! the asset manager's streaming state machine.
//!
//! The manager tracks a pending-task counter (one per in-flight shard fetch,
//! plus one for the static shard issued at creation), a registry of versioned
//! asset references that only ever grows, the consumed shards and the decoded
//! static shard. The outside work — fetching bytes from disk or network and
//! scheduling tasks — happens elsewhere; its results are handed back through
//! the `complete_*` methods, whose contracts hold for every outcome.

use vstd::prelude::*;
use crate::asset::{parse, spec_parse_file, Asset, AssetV};
use crate::shard::{spec_decode, Shard, ShardFile, ShardFileV, ShardV};
use crate::static_shard::{enc_static_body, spec_decode_static, static_fits, StaticShard, StaticShardV};
use crate::strutil::str_eq;
use crate::trusted::zstd_frame;

verus! {

/// A typed failure surfaced by the cache, codec and streaming layers.
#[derive(Debug)]
pub struct AssetError {
    pub message: String,
}

impl AssetError {
    pub fn new(message: &str) -> (r: AssetError)
        ensures
            r.message@ == message@,
    {
        AssetError { message: message.to_owned() }
    }

    /// The human-readable description of the failure.
    pub fn message(&self) -> (r: &str)
        ensures
            r@ == self.message@,
    {
        self.message.as_str()
    }
}

// ------------------------------------------------------------ asset reference

/// A long-lived handle through which consumers observe an asset's current
/// value: the value, and a version counter that never decreases.
pub struct AssetReference {
    asset: Asset,
    runtime_version: u32,
}

/// Mathematical model of an asset reference.
#[verifier::ext_equal]
pub struct AssetRefV {
    pub asset: AssetV,
    pub version: u32,
}

impl View for AssetReference {
    type V = AssetRefV;

    closed spec fn view(&self) -> AssetRefV {
        AssetRefV { asset: self.asset@, version: self.runtime_version }
    }
}

/// A version bump that sticks at the counter's ceiling instead of wrapping,
/// so versions never decrease.
pub open spec fn sat_inc(v: u32) -> u32 {
    if v == u32::MAX {
        v
    } else {
        (v + 1) as u32
    }
}

/// Saturating addition on versions.
pub open spec fn sat_add(v: u32, amount: u32) -> u32 {
    if v + amount > u32::MAX {
        u32::MAX
    } else {
        (v + amount) as u32
    }
}

impl AssetReference {
    /// A fresh reference at version zero.
    pub fn new(asset: Asset) -> (r: AssetReference)
        ensures
            r@.asset == asset@,
            r@.version == 0,
    {
        AssetReference { asset, runtime_version: 0 }
    }

    /// The current asset value.
    pub fn get_asset(&self) -> (r: &Asset)
        ensures
            r@ == self@.asset,
    {
        &self.asset
    }

    /// The current version.
    pub fn get_version(&self) -> (r: u32)
        ensures
            r == self@.version,
    {
        self.runtime_version
    }

    /// Raise the version by `amount`, saturating at the ceiling.
    pub fn increment_version(&mut self, amount: u32)
        ensures
            final(self)@.version == sat_add(old(self)@.version, amount),
            final(self)@.asset == old(self)@.asset,
    {
        if amount > u32::MAX - self.runtime_version {
            self.runtime_version = u32::MAX;
        } else {
            self.runtime_version = self.runtime_version + amount;
        }
    }

    /// Replace the payload and bump the version.
    pub fn update(&mut self, asset: Asset)
        ensures
            final(self)@.asset == asset@,
            final(self)@.version == sat_inc(old(self)@.version),
    {
        self.asset = asset;
        if self.runtime_version < u32::MAX {
            self.runtime_version = self.runtime_version + 1;
        }
    }
}

// ------------------------------------------------------------ consumed shards

/// A shard after its consume step: its name, the names of the assets it
/// published, and whether the rendering hand-off has run for it.
pub struct ConsumedShard {
    pub name: String,
    pub asset_names: Vec<String>,
    pub is_initialized: bool,
}

/// Mathematical model of a consumed shard.
#[verifier::ext_equal]
pub struct ConsumedShardV {
    pub name: Seq<char>,
    pub asset_names: Seq<Seq<char>>,
    pub is_initialized: bool,
}

impl View for ConsumedShard {
    type V = ConsumedShardV;

    open spec fn view(&self) -> ConsumedShardV {
        ConsumedShardV {
            name: self.name@,
            asset_names: self.asset_names.deep_view(),
            is_initialized: self.is_initialized,
        }
    }
}

// ------------------------------------------------------- publish transitions

/// One registry entry: an asset name and its reference.
pub type RefEntryV = (Seq<char>, AssetRefV);

/// The first registry index carrying `name`, if any.
pub open spec fn spec_find_ref(refs: Seq<RefEntryV>, name: Seq<char>) -> Option<int>
    decreases refs.len(),
{
    if refs.len() == 0 {
        None
    } else if refs[0].0 == name {
        Some(0)
    } else {
        match spec_find_ref(refs.drop_first(), name) {
            Option::None => None,
            Option::Some(j) => Some(j + 1),
        }
    }
}

/// Publishing one `(name, value)` pair: an existing reference is updated in
/// place with its version bumped; otherwise a fresh reference enters at
/// version zero.
pub open spec fn spec_publish_one(refs: Seq<RefEntryV>, name: Seq<char>, a: AssetV) -> Seq<
    RefEntryV,
> {
    match spec_find_ref(refs, name) {
        Option::Some(j) => refs.update(
            j,
            (refs[j].0, AssetRefV { asset: a, version: sat_inc(refs[j].1.version) }),
        ),
        Option::None => refs.push((name, AssetRefV { asset: a, version: 0 })),
    }
}

/// Publishing a list of `(name, value)` pairs, in order.
pub open spec fn spec_publish(refs: Seq<RefEntryV>, items: Seq<(Seq<char>, AssetV)>) -> Seq<
    RefEntryV,
>
    decreases items.len(),
{
    if items.len() == 0 {
        refs
    } else {
        spec_publish(spec_publish_one(refs, items[0].0, items[0].1), items.drop_first())
    }
}

/// The value the last completed publish of `name` carried, if any.
pub open spec fn last_published(items: Seq<(Seq<char>, AssetV)>, name: Seq<char>) -> Option<AssetV>
    decreases items.len(),
{
    if items.len() == 0 {
        None
    } else {
        match last_published(items.drop_first(), name) {
            Option::Some(a) => Some(a),
            Option::None => {
                if items[0].0 == name {
                    Some(items[0].1)
                } else {
                    None
                }
            },
        }
    }
}

proof fn lemma_find_ref_range(refs: Seq<RefEntryV>, name: Seq<char>)
    ensures
        match spec_find_ref(refs, name) {
            Option::Some(j) => 0 <= j < refs.len() && refs[j].0 == name,
            Option::None => forall|i: int| 0 <= i < refs.len() ==> (#[trigger] refs[i]).0 != name,
        },
    decreases refs.len(),
{
    if refs.len() > 0 {
        lemma_find_ref_range(refs.drop_first(), name);
        if refs[0].0 != name {
            match spec_find_ref(refs.drop_first(), name) {
                Option::Some(j) => {
                    assert(refs.drop_first()[j] == refs[j + 1]);
                },
                Option::None => {
                    assert forall|i: int| 0 <= i < refs.len() implies (#[trigger] refs[i]).0
                        != name by {
                        if i > 0 {
                            assert(refs.drop_first()[i - 1] == refs[i]);
                        }
                    }
                },
            }
        }
    }
}

proof fn lemma_publish_one_shape(refs: Seq<RefEntryV>, name: Seq<char>, a: AssetV)
    ensures
        ({
            let res = spec_publish_one(refs, name, a);
            &&& res.len() >= refs.len()
            &&& forall|i: int|
                0 <= i < refs.len() ==> (#[trigger] res[i]).0 == refs[i].0 && res[i].1.version
                    >= refs[i].1.version
            &&& forall|i: int|
                0 <= i < refs.len() && refs[i].0 != name ==> (#[trigger] res[i]) == refs[i]
        }),
{
    lemma_find_ref_range(refs, name);
}

/// Version monotonicity: publishing any list of values never lowers any
/// existing reference's version, never renames an entry and never removes one.
pub proof fn lemma_publish_version_monotonic(refs: Seq<RefEntryV>, items: Seq<(Seq<char>, AssetV)>)
    ensures
        ({
            let res = spec_publish(refs, items);
            &&& res.len() >= refs.len()
            &&& forall|i: int|
                0 <= i < refs.len() ==> (#[trigger] res[i]).0 == refs[i].0 && res[i].1.version
                    >= refs[i].1.version
        }),
    decreases items.len(),
{
    if items.len() > 0 {
        let mid = spec_publish_one(refs, items[0].0, items[0].1);
        lemma_publish_one_shape(refs, items[0].0, items[0].1);
        lemma_publish_version_monotonic(mid, items.drop_first());
    }
}

proof fn lemma_publish_one_found(refs: Seq<RefEntryV>, name: Seq<char>, a: AssetV)
    ensures
        ({
            let res = spec_publish_one(refs, name, a);
            match spec_find_ref(res, name) {
                Option::Some(j) => res[j].1.asset == a,
                Option::None => false,
            }
        }),
    decreases refs.len(),
{
    lemma_find_ref_range(refs, name);
    let res = spec_publish_one(refs, name, a);
    match spec_find_ref(refs, name) {
        Option::Some(j) => {
            lemma_find_ref_update(refs, j, (refs[j].0, AssetRefV {
                asset: a,
                version: sat_inc(refs[j].1.version),
            }), name);
        },
        Option::None => {
            lemma_find_ref_push_new(refs, name, AssetRefV { asset: a, version: 0 });
        },
    }
}

proof fn lemma_find_ref_update(refs: Seq<RefEntryV>, j: int, e: RefEntryV, name: Seq<char>)
    requires
        0 <= j < refs.len(),
        spec_find_ref(refs, name) == Some(j),
        e.0 == refs[j].0,
        refs[j].0 == name,
    ensures
        spec_find_ref(refs.update(j, e), name) == Some(j),
    decreases refs.len(),
{
    if j == 0 {
        assert(refs.update(0, e)[0].0 == name);
    } else {
        assert(refs[0].0 != name);
        assert(refs.update(j, e)[0] == refs[0]);
        assert(refs.update(j, e).drop_first() =~= refs.drop_first().update(j - 1, e));
        assert(spec_find_ref(refs.drop_first(), name) == Some(j - 1)) by {
            lemma_find_ref_range(refs.drop_first(), name);
        }
        assert(refs.drop_first()[j - 1] == refs[j]);
        lemma_find_ref_update(refs.drop_first(), j - 1, e, name);
    }
}

proof fn lemma_find_ref_push_new(refs: Seq<RefEntryV>, name: Seq<char>, r: AssetRefV)
    requires
        spec_find_ref(refs, name) is None,
    ensures
        spec_find_ref(refs.push((name, r)), name) == Some(refs.len() as int),
    decreases refs.len(),
{
    lemma_find_ref_range(refs, name);
    let p = refs.push((name, r));
    if refs.len() == 0 {
        assert(p[0].0 == name);
    } else {
        assert(p[0] == refs[0]);
        assert(p[0].0 != name);
        assert(p.drop_first() =~= refs.drop_first().push((name, r)));
        assert(spec_find_ref(refs.drop_first(), name) is None) by {
            lemma_find_ref_range(refs.drop_first(), name);
            if spec_find_ref(refs.drop_first(), name) is Some {
                let j = spec_find_ref(refs.drop_first(), name)->Some_0;
                assert(refs.drop_first()[j] == refs[j + 1]);
            }
        }
        lemma_find_ref_push_new(refs.drop_first(), name, r);
    }
}

proof fn lemma_find_ref_other(refs: Seq<RefEntryV>, name: Seq<char>, a: AssetV, other: Seq<char>)
    requires
        other != name,
    ensures
        ({
            let res = spec_publish_one(refs, name, a);
            match spec_find_ref(res, other) {
                Option::Some(j) => spec_find_ref(refs, other) == Some(j) && res[j] == refs[j],
                Option::None => spec_find_ref(refs, other) is None,
            }
        }),
    decreases refs.len(),
{
    lemma_find_ref_range(refs, name);
    lemma_find_ref_range(refs, other);
    let res = spec_publish_one(refs, name, a);
    lemma_find_ref_range(res, other);
    match spec_find_ref(refs, name) {
        Option::Some(j) => {
            lemma_find_ref_untouched(refs, j, (refs[j].0, AssetRefV {
                asset: a,
                version: sat_inc(refs[j].1.version),
            }), other);
        },
        Option::None => {
            lemma_find_ref_push_other(refs, (name, AssetRefV { asset: a, version: 0 }), other);
        },
    }
}

proof fn lemma_find_ref_untouched(refs: Seq<RefEntryV>, j: int, e: RefEntryV, other: Seq<char>)
    requires
        0 <= j < refs.len(),
        refs[j].0 != other,
        e.0 == refs[j].0,
    ensures
        ({
            let res = refs.update(j, e);
            match spec_find_ref(res, other) {
                Option::Some(t) => spec_find_ref(refs, other) == Some(t) && res[t] == refs[t],
                Option::None => spec_find_ref(refs, other) is None,
            }
        }),
    decreases refs.len(),
{
    let res = refs.update(j, e);
    lemma_find_ref_range(refs, other);
    lemma_find_ref_range(res, other);
    if j == 0 {
        assert(res[0].0 == refs[0].0);
        if refs[0].0 == other {
        } else {
            assert(res.drop_first() =~= refs.drop_first());
        }
    } else {
        assert(res[0] == refs[0]);
        if refs[0].0 == other {
        } else {
            assert(res.drop_first() =~= refs.drop_first().update(j - 1, e));
            assert(refs.drop_first()[j - 1] == refs[j]);
            lemma_find_ref_untouched(refs.drop_first(), j - 1, e, other);
            match spec_find_ref(res.drop_first(), other) {
                Option::Some(t) => {
                    lemma_find_ref_range(res.drop_first(), other);
                    assert(res.drop_first()[t] == res[t + 1]);
                    assert(refs.drop_first()[t] == refs[t + 1]);
                },
                Option::None => {},
            }
        }
    }
}

proof fn lemma_find_ref_push_other(refs: Seq<RefEntryV>, e: RefEntryV, other: Seq<char>)
    requires
        e.0 != other,
    ensures
        ({
            let res = refs.push(e);
            match spec_find_ref(res, other) {
                Option::Some(t) => spec_find_ref(refs, other) == Some(t) && res[t] == refs[t],
                Option::None => spec_find_ref(refs, other) is None,
            }
        }),
    decreases refs.len(),
{
    let res = refs.push(e);
    if refs.len() == 0 {
        assert(res[0] == e);
        assert(res.drop_first() =~= Seq::<RefEntryV>::empty());
    } else {
        assert(res[0] == refs[0]);
        if refs[0].0 == other {
        } else {
            assert(res.drop_first() =~= refs.drop_first().push(e));
            lemma_find_ref_push_other(refs.drop_first(), e, other);
            match spec_find_ref(res.drop_first(), other) {
                Option::Some(t) => {
                    lemma_find_ref_range(res.drop_first(), other);
                    assert(res.drop_first()[t] == res[t + 1]);
                    lemma_find_ref_range(refs.drop_first(), other);
                    assert(refs.drop_first()[t] == refs[t + 1]);
                },
                Option::None => {},
            }
        }
    }
}

/// Last writer wins: after publishing a list, the reference registered under
/// a name carries the value of the last item published under that name; a
/// name the list never touched keeps its entry unchanged.
pub proof fn lemma_publish_last_value(
    refs: Seq<RefEntryV>,
    items: Seq<(Seq<char>, AssetV)>,
    name: Seq<char>,
)
    ensures
        ({
            let res = spec_publish(refs, items);
            match last_published(items, name) {
                Option::Some(a) => (match spec_find_ref(res, name) {
                    Option::Some(j) => res[j].1.asset == a,
                    Option::None => false,
                }),
                Option::None => (match spec_find_ref(res, name) {
                    Option::Some(j) => spec_find_ref(refs, name) == Some(j) && res[j] == refs[j],
                    Option::None => spec_find_ref(refs, name) is None,
                }),
            }
        }),
    decreases items.len(),
{
    if items.len() == 0 {
        lemma_find_ref_range(refs, name);
    } else {
        let mid = spec_publish_one(refs, items[0].0, items[0].1);
        lemma_publish_last_value(mid, items.drop_first(), name);
        match last_published(items.drop_first(), name) {
            Option::Some(a) => {},
            Option::None => {
                if items[0].0 == name {
                    lemma_publish_one_found(refs, name, items[0].1);
                } else {
                    lemma_find_ref_other(refs, items[0].0, items[0].1, name);
                }
            },
        }
    }
}

// ------------------------------------------------------ pending-task counter

/// The pending-task counter after `k` task completions, each releasing one.
pub open spec fn pending_after(p: nat, k: nat) -> nat
    decreases k,
{
    if k == 0 {
        p
    } else {
        let q = pending_after(p, (k - 1) as nat);
        if q > 0 {
            (q - 1) as nat
        } else {
            0
        }
    }
}

/// Pending-task convergence: after requesting `n` shards (which raises the
/// counter by `n`) and completing all `n` resulting tasks — successfully or
/// not, each completion releases exactly one — the counter is back at its
/// baseline.
pub proof fn lemma_pending_convergence(baseline: nat, n: nat)
    ensures
        pending_after(baseline + n, n) == baseline,
    decreases n,
{
    if n > 0 {
        lemma_pending_convergence_helper(baseline, n, (n - 1) as nat);
    }
}

proof fn lemma_pending_convergence_helper(baseline: nat, n: nat, k: nat)
    requires
        k <= n,
    ensures
        pending_after(baseline + n, k) == baseline + n - k,
    decreases k,
{
    if k > 0 {
        lemma_pending_convergence_helper(baseline, n, (k - 1) as nat);
    }
}

// ------------------------------------------------------------- asset manager

/// The streaming asset manager's state.
pub struct AssetManager {
    pending_tasks: u64,
    refs: Vec<(String, AssetReference)>,
    shards: Vec<ConsumedShard>,
    static_shard: Option<StaticShard>,
}

/// Mathematical model of the manager.
#[verifier::ext_equal]
pub struct AssetManagerV {
    pub pending: u64,
    pub refs: Seq<RefEntryV>,
    pub shards: Seq<ConsumedShardV>,
    pub static_shard: Option<StaticShardV>,
}

impl View for AssetManager {
    type V = AssetManagerV;

    closed spec fn view(&self) -> AssetManagerV {
        AssetManagerV {
            pending: self.pending_tasks,
            refs: self.refs@.map_values(|e: (String, AssetReference)| (e.0@, e.1@)),
            shards: self.shards@.map_values(|s: ConsumedShard| s@),
            static_shard: match self.static_shard {
                Option::Some(ref s) => Some(s@),
                Option::None => None,
            },
        }
    }
}

impl AssetManager {
    /// A fresh manager. The counter starts at one: the caller owes it the
    /// completion of the static shard's fetch (`complete_static_shard`),
    /// issued from `shards/static.shard`.
    pub fn new() -> (r: AssetManager)
        ensures
            r@.pending == 1,
            r@.refs == Seq::<RefEntryV>::empty(),
            r@.shards == Seq::<ConsumedShardV>::empty(),
            r@.static_shard is None,
    {
        let r = AssetManager {
            pending_tasks: 1,
            refs: Vec::new(),
            shards: Vec::new(),
            static_shard: None,
        };
        proof {
            assert(r@.refs =~= Seq::<RefEntryV>::empty());
            assert(r@.shards =~= Seq::<ConsumedShardV>::empty());
        }
        r
    }

    /// The number of fetch/consume tasks still in flight.
    pub fn pending_tasks(&self) -> (r: u64)
        ensures
            r == self@.pending,
    {
        self.pending_tasks
    }

    /// The number of registered asset references.
    pub fn ref_count(&self) -> (r: usize)
        ensures
            r == self@.refs.len(),
    {
        self.refs.len()
    }

    /// The name a reference handle is registered under.
    pub fn ref_name(&self, handle: usize) -> (r: &str)
        requires
            handle < self@.refs.len(),
        ensures
            r@ == self@.refs[handle as int].0,
    {
        self.refs[handle].0.as_str()
    }

    /// A reference's current version.
    pub fn ref_version(&self, handle: usize) -> (r: u32)
        requires
            handle < self@.refs.len(),
        ensures
            r == self@.refs[handle as int].1.version,
    {
        self.refs[handle].1.get_version()
    }

    /// A reference's current asset value.
    pub fn ref_asset(&self, handle: usize) -> (r: &Asset)
        requires
            handle < self@.refs.len(),
        ensures
            r@ == self@.refs[handle as int].1.asset,
    {
        self.refs[handle].1.get_asset()
    }

    /// The decoded static shard, once its fetch completed successfully.
    pub fn static_shard(&self) -> (r: Option<&StaticShard>)
        ensures
            match r {
                Some(s) => self@.static_shard == Some(s@),
                None => self@.static_shard is None,
            },
    {
        match self.static_shard {
            Option::Some(ref s) => Some(s),
            Option::None => None,
        }
    }

    /// Register the outcome of the static shard's fetch: a successful fetch
    /// is decoded and stored, any outcome releases the pending task.
    pub fn complete_static_shard(&mut self, fetched: Option<Vec<u8>>)
        requires
            old(self)@.pending >= 1,
        ensures
            final(self)@.pending == old(self)@.pending - 1,
            final(self)@.refs == old(self)@.refs,
            final(self)@.shards == old(self)@.shards,
            match fetched {
                Option::None => final(self)@.static_shard == old(self)@.static_shard,
                Option::Some(b) => (match spec_decode_static(b@) {
                    Option::Some(sv) => final(self)@.static_shard == Some(sv),
                    Option::None => final(self)@.static_shard == old(self)@.static_shard,
                }),
            },
            forall|sv: StaticShardV, level: int, lm: bool|
                (fetched matches Some(b) && static_fits(sv) && b@ == #[trigger] zstd_frame(
                    enc_static_body(sv),
                    level,
                    lm,
                )) ==> final(self)@.static_shard == Some(sv),
    {
        match fetched {
            Option::Some(bytes) => {
                match StaticShard::decode(&bytes) {
                    Result::Ok(s) => {
                        self.static_shard = Some(s);
                    },
                    Result::Err(_) => {},
                }
            },
            Option::None => {},
        }
        self.pending_tasks = self.pending_tasks - 1;
    }

    /// Ask for a set of shards by name: the pending-task counter rises by one
    /// per shard before any work is issued, and the returned paths
    /// (`shards/<name>.shard`) are what the caller must fetch; each fetch's
    /// outcome comes back through `complete_shard_fetch`.
    pub fn request_shards(&mut self, shards: Vec<String>) -> (paths: Vec<String>)
        requires
            old(self)@.pending + shards@.len() <= u64::MAX,
        ensures
            final(self)@.pending == old(self)@.pending + shards@.len(),
            final(self)@.refs == old(self)@.refs,
            final(self)@.shards == old(self)@.shards,
            final(self)@.static_shard == old(self)@.static_shard,
            paths@.len() == shards@.len(),
            forall|i: int|
                0 <= i < shards@.len() ==> (#[trigger] paths.deep_view()[i]) == "shards/"@
                    + shards.deep_view()[i] + ".shard"@,
    {
        self.pending_tasks = self.pending_tasks + (shards.len() as u64);
        let mut paths: Vec<String> = Vec::new();
        let n = shards.len();
        let mut i: usize = 0;
        while i < n
            invariant
                n == shards@.len(),
                0 <= i <= n,
                paths@.len() == i,
                forall|k: int|
                    0 <= k < i ==> (#[trigger] paths.deep_view()[k]) == "shards/"@
                        + shards.deep_view()[k] + ".shard"@,
            decreases n - i,
        {
            let mut path = String::new();
            path.append("shards/");
            path.append(shards[i].as_str());
            path.append(".shard");
            let ghost pathv = path@;
            let ghost pv = paths.deep_view();
            proof {
                assert(pathv =~= "shards/"@ + shards.deep_view()[i as int] + ".shard"@);
            }
            paths.push(path);
            proof {
                assert(paths.deep_view() =~= pv.push(pathv));
            }
            i = i + 1;
        }
        paths
    }

    /// Publish a list of parsed `(name, value)` pairs into the reference
    /// registry, in order: an existing reference is updated in place with its
    /// version bumped, a new name enters at version zero.
    pub fn publish_assets(&mut self, items: Vec<(String, Asset)>)
        ensures
            final(self)@.refs == spec_publish(
                old(self)@.refs,
                items@.map_values(|p: (String, Asset)| (p.0@, p.1@)),
            ),
            final(self)@.pending == old(self)@.pending,
            final(self)@.shards == old(self)@.shards,
            final(self)@.static_shard == old(self)@.static_shard,
    {
        let mut items = items;
        let ghost items0 = items@.map_values(|p: (String, Asset)| (p.0@, p.1@));
        let ghost refs0 = self@.refs;
        let ghost pend0 = self@.pending;
        let ghost shards0 = self@.shards;
        let ghost stat0 = self@.static_shard;
        while items.len() > 0
            invariant
                spec_publish(refs0, items0) == spec_publish(
                    self@.refs,
                    items@.map_values(|p: (String, Asset)| (p.0@, p.1@)),
                ),
                self@.pending == pend0,
                self@.shards == shards0,
                self@.static_shard == stat0,
            decreases items@.len(),
        {
            let ghost items_pre = items@.map_values(|p: (String, Asset)| (p.0@, p.1@));
            let (name, value) = items.remove(0);
            proof {
                assert(items@.map_values(|p: (String, Asset)| (p.0@, p.1@)) =~= items_pre
                    .drop_first());
            }
            self.publish_one(name, value);
        }
        proof {
            assert(items@.map_values(|p: (String, Asset)| (p.0@, p.1@)) =~= Seq::<(
                Seq<char>,
                AssetV,
            )>::empty());
        }
    }

    /// Publish one `(name, value)` pair.
    fn publish_one(&mut self, name: String, value: Asset)
        ensures
            final(self)@.refs == spec_publish_one(old(self)@.refs, name@, value@),
            final(self)@.pending == old(self)@.pending,
            final(self)@.shards == old(self)@.shards,
            final(self)@.static_shard == old(self)@.static_shard,
    {
        let ghost refs0 = self@.refs;
        let ghost pend0 = self@.pending;
        let ghost shardsg = self@.shards;
        let ghost stat0 = self@.static_shard;
        let n = self.refs.len();
        let mut i: usize = 0;
        while i < n
            invariant
                n == self.refs@.len(),
                0 <= i <= n,
                refs0 == self@.refs,
                refs0 == old(self)@.refs,
                self@.pending == pend0,
                pend0 == old(self)@.pending,
                self@.shards == shardsg,
                shardsg == old(self)@.shards,
                self@.static_shard == stat0,
                stat0 == old(self)@.static_shard,
                forall|k: int| 0 <= k < i ==> (#[trigger] refs0[k]).0 != name@,
            decreases n - i,
        {
            if str_eq(self.refs[i].0.as_str(), name.as_str()) {
                let version = self.refs[i].1.get_version();
                let bumped = if version < u32::MAX {
                    version + 1
                } else {
                    version
                };
                let stored = AssetReference { asset: value, runtime_version: bumped };
                let ghost sv = stored@;
                self.refs.set(i, (name, stored));
                proof {
                    lemma_find_ref_first(refs0, name@, i as int);
                    assert(self@.refs =~= refs0.update(i as int, (name@, sv)));
                    assert(refs0.update(i as int, (name@, sv)) =~= refs0.update(
                        i as int,
                        (refs0[i as int].0, sv),
                    ));
                }
                return ;
            }
            i = i + 1;
        }
        let fresh = AssetReference { asset: value, runtime_version: 0 };
        let ghost fv = fresh@;
        self.refs.push((name, fresh));
        proof {
            lemma_find_ref_none(refs0, name@);
            assert(self@.refs =~= refs0.push((name@, fv)));
        }
    }

    /// Register the outcome of one shard fetch. A fetched shard that decodes
    /// and whose files all parse has its assets published, in file order, and
    /// the consumed shard recorded; on any failure — a failed fetch, a
    /// malformed container, an unparsable file — the registry and the shard
    /// list stay as they were. Either way exactly one pending task is
    /// released, and no registered reference ever loses a version.
    pub fn complete_shard_fetch(&mut self, fetched: Option<Vec<u8>>)
        requires
            old(self)@.pending >= 1,
        ensures
            final(self)@.pending == old(self)@.pending - 1,
            final(self)@.static_shard == old(self)@.static_shard,
            final(self)@.refs.len() >= old(self)@.refs.len(),
            forall|i: int|
                0 <= i < old(self)@.refs.len() ==> (#[trigger] final(self)@.refs[i]).0 == old(
                    self,
                )@.refs[i].0 && final(self)@.refs[i].1.version >= old(self)@.refs[i].1.version,
            final(self)@.shards.len() >= old(self)@.shards.len(),
            forall|i: int|
                0 <= i < old(self)@.shards.len() ==> (#[trigger] final(self)@.shards[i]) == old(
                    self,
                )@.shards[i],
            forall|sv: ShardV, level: int, lm: bool|
                (fetched matches Some(b) && crate::shard::shard_fits(sv) && b@
                    == #[trigger] zstd_frame(crate::shard::enc_shard_body(sv), level, lm)
                    && shard_files_parse(sv.assets)) ==> final(self)@.refs == spec_publish(
                    old(self)@.refs,
                    parsed_items(sv.assets),
                ) && final(self)@.shards == old(self)@.shards.push(consumed_record(sv)),
            match fetched {
                Option::None => final(self)@.refs == old(self)@.refs && final(self)@.shards == old(
                    self,
                )@.shards,
                Option::Some(b) => (match spec_decode(b@) {
                    Option::None => final(self)@.refs == old(self)@.refs && final(self)@.shards
                        == old(self)@.shards,
                    Option::Some(sv) => {
                        if shard_files_parse(sv.assets) {
                            &&& final(self)@.refs == spec_publish(
                                old(self)@.refs,
                                parsed_items(sv.assets),
                            )
                            &&& final(self)@.shards == old(self)@.shards.push(consumed_record(sv))
                        } else {
                            &&& final(self)@.refs == old(self)@.refs
                            &&& final(self)@.shards == old(self)@.shards
                        }
                    },
                }),
            },
    {
        let bytes = match fetched {
            Option::Some(b) => b,
            Option::None => {
                self.pending_tasks = self.pending_tasks - 1;
                return ;
            },
        };
        let shard = match Shard::decode(&bytes) {
            Result::Ok(s) => s,
            Result::Err(_) => {
                self.pending_tasks = self.pending_tasks - 1;
                return ;
            },
        };
        match consume_shard(&shard) {
            Option::Some((items, asset_names)) => {
                let ghost items_v = items@.map_values(|p: (String, Asset)| (p.0@, p.1@));
                let ghost refs0 = self@.refs;
                self.publish_assets(items);
                proof {
                    lemma_publish_version_monotonic(refs0, items_v);
                }
                let ghost shards0 = self@.shards;
                let record = ConsumedShard {
                    name: shard.get_name().to_owned(),
                    asset_names,
                    is_initialized: false,
                };
                let ghost rv = record@;
                self.shards.push(record);
                proof {
                    assert(self@.shards =~= shards0.push(rv));
                    assert(rv =~= consumed_record(shard@));
                }
            },
            Option::None => {},
        }
        self.pending_tasks = self.pending_tasks - 1;
    }

    /// Look an asset reference up by name, creating a placeholder reference
    /// (no data yet, version zero) when none exists. The returned handle is
    /// stable: references are never removed.
    pub fn get_asset(&mut self, name: &str) -> (handle: usize)
        ensures
            handle < final(self)@.refs.len(),
            final(self)@.refs[handle as int].0 == name@,
            final(self)@.pending == old(self)@.pending,
            final(self)@.shards == old(self)@.shards,
            final(self)@.static_shard == old(self)@.static_shard,
            match spec_find_ref(old(self)@.refs, name@) {
                Option::Some(j) => final(self)@.refs == old(self)@.refs && handle == j,
                Option::None => final(self)@.refs == old(self)@.refs.push(
                    (name@, AssetRefV { asset: AssetV::NoData, version: 0 }),
                ) && handle == old(self)@.refs.len(),
            },
    {
        let ghost refs0 = self@.refs;
        let n = self.refs.len();
        let mut i: usize = 0;
        while i < n
            invariant
                n == self.refs@.len(),
                0 <= i <= n,
                refs0 == self@.refs,
                forall|k: int| 0 <= k < i ==> (#[trigger] refs0[k]).0 != name@,
            decreases n - i,
        {
            if str_eq(self.refs[i].0.as_str(), name) {
                proof {
                    lemma_find_ref_first(refs0, name@, i as int);
                }
                return i;
            }
            i = i + 1;
        }
        let fresh = AssetReference { asset: Asset::NoData, runtime_version: 0 };
        let ghost fv = fresh@;
        self.refs.push((name.to_owned(), fresh));
        proof {
            lemma_find_ref_none(refs0, name@);
            assert(self@.refs =~= refs0.push((name@, fv)));
        }
        n
    }

    /// Resolve a metadata asset's companion payload file to its reference
    /// handle. The target living in the same shard as its metadata is an
    /// authoring guarantee; a missing target is a fatal authoring error, not
    /// a recoverable one, and surfaces as `None` for the caller to fail on.
    pub fn resolve_target(&self, meta: &crate::asset::TextureMeta) -> (r: Option<usize>)
        ensures
            match r {
                Some(h) => h < self@.refs.len() && spec_find_ref(self@.refs, meta@.target) == Some(
                    h as int,
                ),
                None => spec_find_ref(self@.refs, meta@.target) is None,
            },
    {
        let ghost refs0 = self@.refs;
        let target = meta.get_target();
        let n = self.refs.len();
        let mut i: usize = 0;
        while i < n
            invariant
                n == self.refs@.len(),
                0 <= i <= n,
                refs0 == self@.refs,
                target@ == meta@.target,
                forall|k: int| 0 <= k < i ==> (#[trigger] refs0[k]).0 != meta@.target,
            decreases n - i,
        {
            if str_eq(self.refs[i].0.as_str(), target) {
                proof {
                    lemma_find_ref_first(refs0, meta@.target, i as int);
                }
                return Some(i);
            }
            i = i + 1;
        }
        proof {
            lemma_find_ref_none(refs0, meta@.target);
        }
        None
    }

    /// Hand every not-yet-initialized loaded shard over for rendering
    /// initialization: a no-op while any task is pending; otherwise every
    /// loaded shard is marked initialized and the names of the newly
    /// initialized ones are returned, in order, for the backend to process.
    pub fn initialize_shards(&mut self) -> (newly: Vec<String>)
        ensures
            final(self)@.pending == old(self)@.pending,
            final(self)@.refs == old(self)@.refs,
            final(self)@.static_shard == old(self)@.static_shard,
            old(self)@.pending > 0 ==> final(self)@.shards == old(self)@.shards && newly@.len()
                == 0,
            old(self)@.pending == 0 ==> {
                &&& final(self)@.shards.len() == old(self)@.shards.len()
                &&& forall|i: int|
                    0 <= i < old(self)@.shards.len() ==> (#[trigger] final(self)@.shards[i])
                        == (ConsumedShardV { is_initialized: true, ..old(self)@.shards[i] })
                &&& newly.deep_view() == old(self)@.shards.filter(
                    |s: ConsumedShardV| !s.is_initialized,
                ).map_values(|s: ConsumedShardV| s.name)
            },
    {
        let mut newly: Vec<String> = Vec::new();
        if self.pending_tasks > 0 {
            return newly;
        }
        let ghost shards0 = self@.shards;
        let ghost refs0 = self@.refs;
        let ghost pend0 = self@.pending;
        let ghost stat0 = self@.static_shard;
        let n = self.shards.len();
        let mut i: usize = 0;
        proof {
            assert(shards0.take(0) =~= Seq::<ConsumedShardV>::empty());
            assert(Seq::<ConsumedShardV>::empty().filter(|s: ConsumedShardV| !s.is_initialized)
                =~= Seq::<ConsumedShardV>::empty()) by {
                reveal(Seq::filter);
            }
        }
        while i < n
            invariant
                n == self.shards@.len(),
                0 <= i <= n,
                self@.refs == refs0,
                self@.pending == pend0,
                self@.static_shard == stat0,
                shards0.len() == n,
                forall|k: int|
                    i <= k < n ==> (#[trigger] self@.shards[k]) == shards0[k],
                forall|k: int|
                    0 <= k < i ==> (#[trigger] self@.shards[k]) == (ConsumedShardV {
                        is_initialized: true,
                        ..shards0[k]
                    }),
                newly.deep_view() == shards0.take(i as int).filter(
                    |s: ConsumedShardV| !s.is_initialized,
                ).map_values(|s: ConsumedShardV| s.name),
            decreases n - i,
        {
            let ghost before = shards0.take(i as int);
            let ghost cur = shards0[i as int];
            proof {
                assert(self@.shards[i as int] == cur);
                crate::partition::lemma_filter_push(
                    before,
                    |s: ConsumedShardV| !s.is_initialized,
                    cur,
                );
                assert(shards0.take(i + 1) =~= before.push(cur));
            }
            if !self.shards[i].is_initialized {
                let ghost newlyv = newly.deep_view();
                newly.push(self.shards[i].name.clone());
                proof {
                    assert(newly.deep_view() =~= newlyv.push(cur.name));
                    assert(before.push(cur).filter(|s: ConsumedShardV| !s.is_initialized)
                        =~= before.filter(|s: ConsumedShardV| !s.is_initialized).push(cur));
                    assert(newly.deep_view() =~= shards0.take(i + 1).filter(
                        |s: ConsumedShardV| !s.is_initialized,
                    ).map_values(|s: ConsumedShardV| s.name));
                }
                let names = crate::strutil::clone_string_vec(&self.shards[i].asset_names);
                let updated = ConsumedShard {
                    name: self.shards[i].name.clone(),
                    asset_names: names,
                    is_initialized: true,
                };
                let ghost uv = updated@;
                let ghost pre = self@.shards;
                self.shards.set(i, updated);
                proof {
                    assert(self@.shards =~= pre.update(i as int, uv));
                    assert(uv =~= (ConsumedShardV { is_initialized: true, ..shards0[i as int] }));
                }
            } else {
                proof {
                    assert(before.push(cur).filter(|s: ConsumedShardV| !s.is_initialized)
                        =~= before.filter(|s: ConsumedShardV| !s.is_initialized));
                    let ghost pre = self@.shards;
                    assert(self@.shards[i as int] == (ConsumedShardV {
                        is_initialized: true,
                        ..shards0[i as int]
                    }));
                }
            }
            i = i + 1;
        }
        proof {
            assert(shards0.take(n as int) =~= shards0);
        }
        newly
    }
}

proof fn lemma_find_ref_first(refs: Seq<RefEntryV>, name: Seq<char>, i: int)
    requires
        0 <= i < refs.len(),
        refs[i].0 == name,
        forall|k: int| 0 <= k < i ==> (#[trigger] refs[k]).0 != name,
    ensures
        spec_find_ref(refs, name) == Some(i),
    decreases refs.len(),
{
    if i == 0 {
    } else {
        assert(refs[0].0 != name);
        assert(refs.drop_first()[i - 1] == refs[i]);
        assert(forall|k: int|
            0 <= k < i - 1 ==> (#[trigger] refs.drop_first()[k]) == refs[k + 1]);
        lemma_find_ref_first(refs.drop_first(), name, i - 1);
    }
}

proof fn lemma_find_ref_none(refs: Seq<RefEntryV>, name: Seq<char>)
    requires
        forall|k: int| 0 <= k < refs.len() ==> (#[trigger] refs[k]).0 != name,
    ensures
        spec_find_ref(refs, name) is None,
{
    lemma_find_ref_range(refs, name);
    if spec_find_ref(refs, name) is Some {
        let j = spec_find_ref(refs, name)->Some_0;
        assert(refs[j].0 != name);
    }
}

/// Every file of the shard parses into a typed asset.
pub open spec fn shard_files_parse(files: Seq<ShardFileV>) -> bool {
    forall|k: int| 0 <= k < files.len() ==> spec_parse_file(#[trigger] files[k]) is Some
}

/// The `(name, asset)` pairs a shard's files parse into, in file order.
pub open spec fn parsed_items(files: Seq<ShardFileV>) -> Seq<(Seq<char>, AssetV)> {
    files.map_values(|f: ShardFileV| (f.name, spec_parse_file(f)->Some_0))
}

/// The names of a shard's files, in file order.
pub open spec fn file_names(files: Seq<ShardFileV>) -> Seq<Seq<char>> {
    files.map_values(|f: ShardFileV| f.name)
}

/// The consumed-shard record a decoded shard leaves behind.
pub open spec fn consumed_record(sv: ShardV) -> ConsumedShardV {
    ConsumedShardV { name: sv.name, asset_names: file_names(sv.assets), is_initialized: false }
}

/// Parse every file of a decoded shard into `(name, asset)` pairs, in the
/// shard's file order, with the published names alongside: exactly
/// `parsed_items` of the shard's files. The consume step succeeds exactly
/// when every file parses.
fn consume_shard(shard: &Shard) -> (r: Option<(Vec<(String, Asset)>, Vec<String>)>)
    ensures
        match r {
            Option::Some(pair) => {
                &&& shard_files_parse(shard@.assets)
                &&& pair.0@.map_values(|p: (String, Asset)| (p.0@, p.1@)) == parsed_items(
                    shard@.assets,
                )
                &&& pair.1.deep_view() == file_names(shard@.assets)
            },
            Option::None => !shard_files_parse(shard@.assets),
        },
{
    let files = shard.get_assets();
    let mut items: Vec<(String, Asset)> = Vec::new();
    let mut names: Vec<String> = Vec::new();
    let n = files.len();
    let mut i: usize = 0;
    while i < n
        invariant
            n == files@.len(),
            files@.map_values(|f: ShardFile| f@) == shard@.assets,
            0 <= i <= n,
            items@.len() == i,
            names@.len() == i,
            forall|k: int|
                0 <= k < i ==> spec_parse_file(#[trigger] shard@.assets[k]) is Some,
            items@.map_values(|p: (String, Asset)| (p.0@, p.1@)) =~= parsed_items(
                shard@.assets.take(i as int),
            ),
            names.deep_view() =~= file_names(shard@.assets.take(i as int)),
        decreases n - i,
    {
        let file: &ShardFile = &files[i];
        proof {
            assert(shard@.assets[i as int] == file@);
        }
        match parse(file) {
            Result::Ok(asset) => {
                let ghost namesv = names.deep_view();
                let ghost pairsv = items@.map_values(|p: (String, Asset)| (p.0@, p.1@));
                let ghost assetv = asset@;
                names.push(file.name.clone());
                items.push((file.name.clone(), asset));
                proof {
                    assert(spec_parse_file(file@) == Some(assetv));
                    assert(names.deep_view() =~= namesv.push(file@.name));
                    assert(items@.map_values(|p: (String, Asset)| (p.0@, p.1@)) =~= pairsv.push(
                        (file@.name, assetv),
                    ));
                    assert(shard@.assets.take(i + 1) =~= shard@.assets.take(i as int).push(
                        file@,
                    ));
                    assert(parsed_items(shard@.assets.take(i + 1)) =~= parsed_items(
                        shard@.assets.take(i as int),
                    ).push((file@.name, assetv)));
                    assert(file_names(shard@.assets.take(i + 1)) =~= file_names(
                        shard@.assets.take(i as int),
                    ).push(file@.name));
                }
            },
            Result::Err(_) => {
                proof {
                    assert(spec_parse_file(shard@.assets[i as int]) is None);
                }
                return None;
            },
        }
        i = i + 1;
    }
    proof {
        assert(shard@.assets.take(n as int) =~= shard@.assets);
    }
    Some((items, names))
}

} // verus!
