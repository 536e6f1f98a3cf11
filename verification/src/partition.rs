//! The shard partitioner: splits per-scene required-asset lists into
//! non-overlapping candidate shards, extracting assets shared by several
//! scenes into shards of their own, and derives each shard's content-derived
//! name and each scene's shard-requirement list.

use vstd::prelude::*;
use crate::codec::enc_str_list;
use crate::hashing::{fnv1a, hex_chars, fnv1a_hash, hex_string};
use crate::scene::{Scene, SceneV};
use crate::scripting::ScriptingSource;
use crate::static_shard::StaticShard;
use crate::strutil::{clone_string_vec, string_eq, vec_contains_string};
use crate::Preferences;

verus! {

/// A candidate shard while partitioning: an asset set, whether it was seeded
/// directly from a scene, and the scenes depending on it.
pub struct Shard {
    pub assets: Vec<String>,
    pub is_root: bool,
    pub dependents: Vec<String>,
    pub name: String,
}

/// Mathematical model of a candidate shard.
#[verifier::ext_equal]
pub struct CandV {
    pub assets: Seq<Seq<char>>,
    pub is_root: bool,
    pub dependents: Seq<Seq<char>>,
    pub name: Seq<char>,
}

impl View for Shard {
    type V = CandV;

    open spec fn view(&self) -> CandV {
        CandV {
            assets: self.assets.deep_view(),
            is_root: self.is_root,
            dependents: self.dependents.deep_view(),
            name: self.name@,
        }
    }
}

/// The candidate models of a candidate list.
pub open spec fn cands(v: Seq<Shard>) -> Seq<CandV> {
    v.map_values(|s: Shard| s@)
}

// ---------------------------------------------------------- spec predicates

/// Elements of `a` that also occur in `b`, in `a`'s order.
pub open spec fn seq_intersect(a: Seq<Seq<char>>, b: Seq<Seq<char>>) -> Seq<Seq<char>> {
    a.filter(|x: Seq<char>| b.contains(x))
}

/// Elements of `a` that do not occur in `b`, in `a`'s order.
pub open spec fn seq_subtract(a: Seq<Seq<char>>, b: Seq<Seq<char>>) -> Seq<Seq<char>> {
    a.filter(|x: Seq<char>| !b.contains(x))
}

/// No element occurs in both `a` and `b`.
pub open spec fn seqs_disjoint(a: Seq<Seq<char>>, b: Seq<Seq<char>>) -> bool {
    forall|x: Seq<char>| a.contains(x) ==> !b.contains(x)
}

/// All elements distinct.
pub open spec fn distinct_seq(s: Seq<Seq<char>>) -> bool {
    forall|i: int, j: int| 0 <= i < j < s.len() ==> s[i] != s[j]
}

/// Some candidate holds asset `x` with scene `s` among its dependents.
pub open spec fn covers(cs: Seq<CandV>, x: Seq<char>, s: Seq<char>) -> bool {
    exists|i: int|
        0 <= i < cs.len() && (#[trigger] cs[i]).assets.contains(x) && cs[i].dependents.contains(s)
}

/// Some candidate holds asset `x`.
pub open spec fn in_universe(cs: Seq<CandV>, x: Seq<char>) -> bool {
    exists|i: int| 0 <= i < cs.len() && (#[trigger] cs[i]).assets.contains(x)
}

/// Every candidate's asset list is duplicate-free.
pub open spec fn all_assets_distinct(cs: Seq<CandV>) -> bool {
    forall|i: int| 0 <= i < cs.len() ==> distinct_seq((#[trigger] cs[i]).assets)
}

/// Every root candidate still has exactly its seeding scene as dependent.
pub open spec fn roots_single(cs: Seq<CandV>) -> bool {
    forall|i: int| 0 <= i < cs.len() && (#[trigger] cs[i]).is_root ==> cs[i].dependents.len() == 1
}

/// No asset occurs in two distinct candidates.
pub open spec fn pairwise_disjoint(cs: Seq<CandV>) -> bool {
    forall|i: int, j: int|
        0 <= i < cs.len() && 0 <= j < cs.len() && i != j ==> seqs_disjoint(
            (#[trigger] cs[i]).assets,
            (#[trigger] cs[j]).assets,
        )
}

/// Candidate `j` holds asset `x` for scene `s`.
pub open spec fn covers_at(cs: Seq<CandV>, j: int, x: Seq<char>, s: Seq<char>) -> bool {
    cs[j].assets.contains(x) && cs[j].dependents.contains(s)
}

/// No `(asset, scene)` pair is held by two distinct candidates.
pub open spec fn covers_once(cs: Seq<CandV>) -> bool {
    forall|a: int, b: int, x: Seq<char>, s: Seq<char>|
        0 <= a < cs.len() && 0 <= b < cs.len() && a != b ==> !(#[trigger] covers_at(cs, a, x, s)
            && #[trigger] covers_at(cs, b, x, s))
}

/// The dependent lists are well formed throughout the partitioning: a
/// candidate is a root exactly when it has a single dependent, dependents are
/// nonempty duplicate-free lists drawn from `names` (the scene names), and no
/// `(asset, scene)` pair is held twice.
pub open spec fn dependents_wf(cs: Seq<CandV>, names: Seq<Seq<char>>) -> bool {
    &&& forall|j: int|
        0 <= j < cs.len() ==> ((#[trigger] cs[j]).is_root <==> cs[j].dependents.len() == 1)
    &&& forall|j: int| 0 <= j < cs.len() ==> (#[trigger] cs[j]).dependents.len() >= 1
    &&& forall|j: int| 0 <= j < cs.len() ==> distinct_seq((#[trigger] cs[j]).dependents)
    &&& forall|j: int, d: Seq<char>|
        0 <= j < cs.len() && #[trigger] cs[j].dependents.contains(d) ==> names.contains(d)
    &&& covers_once(cs)
}

/// The names of the scenes, in order.
pub open spec fn scene_names(reqs: Seq<SceneV>) -> Seq<Seq<char>> {
    reqs.map_values(|r: SceneV| r.name)
}

/// The content-derived name of an asset list: the hexadecimal FNV-1a hash of
/// its serialized form. Order-sensitive over the list.
pub open spec fn spec_shard_name(assets: Seq<Seq<char>>) -> Seq<char> {
    hex_chars(fnv1a(enc_str_list(assets)))
}

// ------------------------------------------------------------- filter lemmas

pub proof fn lemma_filter_push<A>(s: Seq<A>, pred: spec_fn(A) -> bool, x: A)
    ensures
        s.push(x).filter(pred) == (if pred(x) {
            s.filter(pred).push(x)
        } else {
            s.filter(pred)
        }),
{
    reveal(Seq::filter);
    assert(s.push(x).drop_last() =~= s);
    assert(s.push(x).last() == x);
}

// -------------------------------------------------------- counting the assets

/// The total number of asset entries across all candidates; the measure that
/// shrinks with every dedup step.
pub open spec fn total_assets(cs: Seq<CandV>) -> nat
    decreases cs.len(),
{
    if cs.len() == 0 {
        0
    } else {
        total_assets(cs.drop_last()) + cs.last().assets.len()
    }
}

proof fn lemma_total_assets_push(cs: Seq<CandV>, c: CandV)
    ensures
        total_assets(cs.push(c)) == total_assets(cs) + c.assets.len(),
{
    assert(cs.push(c).drop_last() =~= cs);
    assert(cs.push(c).last() == c);
}

proof fn lemma_total_assets_update(cs: Seq<CandV>, j: int, c: CandV)
    requires
        0 <= j < cs.len(),
    ensures
        total_assets(cs.update(j, c)) + cs[j].assets.len() == total_assets(cs) + c.assets.len(),
    decreases cs.len(),
{
    let upd = cs.update(j, c);
    if j == cs.len() - 1 {
        assert(upd.drop_last() =~= cs.drop_last());
        assert(upd.last() == c);
    } else {
        assert(upd.drop_last() =~= cs.drop_last().update(j, c));
        assert(upd.last() == cs.last());
        lemma_total_assets_update(cs.drop_last(), j, c);
    }
}

/// Filtering a list splits its length between the kept and the dropped part.
proof fn lemma_subtract_intersect_len(a: Seq<Seq<char>>, b: Seq<Seq<char>>)
    ensures
        seq_subtract(a, b).len() + seq_intersect(a, b).len() == a.len(),
    decreases a.len(),
{
    reveal(Seq::filter);
    if a.len() == 0 {
    } else {
        assert(seq_subtract(a, b) == (if !b.contains(a.last()) {
            seq_subtract(a.drop_last(), b).push(a.last())
        } else {
            seq_subtract(a.drop_last(), b)
        }));
        assert(seq_intersect(a, b) == (if b.contains(a.last()) {
            seq_intersect(a.drop_last(), b).push(a.last())
        } else {
            seq_intersect(a.drop_last(), b)
        }));
        lemma_subtract_intersect_len(a.drop_last(), b);
    }
}

/// Two duplicate-free lists with the same members have the same length.
proof fn lemma_distinct_same_members_len(s1: Seq<Seq<char>>, s2: Seq<Seq<char>>)
    requires
        distinct_seq(s1),
        distinct_seq(s2),
        forall|x: Seq<char>| s1.contains(x) <==> s2.contains(x),
    ensures
        s1.len() == s2.len(),
    decreases s1.len(),
{
    if s1.len() == 0 {
        if s2.len() > 0 {
            assert(s1.contains(s2[0]));
        }
    } else {
        let x = s1.last();
        assert(s1.contains(x)) by {
            assert(s1[s1.len() - 1] == x);
        }
        let k = choose|k: int| 0 <= k < s2.len() && s2[k] == x;
        let s1p = s1.drop_last();
        let s2p = s2.remove(k);
        assert(distinct_seq(s1p)) by {
            assert(forall|i: int| 0 <= i < s1p.len() ==> s1p[i] == s1[i]);
        }
        assert(distinct_seq(s2p)) by {
            assert(forall|i: int|
                0 <= i < s2p.len() ==> s2p[i] == (if i < k {
                    s2[i]
                } else {
                    s2[i + 1]
                }));
        }
        assert forall|y: Seq<char>| s1p.contains(y) <==> s2p.contains(y) by {
            if s1p.contains(y) {
                let m = choose|m: int| 0 <= m < s1p.len() && s1p[m] == y;
                assert(s1[m] == y);
                assert(y != x);
                assert(s2.contains(y)) by {
                    assert(s1.contains(y));
                }
                let t = choose|t: int| 0 <= t < s2.len() && s2[t] == y;
                assert(t != k);
                if t < k {
                    assert(s2p[t] == y);
                } else {
                    assert(s2p[t - 1] == y);
                }
                assert(s2p.contains(y));
            }
            if s2p.contains(y) {
                let m = choose|m: int| 0 <= m < s2p.len() && s2p[m] == y;
                let orig = if m < k {
                    m
                } else {
                    m + 1
                };
                assert(s2[orig] == y);
                assert(y != x) by {
                    if y == x {
                        assert(s2[orig] == s2[k]);
                    }
                }
                assert(s1.contains(y)) by {
                    assert(s2.contains(y));
                }
                let t = choose|t: int| 0 <= t < s1.len() && s1[t] == y;
                assert(t != s1.len() - 1);
                assert(s1p[t] == y);
                assert(s1p.contains(y));
            }
        }
        lemma_distinct_same_members_len(s1p, s2p);
    }
}

/// Peeling the intersection out of `a` shortens it by exactly the
/// intersection's length, when both are duplicate-free.
proof fn lemma_subtract_len(a: Seq<Seq<char>>, dup: Seq<Seq<char>>)
    requires
        distinct_seq(a),
        distinct_seq(dup),
        forall|x: Seq<char>| dup.contains(x) ==> a.contains(x),
    ensures
        seq_subtract(a, dup).len() + dup.len() == a.len(),
{
    lemma_subtract_intersect_len(a, dup);
    lemma_filter_distinct(a, |x: Seq<char>| dup.contains(x));
    lemma_filter_subset(a, |x: Seq<char>| dup.contains(x));
    assert forall|x: Seq<char>| seq_intersect(a, dup).contains(x) <==> dup.contains(x) by {
        if dup.contains(x) {
            lemma_filter_keeps(a, |y: Seq<char>| dup.contains(y), x);
        }
    }
    lemma_distinct_same_members_len(seq_intersect(a, dup), dup);
}

// ------------------------------------------------------------------- methods

impl Shard {
    /// A fresh candidate shard with an empty name.
    pub fn new(assets: Vec<String>, is_root: bool, dependents: Vec<String>) -> (r: Shard)
        ensures
            r@.assets == assets.deep_view(),
            r@.is_root == is_root,
            r@.dependents == dependents.deep_view(),
            r@.name == Seq::<char>::empty(),
    {
        Shard { assets, is_root, dependents, name: String::new() }
    }

    /// Derive and store this shard's content-derived name: the hexadecimal
    /// hash of its asset list. Identical asset lists always yield the same
    /// name; the hash is order-sensitive over the list.
    pub fn generate_name(&mut self)
        ensures
            final(self)@ == (CandV { name: spec_shard_name(old(self)@.assets), ..old(self)@ }),
    {
        let mut bytes: Vec<u8> = Vec::new();
        crate::codec::write_str_list(&mut bytes, &self.assets);
        let h = fnv1a_hash(bytes.as_slice());
        self.name = hex_string(h);
        proof {
            assert(final(self)@ =~= CandV { name: spec_shard_name(old(self)@.assets), ..old(self)@ });
        }
    }

    /// The assets this shard shares with `other`, in this shard's order.
    pub fn find_intersection(&self, other: &Shard) -> (r: Vec<String>)
        ensures
            r.deep_view() == seq_intersect(self@.assets, other@.assets),
    {
        let mut out: Vec<String> = Vec::new();
        let n = self.assets.len();
        let mut i: usize = 0;
        proof {
            assert(self@.assets.take(0) =~= Seq::<Seq<char>>::empty());
            assert(Seq::<Seq<char>>::empty().filter(|x: Seq<char>| other@.assets.contains(x))
                =~= Seq::<Seq<char>>::empty()) by {
                reveal(Seq::filter);
            }
        }
        while i < n
            invariant
                n == self.assets@.len(),
                0 <= i <= n,
                out.deep_view() == seq_intersect(self@.assets.take(i as int), other@.assets),
            decreases n - i,
        {
            let ghost before = self@.assets.take(i as int);
            proof {
                lemma_filter_push(before, |x: Seq<char>| other@.assets.contains(x),
                    self@.assets[i as int]);
                assert(self@.assets.take(i + 1) =~= before.push(self@.assets[i as int]));
            }
            if vec_contains_string(&other.assets, self.assets[i].as_str()) {
                let ghost outv = out.deep_view();
                out.push(self.assets[i].clone());
                proof {
                    assert(out.deep_view() =~= outv.push(self@.assets[i as int]));
                }
            }
            i = i + 1;
        }
        proof {
            assert(self@.assets.take(n as int) =~= self@.assets);
        }
        out
    }

    /// Remove from this shard's assets the assets listed in `items`. The
    /// asset list is a set (duplicate-free), so removal is membership
    /// subtraction.
    pub fn remove_items(&mut self, items: Vec<String>)
        requires
            distinct_seq(old(self)@.assets),
        ensures
            final(self)@ == (CandV {
                assets: seq_subtract(old(self)@.assets, items.deep_view()),
                ..old(self)@
            }),
    {
        let filtered = filter_not_in(&self.assets, &items);
        self.assets = filtered;
        proof {
            assert(final(self)@ =~= CandV {
                assets: seq_subtract(old(self)@.assets, items.deep_view()),
                ..old(self)@
            });
        }
    }
}

/// The strings of `v` that are not listed in `items`, in order.
fn filter_not_in(v: &Vec<String>, items: &Vec<String>) -> (r: Vec<String>)
    ensures
        r.deep_view() == seq_subtract(v.deep_view(), items.deep_view()),
{
    let mut out: Vec<String> = Vec::new();
    let n = v.len();
    let mut i: usize = 0;
    proof {
        assert(v.deep_view().take(0) =~= Seq::<Seq<char>>::empty());
        assert(Seq::<Seq<char>>::empty().filter(|x: Seq<char>| !items.deep_view().contains(x))
            =~= Seq::<Seq<char>>::empty()) by {
            reveal(Seq::filter);
        }
    }
    while i < n
        invariant
            n == v@.len(),
            0 <= i <= n,
            out.deep_view() == seq_subtract(v.deep_view().take(i as int), items.deep_view()),
        decreases n - i,
    {
        let ghost before = v.deep_view().take(i as int);
        proof {
            lemma_filter_push(before, |x: Seq<char>| !items.deep_view().contains(x),
                v.deep_view()[i as int]);
            assert(v.deep_view().take(i + 1) =~= before.push(v.deep_view()[i as int]));
        }
        if !vec_contains_string(items, v[i].as_str()) {
            let ghost outv = out.deep_view();
            out.push(v[i].clone());
            proof {
                assert(out.deep_view() =~= outv.push(v.deep_view()[i as int]));
            }
        }
        i = i + 1;
    }
    proof {
        assert(v.deep_view().take(n as int) =~= v.deep_view());
    }
    out
}

/// Whether two candidate shards carry the same content, field for field.
fn same_shard(a: &Shard, b: &Shard) -> (r: bool)
    ensures
        r == (a@ == b@),
{
    let ar = str_vec_eq(&a.assets, &b.assets);
    let dr = str_vec_eq(&a.dependents, &b.dependents);
    let nr = string_eq(&a.name, &b.name);
    if ar && dr && nr && a.is_root == b.is_root {
        proof {
            assert(a@ =~= b@);
        }
        true
    } else {
        false
    }
}

/// Equality of string lists, as views.
fn str_vec_eq(a: &Vec<String>, b: &Vec<String>) -> (r: bool)
    ensures
        r == (a.deep_view() == b.deep_view()),
{
    if a.len() != b.len() {
        proof {
            assert(a.deep_view().len() == a@.len());
            assert(b.deep_view().len() == b@.len());
        }
        return false;
    }
    let n = a.len();
    let mut i: usize = 0;
    while i < n
        invariant
            n == a@.len() == b@.len(),
            0 <= i <= n,
            forall|k: int| 0 <= k < i ==> (#[trigger] a.deep_view()[k]) == b.deep_view()[k],
        decreases n - i,
    {
        if !string_eq(&a[i], &b[i]) {
            proof {
                assert(a.deep_view()[i as int] != b.deep_view()[i as int]);
            }
            return false;
        }
        i = i + 1;
    }
    proof {
        assert(a.deep_view() =~= b.deep_view());
    }
    true
}

proof fn lemma_filter_subset<A>(s: Seq<A>, pred: spec_fn(A) -> bool)
    ensures
        forall|x: A| #[trigger] s.filter(pred).contains(x) ==> s.contains(x) && pred(x),
    decreases s.len(),
{
    reveal(Seq::filter);
    if s.len() == 0 {
    } else {
        lemma_filter_subset(s.drop_last(), pred);
        assert forall|x: A| #[trigger] s.filter(pred).contains(x) implies s.contains(x) && pred(
            x,
        ) by {
            if pred(s.last()) && x == s.last() {
                assert(s.contains(x)) by {
                    assert(s[s.len() - 1] == s.last());
                }
            } else {
                if s.filter(pred) == s.drop_last().filter(pred).push(s.last()) {
                    if x != s.last() {
                        let k = choose|k: int|
                            0 <= k < s.filter(pred).len() && s.filter(pred)[k] == x;
                        assert(s.drop_last().filter(pred)[k] == x);
                        assert(s.drop_last().filter(pred).contains(x));
                    }
                }
                if s.drop_last().contains(x) {
                    let k = choose|k: int| 0 <= k < s.drop_last().len() && s.drop_last()[k] == x;
                    assert(s[k] == x);
                }
            }
        }
    }
}

proof fn lemma_filter_keeps<A>(s: Seq<A>, pred: spec_fn(A) -> bool, x: A)
    requires
        s.contains(x),
        pred(x),
    ensures
        s.filter(pred).contains(x),
{
    let i = choose|i: int| 0 <= i < s.len() && s[i] == x;
    s.lemma_filter_contains(pred, i);
}

proof fn lemma_filter_distinct(s: Seq<Seq<char>>, pred: spec_fn(Seq<char>) -> bool)
    requires
        distinct_seq(s),
    ensures
        distinct_seq(s.filter(pred)),
    decreases s.len(),
{
    reveal(Seq::filter);
    if s.len() == 0 {
    } else {
        assert(distinct_seq(s.drop_last())) by {
            assert(forall|i: int|
                0 <= i < s.drop_last().len() ==> s.drop_last()[i] == s[i]);
        }
        lemma_filter_distinct(s.drop_last(), pred);
        if pred(s.last()) {
            let f = s.drop_last().filter(pred);
            assert(!f.contains(s.last())) by {
                if f.contains(s.last()) {
                    lemma_filter_subset(s.drop_last(), pred);
                    assert(s.drop_last().contains(s.last()));
                    let k = choose|k: int|
                        0 <= k < s.drop_last().len() && s.drop_last()[k] == s.last();
                    assert(s[k] == s[s.len() - 1]);
                }
            }
            assert forall|i: int, j: int|
                0 <= i < j < f.push(s.last()).len() implies f.push(s.last())[i] != f.push(
                s.last(),
            )[j] by {
                if j < f.len() {
                } else {
                    assert(f.push(s.last())[j] == s.last());
                    assert(f.contains(f[i])) by {
                        assert(f.push(s.last())[i] == f[i]);
                    }
                }
            }
        }
    }
}

proof fn lemma_concat_contains(a: Seq<Seq<char>>, b: Seq<Seq<char>>, x: Seq<char>)
    ensures
        (a + b).contains(x) <==> a.contains(x) || b.contains(x),
{
    if a.contains(x) {
        let k = choose|k: int| 0 <= k < a.len() && a[k] == x;
        assert((a + b)[k] == x);
    }
    if b.contains(x) {
        let k = choose|k: int| 0 <= k < b.len() && b[k] == x;
        assert((a + b)[a.len() + k] == x);
    }
    if (a + b).contains(x) {
        let k = choose|k: int| 0 <= k < (a + b).len() && (a + b)[k] == x;
        if k < a.len() {
            assert(a[k] == x);
        } else {
            assert(b[k - a.len()] == x);
        }
    }
}

proof fn lemma_concat_distinct(a: Seq<Seq<char>>, b: Seq<Seq<char>>)
    requires
        distinct_seq(a),
        distinct_seq(b),
        forall|d: Seq<char>| a.contains(d) ==> !b.contains(d),
    ensures
        distinct_seq(a + b),
{
    assert forall|i: int, j: int| 0 <= i < j < (a + b).len() implies (a + b)[i] != (a + b)[j] by {
        if i < a.len() && j >= a.len() {
            if (a + b)[i] == (a + b)[j] {
                assert(a.contains(a[i]));
                assert(b.contains(b[j - a.len()]));
            }
        }
    }
}

/// An intersection with no elements means the two asset lists are disjoint.
proof fn lemma_empty_intersect(a: Seq<Seq<char>>, b: Seq<Seq<char>>)
    requires
        seq_intersect(a, b).len() == 0,
    ensures
        seqs_disjoint(a, b),
{
    assert forall|x: Seq<char>| a.contains(x) implies !b.contains(x) by {
        if b.contains(x) {
            lemma_filter_keeps(a, |y: Seq<char>| b.contains(y), x);
        }
    }
}

/// One dedup step: peeling the shared assets of the candidates at `idx` and
/// `i` into a fresh non-root candidate preserves pair coverage, the asset
/// universe, per-candidate distinctness and the root invariant.
#[verifier::rlimit(100)]
proof fn lemma_merge_op(cs: Seq<CandV>, ns: Seq<CandV>, idx: int, i: int, nm: Seq<char>)
    requires
        0 <= idx < cs.len(),
        0 <= i < cs.len(),
        idx != i,
        seq_intersect(cs[idx].assets, cs[i].assets).len() > 0,
        ns == cs.update(
            idx,
            CandV {
                assets: seq_subtract(cs[idx].assets, seq_intersect(cs[idx].assets, cs[i].assets)),
                ..cs[idx]
            },
        ).update(
            i,
            CandV {
                assets: seq_subtract(cs[i].assets, seq_intersect(cs[idx].assets, cs[i].assets)),
                ..cs[i]
            },
        ).push(
            CandV {
                assets: seq_intersect(cs[idx].assets, cs[i].assets),
                is_root: false,
                dependents: cs[idx].dependents + cs[i].dependents,
                name: nm,
            },
        ),
    ensures
        forall|x: Seq<char>, s: Seq<char>|
            #![trigger covers(ns, x, s)]
            #![trigger covers(cs, x, s)]
            covers(ns, x, s) <==> covers(cs, x, s),
        forall|x: Seq<char>|
            #![trigger in_universe(ns, x)]
            #![trigger in_universe(cs, x)]
            in_universe(ns, x) <==> in_universe(cs, x),
        all_assets_distinct(cs) ==> all_assets_distinct(ns),
        all_assets_distinct(cs) ==> total_assets(ns) < total_assets(cs),
        roots_single(cs) ==> roots_single(ns),
{
    let dup = seq_intersect(cs[idx].assets, cs[i].assets);
    let last = cs.len() as int;
    lemma_filter_subset(cs[idx].assets, |y: Seq<char>| cs[i].assets.contains(y));
    lemma_filter_subset(cs[idx].assets, |y: Seq<char>| !dup.contains(y));
    lemma_filter_subset(cs[i].assets, |y: Seq<char>| !dup.contains(y));

    assert forall|x: Seq<char>, s: Seq<char>| covers(cs, x, s) implies covers(ns, x, s) by {
        let j = choose|j: int|
            0 <= j < cs.len() && (#[trigger] cs[j]).assets.contains(x) && cs[j].dependents.contains(
                s,
            );
        lemma_concat_contains(cs[idx].dependents, cs[i].dependents, s);
        if j == idx {
            if dup.contains(x) {
                assert(ns[last].assets.contains(x) && ns[last].dependents.contains(s));
            } else {
                lemma_filter_keeps(cs[idx].assets, |y: Seq<char>| !dup.contains(y), x);
                assert(ns[idx].assets.contains(x) && ns[idx].dependents.contains(s));
            }
        } else if j == i {
            if dup.contains(x) {
                assert(ns[last].assets.contains(x) && ns[last].dependents.contains(s));
            } else {
                lemma_filter_keeps(cs[i].assets, |y: Seq<char>| !dup.contains(y), x);
                assert(ns[i].assets.contains(x) && ns[i].dependents.contains(s));
            }
        } else {
            assert(ns[j].assets.contains(x) && ns[j].dependents.contains(s));
        }
    }
    assert forall|x: Seq<char>, s: Seq<char>| covers(ns, x, s) implies covers(cs, x, s) by {
        let j = choose|j: int|
            0 <= j < ns.len() && (#[trigger] ns[j]).assets.contains(x) && ns[j].dependents.contains(
                s,
            );
        if j == last {
            lemma_concat_contains(cs[idx].dependents, cs[i].dependents, s);
            assert(cs[idx].assets.contains(x));
            if cs[idx].dependents.contains(s) {
                assert(covers(cs, x, s));
            } else {
                assert(cs[i].assets.contains(x));
                assert(covers(cs, x, s));
            }
        } else if j == idx {
            assert(cs[idx].assets.contains(x) && cs[idx].dependents.contains(s));
        } else if j == i {
            assert(cs[i].assets.contains(x) && cs[i].dependents.contains(s));
        } else {
            assert(cs[j].assets.contains(x) && cs[j].dependents.contains(s));
        }
    }
    assert forall|x: Seq<char>| in_universe(cs, x) implies in_universe(ns, x) by {
        let j = choose|j: int| 0 <= j < cs.len() && (#[trigger] cs[j]).assets.contains(x);
        if j == idx {
            if dup.contains(x) {
                assert(ns[last].assets.contains(x));
            } else {
                lemma_filter_keeps(cs[idx].assets, |y: Seq<char>| !dup.contains(y), x);
                assert(ns[idx].assets.contains(x));
            }
        } else if j == i {
            if dup.contains(x) {
                assert(ns[last].assets.contains(x));
            } else {
                lemma_filter_keeps(cs[i].assets, |y: Seq<char>| !dup.contains(y), x);
                assert(ns[i].assets.contains(x));
            }
        } else {
            assert(ns[j].assets.contains(x));
        }
    }
    assert forall|x: Seq<char>| in_universe(ns, x) implies in_universe(cs, x) by {
        let j = choose|j: int| 0 <= j < ns.len() && (#[trigger] ns[j]).assets.contains(x);
        if j == last {
            assert(cs[idx].assets.contains(x));
        } else if j == idx {
            assert(cs[idx].assets.contains(x));
        } else if j == i {
            assert(cs[i].assets.contains(x));
        } else {
            assert(cs[j].assets.contains(x));
        }
    }
    if all_assets_distinct(cs) {
        assert forall|j: int| 0 <= j < ns.len() implies distinct_seq(
            (#[trigger] ns[j]).assets,
        ) by {
            if j == last {
                lemma_filter_distinct(cs[idx].assets, |y: Seq<char>| cs[i].assets.contains(y));
            } else if j == idx {
                lemma_filter_distinct(cs[idx].assets, |y: Seq<char>| !dup.contains(y));
            } else if j == i {
                lemma_filter_distinct(cs[i].assets, |y: Seq<char>| !dup.contains(y));
            } else {
                assert(ns[j] == cs[j]);
            }
        }
    }
    if roots_single(cs) {
        assert forall|j: int|
            0 <= j < ns.len() && (#[trigger] ns[j]).is_root implies ns[j].dependents.len()
            == 1 by {
            if j < last {
                assert(ns[j].is_root ==> cs[j].is_root && ns[j].dependents == cs[j].dependents);
            }
        }
    }
    if all_assets_distinct(cs) {
        let u1 = cs.update(
            idx,
            CandV { assets: seq_subtract(cs[idx].assets, dup), ..cs[idx] },
        );
        let u2 = u1.update(i, CandV { assets: seq_subtract(cs[i].assets, dup), ..cs[i] });
        lemma_filter_distinct(cs[idx].assets, |y: Seq<char>| cs[i].assets.contains(y));
        lemma_subtract_len(cs[idx].assets, dup);
        assert(forall|x: Seq<char>| dup.contains(x) ==> cs[i].assets.contains(x));
        lemma_subtract_len(cs[i].assets, dup);
        lemma_total_assets_update(cs, idx, CandV {
            assets: seq_subtract(cs[idx].assets, dup),
            ..cs[idx]
        });
        assert(u1[i] == cs[i]);
        lemma_total_assets_update(u1, i, CandV {
            assets: seq_subtract(cs[i].assets, dup),
            ..cs[i]
        });
        lemma_total_assets_push(u2, CandV {
            assets: dup,
            is_root: false,
            dependents: cs[idx].dependents + cs[i].dependents,
            name: nm,
        });
    }
}

/// One dedup step keeps the dependent lists well formed: the fresh candidate
/// is non-root with both pair members' dependents (disjoint, since a shared
/// `(asset, scene)` pair would otherwise be held twice), and nothing else's
/// dependents change.
#[verifier::rlimit(100)]
proof fn lemma_merge_deps_wf(cs: Seq<CandV>, ns: Seq<CandV>, idx: int, i: int, nm: Seq<char>)
    requires
        0 <= idx < cs.len(),
        0 <= i < cs.len(),
        idx != i,
        seq_intersect(cs[idx].assets, cs[i].assets).len() > 0,
        ns == merge_result(cs, idx, i, nm),
    ensures
        forall|names: Seq<Seq<char>>|
            #![trigger dependents_wf(ns, names)]
            dependents_wf(cs, names) ==> dependents_wf(ns, names),
{
    let dup = seq_intersect(cs[idx].assets, cs[i].assets);
    let last = cs.len() as int;
    lemma_filter_subset(cs[idx].assets, |y: Seq<char>| cs[i].assets.contains(y));
    lemma_filter_subset(cs[idx].assets, |y: Seq<char>| !dup.contains(y));
    lemma_filter_subset(cs[i].assets, |y: Seq<char>| !dup.contains(y));
    assert(ns.len() == cs.len() + 1);
    assert(ns[last].dependents == cs[idx].dependents + cs[i].dependents);
    assert(!ns[last].is_root);
    assert(ns[last].assets == dup);
    assert(forall|j: int|
        0 <= j < cs.len() && j != idx && j != i ==> ns[j] == #[trigger] cs[j]);
    assert(ns[idx].dependents == cs[idx].dependents && ns[idx].is_root == cs[idx].is_root);
    assert(ns[i].dependents == cs[i].dependents && ns[i].is_root == cs[i].is_root);
    assert(dup.contains(dup[0]));

    assert forall|names: Seq<Seq<char>>|
        dependents_wf(cs, names) implies #[trigger] dependents_wf(ns, names) by {
        // the pair's dependent lists are disjoint: a shared scene would hold
        // a shared asset twice
        assert forall|d: Seq<char>| cs[idx].dependents.contains(d) implies !cs[
            i
        ].dependents.contains(d) by {
            if cs[i].dependents.contains(d) {
                assert(covers_at(cs, idx, dup[0], d));
                assert(covers_at(cs, i, dup[0], d));
            }
        }
        assert forall|j: int|
            0 <= j < ns.len() implies ((#[trigger] ns[j]).is_root <==> ns[j].dependents.len()
            == 1) && ns[j].dependents.len() >= 1 && distinct_seq(ns[j].dependents) by {
            if j == last {
                assert(cs[idx].dependents.len() >= 1 && cs[i].dependents.len() >= 1);
                lemma_concat_distinct(cs[idx].dependents, cs[i].dependents);
            } else if j == idx {
                assert(cs[idx].is_root <==> cs[idx].dependents.len() == 1);
            } else if j == i {
                assert(cs[i].is_root <==> cs[i].dependents.len() == 1);
            } else {
                assert(ns[j] == cs[j]);
            }
        }
        assert forall|j: int, d: Seq<char>|
            0 <= j < ns.len() && #[trigger] ns[j].dependents.contains(d) implies names.contains(
            d,
        ) by {
            if j == last {
                lemma_concat_contains(cs[idx].dependents, cs[i].dependents, d);
            } else if j == idx || j == i {
            } else {
                assert(ns[j] == cs[j]);
            }
        }
        assert forall|a: int, b: int, x: Seq<char>, s: Seq<char>|
            0 <= a < ns.len() && 0 <= b < ns.len() && a != b implies !(#[trigger] covers_at(
            ns,
            a,
            x,
            s,
        ) && #[trigger] covers_at(ns, b, x, s)) by {
            if covers_at(ns, a, x, s) && covers_at(ns, b, x, s) {
                let ma = merge_cover_origin(cs, ns, idx, i, nm, a, x, s);
                let mb = merge_cover_origin(cs, ns, idx, i, nm, b, x, s);
                if ma == mb {
                    // only a pair of `last` with `idx` or `i` can collide, and
                    // the shared assets left both of those
                    assert(a == last || b == last);
                    assert(false);
                } else {
                    assert(covers_at(cs, ma, x, s) && covers_at(cs, mb, x, s));
                }
            }
        }
    }
}

/// The index in `cs` that explains a cover in the merged list: the fresh
/// candidate's covers come from whichever pair member contributed the scene,
/// everything else covers where it did before.
proof fn merge_cover_origin(
    cs: Seq<CandV>,
    ns: Seq<CandV>,
    idx: int,
    i: int,
    nm: Seq<char>,
    j: int,
    x: Seq<char>,
    s: Seq<char>,
) -> (m: int)
    requires
        0 <= idx < cs.len(),
        0 <= i < cs.len(),
        idx != i,
        seq_intersect(cs[idx].assets, cs[i].assets).len() > 0,
        ns == merge_result(cs, idx, i, nm),
        0 <= j < ns.len(),
        covers_at(ns, j, x, s),
    ensures
        0 <= m < cs.len(),
        covers_at(cs, m, x, s),
        j < cs.len() && j != idx && j != i ==> m == j,
        j == idx ==> m == idx && !seq_intersect(cs[idx].assets, cs[i].assets).contains(x),
        j == i ==> m == i && !seq_intersect(cs[idx].assets, cs[i].assets).contains(x),
        j == cs.len() ==> (m == idx || m == i) && seq_intersect(
            cs[idx].assets,
            cs[i].assets,
        ).contains(x),
{
    let dup = seq_intersect(cs[idx].assets, cs[i].assets);
    let last = cs.len() as int;
    lemma_filter_subset(cs[idx].assets, |y: Seq<char>| cs[i].assets.contains(y));
    lemma_filter_subset(cs[idx].assets, |y: Seq<char>| !dup.contains(y));
    lemma_filter_subset(cs[i].assets, |y: Seq<char>| !dup.contains(y));
    if j == last {
        lemma_concat_contains(cs[idx].dependents, cs[i].dependents, s);
        if cs[idx].dependents.contains(s) {
            idx
        } else {
            i
        }
    } else if j == idx {
        idx
    } else if j == i {
        i
    } else {
        assert(ns[j] == cs[j]);
        j
    }
}

impl Clone for Shard {
    fn clone(&self) -> (r: Self)
        ensures
            r@ == self@,
    {
        let r = Shard {
            assets: clone_string_vec(&self.assets),
            is_root: self.is_root,
            dependents: clone_string_vec(&self.dependents),
            name: self.name.clone(),
        };
        proof {
            assert(r@ =~= self@);
        }
        r
    }
}

/// The candidate list one dedup step leaves behind, for the pair at `idx`
/// and `i`: the shared assets leave both candidates, and a fresh non-root
/// candidate carrying exactly those assets is appended, depending on both
/// candidates' scenes (`idx`'s dependents followed by `i`'s).
pub open spec fn merge_result(cs: Seq<CandV>, idx: int, i: int, nm: Seq<char>) -> Seq<CandV> {
    let dup = seq_intersect(cs[idx].assets, cs[i].assets);
    cs.update(idx, CandV { assets: seq_subtract(cs[idx].assets, dup), ..cs[idx] }).update(
        i,
        CandV { assets: seq_subtract(cs[i].assets, dup), ..cs[i] },
    ).push(
        CandV {
            assets: dup,
            is_root: false,
            dependents: cs[idx].dependents + cs[i].dependents,
            name: nm,
        },
    )
}

/// One dedup step: two distinct candidates share at least one asset, and the
/// list is reworked exactly as `merge_result` says.
pub open spec fn dedup_step(cs: Seq<CandV>, ns: Seq<CandV>) -> bool {
    exists|idx: int, i: int, nm: Seq<char>|
        0 <= idx < cs.len() && 0 <= i < cs.len() && idx != i && seq_intersect(
            cs[idx].assets,
            cs[i].assets,
        ).len() > 0 && ns == #[trigger] merge_result(cs, idx, i, nm)
}

/// `ns` arises from `cs` by one or more dedup steps.
pub open spec fn dedup_chain(cs: Seq<CandV>, ns: Seq<CandV>) -> bool {
    exists|chain: Seq<Seq<CandV>>|
        #![trigger chain.first(), chain.last()]
        chain.len() >= 2 && chain.first() == cs && chain.last() == ns && (forall|t: int|
            0 <= t < chain.len() - 1 ==> dedup_step(chain[t], #[trigger] chain[t + 1]))
}

impl Shard {
    /// One dedup pass of this shard against every other candidate: where this
    /// shard and another share assets, the shared assets are peeled out of
    /// both into a fresh non-root candidate depending on both shards' scenes.
    /// Returns the reworked candidate list, or `None` when this shard shares
    /// no asset with any other candidate.
    pub fn analyse_against(&self, others: &Vec<Shard>) -> (r: Option<Vec<Shard>>)
        requires
            exists|k: int| 0 <= k < others@.len() && (#[trigger] cands(others@)[k]) == self@,
        ensures
            match r {
                None => {
                    &&& forall|j: int|
                        0 <= j < others@.len() ==> (#[trigger] cands(others@)[j]) == self@
                            || seqs_disjoint(cands(others@)[j].assets, self@.assets)
                    &&& forall|k: int, m: int|
                        0 <= k < m < others@.len() && (#[trigger] cands(others@)[k]) == self@ && (
                        #[trigger] cands(others@)[m]) == self@ ==> self@.assets.len() == 0
                },
                Some(reworked) => {
                    &&& forall|x: Seq<char>, s: Seq<char>|
                        #![trigger covers(cands(reworked@), x, s)]
                        #![trigger covers(cands(others@), x, s)]
                        covers(cands(reworked@), x, s) <==> covers(cands(others@), x, s)
                    &&& forall|x: Seq<char>|
                        #![trigger in_universe(cands(reworked@), x)]
                        #![trigger in_universe(cands(others@), x)]
                        in_universe(cands(reworked@), x) <==> in_universe(cands(others@), x)
                    &&& (all_assets_distinct(cands(others@)) ==> all_assets_distinct(
                        cands(reworked@),
                    ))
                    &&& (all_assets_distinct(cands(others@)) ==> total_assets(cands(reworked@))
                        < total_assets(cands(others@)))
                    &&& (roots_single(cands(others@)) ==> roots_single(cands(reworked@)))
                    &&& (forall|names: Seq<Seq<char>>|
                        #![trigger dependents_wf(cands(reworked@), names)]
                        dependents_wf(cands(others@), names) ==> dependents_wf(
                            cands(reworked@),
                            names,
                        ))
                    &&& reworked@.len() >= others@.len()
                    &&& dedup_chain(cands(others@), cands(reworked@))
                    &&& exists|j: int, k: int|
                        0 <= j < others@.len() && 0 <= k < others@.len() && j != k && (
                        #[trigger] cands(others@)[k]) == self@ && seq_intersect(
                            cands(others@)[k].assets,
                            (#[trigger] cands(others@)[j]).assets,
                        ).len() > 0
                    &&& forall|t: int|
                        others@.len() <= t < reworked@.len() ==> !(#[trigger] cands(
                            reworked@,
                        )[t]).is_root
                },
            },
    {
        let ghost cs0 = cands(others@);
        let mut work: Vec<Shard> = clone_shard_vec(others);
        let n = others.len();
        // the position this shard holds in the list
        let idx = find_same(others, self);
        let ghost idxg = idx as int;
        let mut changed = false;
        let ghost mut chain: Seq<Seq<CandV>> = seq![cs0];
        let mut i: usize = 0;
        while i < n
            invariant
                n == others@.len(),
                work@.len() >= n,
                0 <= i <= n,
                0 <= idxg < n,
                idx == idxg,
                cs0 == cands(others@),
                cs0[idxg] == self@,
                chain.len() >= 1,
                chain.first() == cs0,
                chain.last() == cands(work@),
                forall|t: int| 0 <= t < chain.len() - 1 ==> dedup_step(chain[t], #[trigger] chain[t + 1]),
                changed <==> chain.len() >= 2,
                changed ==> exists|j: int, k: int|
                    0 <= j < n && 0 <= k < n && j != k && (#[trigger] cs0[k]) == self@
                        && seq_intersect(cs0[k].assets, (#[trigger] cs0[j]).assets).len() > 0,
                forall|t: int|
                    n <= t < work@.len() ==> !(#[trigger] cands(work@)[t]).is_root,
                !changed ==> cands(work@) == cs0,
                !changed ==> forall|j: int|
                    0 <= j < i && j != idxg ==> seqs_disjoint(
                        (#[trigger] cs0[j]).assets,
                        cs0[idxg].assets,
                    ),
                forall|x: Seq<char>, s: Seq<char>|
                    #![trigger covers(cands(work@), x, s)]
                    #![trigger covers(cs0, x, s)]
                    covers(cands(work@), x, s) <==> covers(cs0, x, s),
                forall|x: Seq<char>|
                    #![trigger in_universe(cands(work@), x)]
                    #![trigger in_universe(cs0, x)]
                    in_universe(cands(work@), x) <==> in_universe(cs0, x),
                all_assets_distinct(cs0) ==> all_assets_distinct(cands(work@)),
                all_assets_distinct(cs0) && changed ==> total_assets(cands(work@)) < total_assets(
                    cs0,
                ),
                roots_single(cs0) ==> roots_single(cands(work@)),
                forall|names: Seq<Seq<char>>|
                    #![trigger dependents_wf(cands(work@), names)]
                    dependents_wf(cs0, names) ==> dependents_wf(cands(work@), names),
            decreases n - i,
        {
            if i != idx {
                let dup = work[idx].find_intersection(&work[i]);
                if dup.len() > 0 {
                    let ghost pre = cands(work@);
                    let base = &work[idx];
                    let updated_idx = Shard {
                        assets: filter_not_in(&base.assets, &dup),
                        is_root: base.is_root,
                        dependents: clone_string_vec(&base.dependents),
                        name: base.name.clone(),
                    };
                    let other = &work[i];
                    let updated_i = Shard {
                        assets: filter_not_in(&other.assets, &dup),
                        is_root: other.is_root,
                        dependents: clone_string_vec(&other.dependents),
                        name: other.name.clone(),
                    };
                    let mut fresh_deps = clone_string_vec(&work[idx].dependents);
                    let mut tail_deps = clone_string_vec(&work[i].dependents);
                    fresh_deps.append(&mut tail_deps);
                    proof {
                        assert(fresh_deps.deep_view() =~= pre[idxg].dependents
                            + pre[i as int].dependents);
                    }
                    let fresh = Shard::new(dup, false, fresh_deps);
                    let ghost uv = updated_idx@;
                    let ghost iv = updated_i@;
                    let ghost fv = fresh@;
                    let ghost was_changed = changed;
                    work.set(idx, updated_idx);
                    work.set(i, updated_i);
                    work.push(fresh);
                    changed = true;
                    proof {
                        assert(cands(work@) =~= pre.update(idxg, uv).update(i as int, iv).push(fv));
                        assert(uv == (CandV {
                            assets: seq_subtract(
                                pre[idxg].assets,
                                seq_intersect(pre[idxg].assets, pre[i as int].assets),
                            ),
                            ..pre[idxg]
                        }));
                        assert(iv == (CandV {
                            assets: seq_subtract(
                                pre[i as int].assets,
                                seq_intersect(pre[idxg].assets, pre[i as int].assets),
                            ),
                            ..pre[i as int]
                        }));
                        lemma_merge_op(pre, cands(work@), idxg, i as int, fv.name);
                        assert(fv == (CandV {
                            assets: seq_intersect(pre[idxg].assets, pre[i as int].assets),
                            is_root: false,
                            dependents: pre[idxg].dependents + pre[i as int].dependents,
                            name: fv.name,
                        }));
                        assert(cands(work@) == merge_result(pre, idxg, i as int, fv.name));
                        lemma_merge_deps_wf(pre, cands(work@), idxg, i as int, fv.name);
                        assert(dedup_step(pre, cands(work@)));
                        chain = chain.push(cands(work@));
                        assert(chain.last() == cands(work@));
                        assert(chain.first() == cs0);
                        assert forall|t: int|
                            0 <= t < chain.len() - 1 implies dedup_step(
                            chain[t],
                            #[trigger] chain[t + 1],
                        ) by {
                            if t == chain.len() - 2 {
                                assert(chain[t] == pre && chain[t + 1] == cands(work@));
                            } else {
                                assert(chain.drop_last()[t] == chain[t]);
                                assert(chain.drop_last()[t + 1] == chain[t + 1]);
                            }
                        }
                        if !was_changed {
                            assert(pre == cs0);
                            assert(cs0[idxg] == self@);
                            assert(seq_intersect(cs0[idxg].assets, cs0[i as int].assets).len()
                                > 0);
                        }
                    }
                } else {
                    proof {
                        if !changed {
                            lemma_empty_intersect(cs0[idxg].assets, cs0[i as int].assets);
                        }
                    }
                }
            }
            i = i + 1;
        }
        if changed {
            proof {
                assert(dedup_chain(cs0, cands(work@))) by {
                    assert(chain.len() >= 2 && chain.first() == cs0 && chain.last() == cands(
                        work@,
                    ));
                }
            }
            Some(work)
        } else {
            proof {
                assert forall|k: int, m: int|
                    0 <= k < m < others@.len() && (#[trigger] cs0[k]) == self@ && (
                    #[trigger] cs0[m]) == self@ implies self@.assets.len() == 0 by {
                    if self@.assets.len() > 0 {
                        let x = self@.assets[0];
                        assert(self@.assets.contains(x));
                        if k != idxg {
                            assert(seqs_disjoint(cs0[k].assets, cs0[idxg].assets));
                        } else {
                            assert(seqs_disjoint(cs0[m].assets, cs0[idxg].assets));
                        }
                    }
                }
            }
            None
        }
    }
}

/// The first position in `v` whose candidate equals `target`, which must
/// occur in the list.
fn find_same(v: &Vec<Shard>, target: &Shard) -> (r: usize)
    requires
        exists|k: int| 0 <= k < v@.len() && (#[trigger] cands(v@)[k]) == target@,
    ensures
        r < v@.len(),
        cands(v@)[r as int] == target@,
{
    let n = v.len();
    let mut i: usize = 0;
    while i < n
        invariant
            n == v@.len(),
            0 <= i <= n,
            forall|k: int| 0 <= k < i ==> (#[trigger] cands(v@)[k]) != target@,
            exists|k: int| 0 <= k < n && (#[trigger] cands(v@)[k]) == target@,
        decreases n - i,
    {
        if same_shard(&v[i], target) {
            return i;
        }
        i = i + 1;
    }
    proof {
        let k = choose|k: int| 0 <= k < n && (#[trigger] cands(v@)[k]) == target@;
        assert(false);
    }
    0
}

/// Clone a candidate list, keeping its views.
fn clone_shard_vec(v: &Vec<Shard>) -> (r: Vec<Shard>)
    ensures
        r@.len() == v@.len(),
        cands(r@) == cands(v@),
{
    let mut out: Vec<Shard> = Vec::new();
    let mut i: usize = 0;
    while i < v.len()
        invariant
            0 <= i <= v@.len(),
            out@.len() == i,
            forall|k: int| 0 <= k < i ==> (#[trigger] out@[k])@ == v@[k]@,
        decreases v@.len() - i,
    {
        out.push(v[i].clone());
        i = i + 1;
    }
    proof {
        assert(cands(out@) =~= cands(v@));
    }
    out
}

// --------------------------------------------------------- the partitioning

/// The candidate a scene seeds: its required assets, rooted, depending on
/// that scene alone.
pub open spec fn seed(r: SceneV) -> CandV {
    CandV {
        assets: r.required_assets,
        is_root: true,
        dependents: seq![r.name],
        name: Seq::empty(),
    }
}

/// The seed candidates of a scene list.
pub open spec fn seeds(reqs: Seq<SceneV>) -> Seq<CandV> {
    reqs.map_values(|r: SceneV| seed(r))
}

/// Scene `s` requires asset `x`.
pub open spec fn scene_requires(reqs: Seq<SceneV>, x: Seq<char>, s: Seq<char>) -> bool {
    exists|i: int|
        0 <= i < reqs.len() && (#[trigger] reqs[i]).name == s && reqs[i].required_assets.contains(x)
}

/// Some scene requires asset `x`.
pub open spec fn some_scene_requires(reqs: Seq<SceneV>, x: Seq<char>) -> bool {
    exists|i: int| 0 <= i < reqs.len() && (#[trigger] reqs[i]).required_assets.contains(x)
}

/// The names of the candidates depending on scene `s`, in list order.
pub open spec fn shard_names_for(cs: Seq<CandV>, s: Seq<char>) -> Seq<Seq<char>> {
    cs.filter(|c: CandV| c.dependents.contains(s)).map_values(|c: CandV| c.name)
}

/// What one dedup pass reports of a candidate it found nothing to peel from:
/// every other candidate either carries the same content or shares no asset
/// with it, and duplicated content forces an empty asset set.
pub open spec fn isolated(cs: Seq<CandV>, v: CandV) -> bool {
    &&& forall|j: int|
        0 <= j < cs.len() ==> (#[trigger] cs[j]) == v || seqs_disjoint(cs[j].assets, v.assets)
    &&& forall|a: int, b: int|
        0 <= a < b < cs.len() && (#[trigger] cs[a]) == v && (#[trigger] cs[b]) == v
            ==> v.assets.len() == 0
}

proof fn lemma_seeds(reqs: Seq<SceneV>)
    ensures
        (forall|i: int, j: int|
            0 <= i < j < reqs.len() ==> (#[trigger] reqs[i]).name != (#[trigger] reqs[j]).name)
            ==> dependents_wf(seeds(reqs), scene_names(reqs)),
        forall|x: Seq<char>, s: Seq<char>|
            #![trigger covers(seeds(reqs), x, s)]
            #![trigger scene_requires(reqs, x, s)]
            covers(seeds(reqs), x, s) <==> scene_requires(reqs, x, s),
        forall|x: Seq<char>|
            #![trigger in_universe(seeds(reqs), x)]
            #![trigger some_scene_requires(reqs, x)]
            in_universe(seeds(reqs), x) <==> some_scene_requires(reqs, x),
        (forall|i: int|
            0 <= i < reqs.len() ==> distinct_seq((#[trigger] reqs[i]).required_assets))
            ==> all_assets_distinct(seeds(reqs)),
        roots_single(seeds(reqs)),
{
    let cs = seeds(reqs);
    assert forall|x: Seq<char>, s: Seq<char>| covers(cs, x, s) implies scene_requires(
        reqs,
        x,
        s,
    ) by {
        let i = choose|i: int|
            0 <= i < cs.len() && (#[trigger] cs[i]).assets.contains(x) && cs[i].dependents.contains(
                s,
            );
        assert(cs[i].dependents == seq![reqs[i].name]);
        let k = choose|k: int| 0 <= k < cs[i].dependents.len() && cs[i].dependents[k] == s;
        assert(reqs[i].name == s);
    }
    assert forall|x: Seq<char>, s: Seq<char>| scene_requires(reqs, x, s) implies covers(
        cs,
        x,
        s,
    ) by {
        let i = choose|i: int|
            0 <= i < reqs.len() && (#[trigger] reqs[i]).name == s
                && reqs[i].required_assets.contains(x);
        assert(cs[i].assets.contains(x));
        assert(cs[i].dependents[0] == s);
        assert(cs[i].dependents.contains(s));
    }
    assert forall|x: Seq<char>| in_universe(cs, x) implies some_scene_requires(reqs, x) by {
        let i = choose|i: int| 0 <= i < cs.len() && (#[trigger] cs[i]).assets.contains(x);
        assert(reqs[i].required_assets.contains(x));
    }
    assert forall|x: Seq<char>| some_scene_requires(reqs, x) implies in_universe(cs, x) by {
        let i = choose|i: int|
            0 <= i < reqs.len() && (#[trigger] reqs[i]).required_assets.contains(x);
        assert(cs[i].assets.contains(x));
    }
    if forall|i: int, j: int|
        0 <= i < j < reqs.len() ==> (#[trigger] reqs[i]).name != (#[trigger] reqs[j]).name {
        assert forall|j: int, d: Seq<char>|
            0 <= j < cs.len() && #[trigger] cs[j].dependents.contains(d) implies scene_names(
            reqs,
        ).contains(d) by {
            let k = choose|k: int| 0 <= k < cs[j].dependents.len() && cs[j].dependents[k] == d;
            assert(d == reqs[j].name);
            assert(scene_names(reqs)[j] == d);
        }
        assert forall|a: int, b: int, x: Seq<char>, s: Seq<char>|
            0 <= a < cs.len() && 0 <= b < cs.len() && a != b implies !(#[trigger] covers_at(
            cs,
            a,
            x,
            s,
        ) && #[trigger] covers_at(cs, b, x, s)) by {
            if covers_at(cs, a, x, s) && covers_at(cs, b, x, s) {
                let ka = choose|k: int|
                    0 <= k < cs[a].dependents.len() && cs[a].dependents[k] == s;
                let kb = choose|k: int|
                    0 <= k < cs[b].dependents.len() && cs[b].dependents[k] == s;
                assert(reqs[a].name == s && reqs[b].name == s);
            }
        }
        assert(forall|j: int|
            0 <= j < cs.len() ==> ((#[trigger] cs[j]).is_root <==> cs[j].dependents.len() == 1));
    }
}

/// When every candidate is isolated, the whole list is pairwise disjoint.
proof fn lemma_fixpoint_disjoint(cs: Seq<CandV>)
    requires
        forall|k: int| 0 <= k < cs.len() ==> isolated(cs, #[trigger] cs[k]),
    ensures
        pairwise_disjoint(cs),
{
    assert forall|i: int, j: int|
        0 <= i < cs.len() && 0 <= j < cs.len() && i != j implies seqs_disjoint(
        (#[trigger] cs[i]).assets,
        (#[trigger] cs[j]).assets,
    ) by {
        assert(isolated(cs, cs[i]));
        if cs[j] == cs[i] {
            let a = if i < j {
                i
            } else {
                j
            };
            let b = if i < j {
                j
            } else {
                i
            };
            assert(cs[a] == cs[i] && cs[b] == cs[i]);
            assert(cs[i].assets.len() == 0);
            assert forall|x: Seq<char>| cs[i].assets.contains(x) implies !cs[j].assets.contains(
                x,
            ) by {}
        }
    }
}

/// Dropping a candidate with no assets from the middle of a list keeps
/// coverage, the universe, disjointness, distinctness and the root invariant.
proof fn lemma_drop_empty(a: Seq<CandV>, e: CandV, b: Seq<CandV>)
    requires
        e.assets.len() == 0,
    ensures
        forall|x: Seq<char>, s: Seq<char>|
            #![trigger covers(a + b, x, s)]
            #![trigger covers(a + (seq![e] + b), x, s)]
            covers(a + b, x, s) <==> covers(a + (seq![e] + b), x, s),
        forall|x: Seq<char>|
            #![trigger in_universe(a + b, x)]
            #![trigger in_universe(a + (seq![e] + b), x)]
            in_universe(a + b, x) <==> in_universe(a + (seq![e] + b), x),
        pairwise_disjoint(a + (seq![e] + b)) ==> pairwise_disjoint(a + b),
        all_assets_distinct(a + (seq![e] + b)) ==> all_assets_distinct(a + b),
        roots_single(a + (seq![e] + b)) ==> roots_single(a + b),
        forall|names: Seq<Seq<char>>|
            #![trigger dependents_wf(a + b, names)]
            dependents_wf(a + (seq![e] + b), names) ==> dependents_wf(a + b, names),
{
    let small = a + b;
    let big = a + (seq![e] + b);
    assert(big.len() == small.len() + 1);
    assert forall|t: int| 0 <= t < small.len() implies small[t] == big[if t < a.len() {
        t
    } else {
        t + 1
    }] by {}
    assert(big[a.len() as int] == e);
    assert forall|x: Seq<char>, s: Seq<char>| covers(small, x, s) implies covers(big, x, s) by {
        let t = choose|t: int|
            0 <= t < small.len() && (#[trigger] small[t]).assets.contains(x)
                && small[t].dependents.contains(s);
        let u = if t < a.len() {
            t
        } else {
            t + 1
        };
        assert(big[u].assets.contains(x) && big[u].dependents.contains(s));
    }
    assert forall|x: Seq<char>, s: Seq<char>| covers(big, x, s) implies covers(small, x, s) by {
        let u = choose|u: int|
            0 <= u < big.len() && (#[trigger] big[u]).assets.contains(x)
                && big[u].dependents.contains(s);
        assert(u != a.len());
        let t = if u < a.len() {
            u
        } else {
            u - 1
        };
        assert(small[t].assets.contains(x) && small[t].dependents.contains(s));
    }
    assert forall|x: Seq<char>| in_universe(small, x) implies in_universe(big, x) by {
        let t = choose|t: int| 0 <= t < small.len() && (#[trigger] small[t]).assets.contains(x);
        let u = if t < a.len() {
            t
        } else {
            t + 1
        };
        assert(big[u].assets.contains(x));
    }
    assert forall|x: Seq<char>| in_universe(big, x) implies in_universe(small, x) by {
        let u = choose|u: int| 0 <= u < big.len() && (#[trigger] big[u]).assets.contains(x);
        assert(u != a.len());
        let t = if u < a.len() {
            u
        } else {
            u - 1
        };
        assert(small[t].assets.contains(x));
    }
    if pairwise_disjoint(big) {
        assert forall|i: int, j: int|
            0 <= i < small.len() && 0 <= j < small.len() && i != j implies seqs_disjoint(
            (#[trigger] small[i]).assets,
            (#[trigger] small[j]).assets,
        ) by {
            let ui = if i < a.len() {
                i
            } else {
                i + 1
            };
            let uj = if j < a.len() {
                j
            } else {
                j + 1
            };
            assert(seqs_disjoint(big[ui].assets, big[uj].assets));
        }
    }
    if all_assets_distinct(big) {
        assert forall|i: int| 0 <= i < small.len() implies distinct_seq(
            (#[trigger] small[i]).assets,
        ) by {
            let ui = if i < a.len() {
                i
            } else {
                i + 1
            };
            assert(distinct_seq(big[ui].assets));
        }
    }
    if roots_single(big) {
        assert forall|i: int|
            0 <= i < small.len() && (#[trigger] small[i]).is_root implies small[i].dependents.len()
            == 1 by {
            let ui = if i < a.len() {
                i
            } else {
                i + 1
            };
            assert(big[ui].is_root);
        }
    }
    assert forall|names: Seq<Seq<char>>|
        dependents_wf(big, names) implies #[trigger] dependents_wf(small, names) by {
        assert forall|j: int|
            0 <= j < small.len() implies ((#[trigger] small[j]).is_root <==> small[
            j
        ].dependents.len() == 1) && small[j].dependents.len() >= 1 && distinct_seq(
            small[j].dependents,
        ) by {
            let uj = if j < a.len() {
                j
            } else {
                j + 1
            };
            assert(small[j] == big[uj]);
        }
        assert forall|j: int, d: Seq<char>|
            0 <= j < small.len() && #[trigger] small[j].dependents.contains(d) implies names
            .contains(d) by {
            let uj = if j < a.len() {
                j
            } else {
                j + 1
            };
            assert(big[uj].dependents.contains(d));
        }
        assert forall|x: int, y: int, xx: Seq<char>, ss: Seq<char>|
            0 <= x < small.len() && 0 <= y < small.len() && x != y implies !(#[trigger] covers_at(
            small,
            x,
            xx,
            ss,
        ) && #[trigger] covers_at(small, y, xx, ss)) by {
            let ux = if x < a.len() {
                x
            } else {
                x + 1
            };
            let uy = if y < a.len() {
                y
            } else {
                y + 1
            };
            if covers_at(small, x, xx, ss) && covers_at(small, y, xx, ss) {
                assert(covers_at(big, ux, xx, ss) && covers_at(big, uy, xx, ss));
            }
        }
    }
}

/// The names of the shards whose dependents include `scene`, in list order.
fn collect_shard_names(v: &Vec<Shard>, scene: &String) -> (r: Vec<String>)
    ensures
        r.deep_view() == shard_names_for(cands(v@), scene@),
{
    let mut out: Vec<String> = Vec::new();
    let n = v.len();
    let mut i: usize = 0;
    proof {
        assert(cands(v@).take(0) =~= Seq::<CandV>::empty());
        assert(Seq::<CandV>::empty().filter(|c: CandV| c.dependents.contains(scene@))
            =~= Seq::<CandV>::empty()) by {
            reveal(Seq::filter);
        }
        assert(out.deep_view() =~= shard_names_for(cands(v@).take(0), scene@));
    }
    while i < n
        invariant
            n == v@.len(),
            0 <= i <= n,
            out.deep_view() == shard_names_for(cands(v@).take(i as int), scene@),
        decreases n - i,
    {
        let ghost before = cands(v@).take(i as int);
        let ghost c = cands(v@)[i as int];
        proof {
            lemma_filter_push(before, |cc: CandV| cc.dependents.contains(scene@), c);
            assert(cands(v@).take(i + 1) =~= before.push(c));
        }
        if vec_contains_string(&v[i].dependents, scene.as_str()) {
            let ghost outv = out.deep_view();
            out.push(v[i].name.clone());
            proof {
                assert(out.deep_view() =~= outv.push(c.name));
                assert(before.push(c).filter(|cc: CandV| cc.dependents.contains(scene@))
                    =~= before.filter(|cc: CandV| cc.dependents.contains(scene@)).push(c));
                assert(shard_names_for(before.push(c), scene@) =~= shard_names_for(
                    before,
                    scene@,
                ).push(c.name));
            }
        } else {
            proof {
                assert(shard_names_for(before.push(c), scene@) =~= shard_names_for(before, scene@));
            }
        }
        i = i + 1;
    }
    proof {
        assert(cands(v@).take(n as int) =~= cands(v@));
    }
    out
}

/// Partition the scenes' required assets into non-overlapping named shards
/// and assemble the static shard: each scene's record (its required-asset
/// list now cleared, its shard list filled in), the scene-to-shards map, the
/// scripts and the preferences.
pub fn generate_shards(scenes: Vec<Scene>, scripts: Vec<ScriptingSource>, preferences: &Preferences)
    -> (r: (Vec<Shard>, StaticShard))
    requires
        forall|i: int, j: int|
            0 <= i < j < scenes@.len() ==> (#[trigger] scenes@[i])@.name != (
            #[trigger] scenes@[j])@.name,
        forall|i: int|
            0 <= i < scenes@.len() ==> distinct_seq((#[trigger] scenes@[i])@.required_assets),
    ensures
        ({
            let out = cands(r.0@);
            let reqs = crate::static_shard::scenes_view(scenes@);
            let st = r.1@;
            &&& pairwise_disjoint(out)
            &&& forall|x: Seq<char>|
                #![trigger in_universe(out, x)]
                in_universe(out, x) <==> some_scene_requires(reqs, x)
            &&& forall|x: Seq<char>, s: Seq<char>|
                #![trigger covers(out, x, s)]
                covers(out, x, s) <==> scene_requires(reqs, x, s)
            &&& forall|j: int| 0 <= j < out.len() ==> (#[trigger] out[j]).assets.len() > 0
            &&& all_assets_distinct(out)
            &&& roots_single(out)
            &&& dependents_wf(out, scene_names(reqs))
            &&& forall|j: int|
                0 <= j < out.len() ==> (#[trigger] out[j]).name == spec_shard_name(out[j].assets)
            &&& st.scripts == crate::static_shard::sources_view(scripts@)
            &&& st.preferences == preferences@
            &&& st.scenes.len() == reqs.len()
            &&& forall|i: int|
                0 <= i < reqs.len() ==> {
                    let sc = #[trigger] st.scenes[i];
                    &&& sc.name == reqs[i].name
                    &&& sc.graph == reqs[i].graph
                    &&& sc.id_space == reqs[i].id_space
                    &&& sc.required_assets == Seq::<Seq<char>>::empty()
                    &&& sc.shards == shard_names_for(out, reqs[i].name)
                }
            &&& st.shard_map.len() == reqs.len()
            &&& forall|i: int|
                0 <= i < reqs.len() ==> (#[trigger] st.shard_map[i]) == (
                reqs[i].name,
                shard_names_for(out, reqs[i].name),
            )
        }),
{
    let ghost reqs = crate::static_shard::scenes_view(scenes@);
    // seed one candidate per scene
    let mut shards: Vec<Shard> = Vec::new();
    let ns = scenes.len();
    let mut si: usize = 0;
    while si < ns
        invariant
            ns == scenes@.len(),
            0 <= si <= ns,
            reqs == crate::static_shard::scenes_view(scenes@),
            cands(shards@) =~= seeds(reqs.take(si as int)),
        decreases ns - si,
    {
        let mut deps: Vec<String> = Vec::new();
        deps.push(scenes[si].name.clone());
        let assets = clone_string_vec(&scenes[si].required_assets);
        let ghost prevc = cands(shards@);
        let fresh = Shard::new(assets, true, deps);
        let ghost sv = fresh@;
        shards.push(fresh);
        proof {
            assert(cands(shards@) =~= prevc.push(sv));
            assert(sv.dependents =~= seq![reqs[si as int].name]);
            assert(sv =~~= seed(reqs[si as int]));
            assert(reqs.take(si as int + 1) =~= reqs.take(si as int).push(reqs[si as int]));
            assert(seeds(reqs.take(si as int + 1)) =~= seeds(reqs.take(si as int)).push(
                seed(reqs[si as int]),
            ));
        }
        si = si + 1;
    }
    proof {
        assert(reqs.take(ns as int) =~= reqs);
        lemma_seeds(reqs);
        assert(forall|i: int|
            0 <= i < reqs.len() ==> distinct_seq((#[trigger] reqs[i]).required_assets));
        assert(forall|i: int, j: int|
            0 <= i < j < reqs.len() ==> (#[trigger] reqs[i]).name != (#[trigger] reqs[j]).name);
        assert(dependents_wf(cands(shards@), scene_names(reqs)));
    }
    // peel shared assets until a full pass changes nothing
    let mut changed = true;
    while changed
        invariant
            forall|x: Seq<char>, s: Seq<char>|
                #![trigger covers(cands(shards@), x, s)]
                #![trigger scene_requires(reqs, x, s)]
                covers(cands(shards@), x, s) <==> scene_requires(reqs, x, s),
            forall|x: Seq<char>|
                #![trigger in_universe(cands(shards@), x)]
                #![trigger some_scene_requires(reqs, x)]
                in_universe(cands(shards@), x) <==> some_scene_requires(reqs, x),
            all_assets_distinct(cands(shards@)),
            roots_single(cands(shards@)),
            dependents_wf(cands(shards@), scene_names(reqs)),
            !changed ==> pairwise_disjoint(cands(shards@)),
        decreases total_assets(cands(shards@)) + 1, (if changed {
            1int
        } else {
            0int
        }),
    {
        let ghost pass0 = cands(shards@);
        changed = false;
        let mut k: usize = 0;
        while k < shards.len()
            invariant
                0 <= k <= shards@.len(),
                forall|x: Seq<char>, s: Seq<char>|
                    #![trigger covers(cands(shards@), x, s)]
                    #![trigger scene_requires(reqs, x, s)]
                    covers(cands(shards@), x, s) <==> scene_requires(reqs, x, s),
                forall|x: Seq<char>|
                    #![trigger in_universe(cands(shards@), x)]
                    #![trigger some_scene_requires(reqs, x)]
                    in_universe(cands(shards@), x) <==> some_scene_requires(reqs, x),
                all_assets_distinct(cands(shards@)),
                roots_single(cands(shards@)),
                dependents_wf(cands(shards@), scene_names(reqs)),
                changed ==> total_assets(cands(shards@)) < total_assets(pass0),
                !changed ==> cands(shards@) == pass0,
                !changed ==> forall|kp: int|
                    0 <= kp < k ==> isolated(cands(shards@), #[trigger] cands(shards@)[kp]),
            decreases total_assets(cands(shards@)) + 1, shards@.len() - k,
        {
            let current = shards[k].clone();
            proof {
                assert(cands(shards@)[k as int] == current@);
            }
            match current.analyse_against(&shards) {
                Option::Some(new_shards) => {
                    proof {
                        assert(total_assets(cands(new_shards@)) < total_assets(cands(shards@)));
                    }
                    shards = new_shards;
                    changed = true;
                },
                Option::None => {},
            }
            k = k + 1;
        }
        proof {
            if !changed {
                lemma_fixpoint_disjoint(cands(shards@));
            }
        }
    }
    // drop candidates left with no assets
    let ghost fix = cands(shards@);
    let mut kept: Vec<Shard> = Vec::new();
    let nf = shards.len();
    let mut j: usize = 0;
    proof {
        assert(cands(kept@) + cands(shards@).skip(0) =~= fix);
    }
    while j < nf
        invariant
            nf == shards@.len(),
            0 <= j <= nf,
            cands(shards@) == fix,
            ({
                let comb = cands(kept@) + fix.skip(j as int);
                &&& forall|x: Seq<char>, s: Seq<char>|
                    #![trigger covers(comb, x, s)]
                    #![trigger scene_requires(reqs, x, s)]
                    covers(comb, x, s) <==> scene_requires(reqs, x, s)
                &&& forall|x: Seq<char>|
                    #![trigger in_universe(comb, x)]
                    #![trigger some_scene_requires(reqs, x)]
                    in_universe(comb, x) <==> some_scene_requires(reqs, x)
                &&& pairwise_disjoint(comb)
                &&& all_assets_distinct(comb)
                &&& roots_single(comb)
                &&& dependents_wf(comb, scene_names(reqs))
            }),
            forall|t: int| 0 <= t < cands(kept@).len() ==> (#[trigger] cands(kept@)[t]).assets.len()
                > 0,
        decreases nf - j,
    {
        let ghost keptv = cands(kept@);
        if shards[j].assets.len() > 0 {
            kept.push(shards[j].clone());
            proof {
                assert(cands(kept@) =~= keptv.push(fix[j as int]));
                assert(cands(kept@) + fix.skip(j as int + 1) =~= keptv + fix.skip(j as int));
            }
        } else {
            proof {
                assert(fix.skip(j as int) =~= seq![fix[j as int]] + fix.skip(j as int + 1));
                lemma_drop_empty(keptv, fix[j as int], fix.skip(j as int + 1));
                assert(keptv + fix.skip(j as int) =~= keptv + (seq![fix[j as int]] + fix.skip(
                    j as int + 1,
                )));
            }
        }
        j = j + 1;
    }
    proof {
        assert(fix.skip(nf as int) =~= Seq::<CandV>::empty());
        assert(cands(kept@) + fix.skip(nf as int) =~= cands(kept@));
    }
    // derive each kept shard's content name
    let ghost unnamed = cands(kept@);
    let nk = kept.len();
    let mut m: usize = 0;
    while m < nk
        invariant
            nk == kept@.len(),
            cands(kept@).len() == unnamed.len(),
            0 <= m <= nk,
            forall|t: int|
                0 <= t < nk ==> {
                    let c = #[trigger] cands(kept@)[t];
                    c.assets == unnamed[t].assets && c.is_root == unnamed[t].is_root
                        && c.dependents == unnamed[t].dependents
                },
            forall|t: int|
                0 <= t < m ==> (#[trigger] cands(kept@)[t]).name == spec_shard_name(
                    cands(kept@)[t].assets,
                ),
        decreases nk - m,
    {
        let ghost pre = cands(kept@);
        let mut tmp = kept[m].clone();
        tmp.generate_name();
        let ghost tv = tmp@;
        kept.set(m, tmp);
        proof {
            assert(cands(kept@) =~= pre.update(m as int, tv));
            assert(tv.assets == pre[m as int].assets && tv.is_root == pre[m as int].is_root
                && tv.dependents == pre[m as int].dependents);
            assert forall|t: int| 0 <= t < nk implies {
                let c = #[trigger] cands(kept@)[t];
                c.assets == unnamed[t].assets && c.is_root == unnamed[t].is_root && c.dependents
                    == unnamed[t].dependents
            } by {
                if t == m as int {
                    assert(cands(kept@)[t] == tv);
                } else {
                    assert(cands(kept@)[t] == pre[t]);
                }
            }
        }
        m = m + 1;
    }
    proof {
        lemma_same_structure(unnamed, cands(kept@));
        assert forall|x: Seq<char>, s: Seq<char>|
            covers(cands(kept@), x, s) <==> scene_requires(reqs, x, s) by {}
    }
    // assemble the scene records and the scene-to-shards map
    let mut out_scenes: Vec<Scene> = Vec::new();
    let mut shard_map: Vec<(String, Vec<String>)> = Vec::new();
    let mut q: usize = 0;
    while q < ns
        invariant
            ns == scenes@.len(),
            reqs == crate::static_shard::scenes_view(scenes@),
            0 <= q <= ns,
            out_scenes@.len() == q,
            shard_map@.len() == q,
            forall|i: int|
                0 <= i < q ==> {
                    let sc = (#[trigger] out_scenes@[i])@;
                    &&& sc.name == reqs[i].name
                    &&& sc.graph == reqs[i].graph
                    &&& sc.id_space == reqs[i].id_space
                    &&& sc.required_assets == Seq::<Seq<char>>::empty()
                    &&& sc.shards == shard_names_for(cands(kept@), reqs[i].name)
                },
            forall|i: int|
                0 <= i < q ==> ((#[trigger] shard_map@[i]).0@, shard_map@[i].1.deep_view()) == (
                reqs[i].name,
                shard_names_for(cands(kept@), reqs[i].name),
            ),
        decreases ns - q,
    {
        let names = collect_shard_names(&kept, &scenes[q].name);
        let names2 = clone_string_vec(&names);
        out_scenes.push(
            Scene {
                name: scenes[q].name.clone(),
                required_assets: Vec::new(),
                shards: names,
                graph: scenes[q].graph.clone(),
                id_space: scenes[q].id_space,
            },
        );
        shard_map.push((scenes[q].name.clone(), names2));
        q = q + 1;
    }
    let static_shard = StaticShard::new(shard_map, scripts, out_scenes, preferences.clone());
    proof {
        assert(crate::static_shard::scenes_view(out_scenes@).len() == reqs.len());
    }
    (kept, static_shard)
}

/// Candidate lists that agree on assets, dependents and root flags agree on
/// every partitioning property.
proof fn lemma_same_structure(a: Seq<CandV>, b: Seq<CandV>)
    requires
        a.len() == b.len(),
        forall|t: int|
            0 <= t < a.len() ==> {
                let c = #[trigger] b[t];
                c.assets == a[t].assets && c.is_root == a[t].is_root && c.dependents
                    == a[t].dependents
            },
    ensures
        forall|x: Seq<char>, s: Seq<char>|
            #![trigger covers(a, x, s)]
            #![trigger covers(b, x, s)]
            covers(a, x, s) <==> covers(b, x, s),
        forall|x: Seq<char>|
            #![trigger in_universe(a, x)]
            #![trigger in_universe(b, x)]
            in_universe(a, x) <==> in_universe(b, x),
        pairwise_disjoint(a) ==> pairwise_disjoint(b),
        all_assets_distinct(a) ==> all_assets_distinct(b),
        roots_single(a) ==> roots_single(b),
        forall|names: Seq<Seq<char>>|
            #![trigger dependents_wf(b, names)]
            dependents_wf(a, names) ==> dependents_wf(b, names),
        forall|t: int| 0 <= t < a.len() ==> (#[trigger] a[t]).assets.len() == b[t].assets.len(),
{
    assert forall|x: Seq<char>, s: Seq<char>| covers(a, x, s) <==> covers(b, x, s) by {
        if covers(a, x, s) {
            let i = choose|i: int|
                0 <= i < a.len() && (#[trigger] a[i]).assets.contains(x)
                    && a[i].dependents.contains(s);
            assert(b[i].assets.contains(x) && b[i].dependents.contains(s));
        }
        if covers(b, x, s) {
            let i = choose|i: int|
                0 <= i < b.len() && (#[trigger] b[i]).assets.contains(x)
                    && b[i].dependents.contains(s);
            assert(a[i].assets.contains(x) && a[i].dependents.contains(s));
        }
    }
    assert forall|x: Seq<char>| in_universe(a, x) <==> in_universe(b, x) by {
        if in_universe(a, x) {
            let i = choose|i: int| 0 <= i < a.len() && (#[trigger] a[i]).assets.contains(x);
            assert(b[i].assets.contains(x));
        }
        if in_universe(b, x) {
            let i = choose|i: int| 0 <= i < b.len() && (#[trigger] b[i]).assets.contains(x);
            assert(a[i].assets.contains(x));
        }
    }
    if pairwise_disjoint(a) {
        assert forall|i: int, j: int|
            0 <= i < b.len() && 0 <= j < b.len() && i != j implies seqs_disjoint(
            (#[trigger] b[i]).assets,
            (#[trigger] b[j]).assets,
        ) by {
            assert(seqs_disjoint(a[i].assets, a[j].assets));
        }
    }
    if all_assets_distinct(a) {
        assert forall|i: int| 0 <= i < b.len() implies distinct_seq((#[trigger] b[i]).assets) by {
            assert(distinct_seq(a[i].assets));
        }
    }
    if roots_single(a) {
        assert forall|i: int|
            0 <= i < b.len() && (#[trigger] b[i]).is_root implies b[i].dependents.len() == 1 by {
            assert(a[i].is_root);
        }
    }
    assert forall|names: Seq<Seq<char>>|
        dependents_wf(a, names) implies #[trigger] dependents_wf(b, names) by {
        assert(forall|j: int|
            0 <= j < b.len() ==> (#[trigger] b[j]).is_root == a[j].is_root && b[j].dependents
                == a[j].dependents && b[j].assets == a[j].assets);
        assert forall|x: int, y: int, xx: Seq<char>, ss: Seq<char>|
            0 <= x < b.len() && 0 <= y < b.len() && x != y implies !(#[trigger] covers_at(
            b,
            x,
            xx,
            ss,
        ) && #[trigger] covers_at(b, y, xx, ss)) by {
            if covers_at(b, x, xx, ss) && covers_at(b, y, xx, ss) {
                assert(covers_at(a, x, xx, ss) && covers_at(a, y, xx, ss));
            }
        }
    }
}

/// Dedup effectiveness: in a pairwise-disjoint, root-respecting shard set, an
/// asset required by two distinct scenes sits in a single shard whose
/// dependents include both scenes, and that shard is not either scene's own
/// root shard.
pub proof fn lemma_shared_asset_has_shared_shard(
    cs: Seq<CandV>,
    x: Seq<char>,
    s1: Seq<char>,
    s2: Seq<char>,
)
    requires
        pairwise_disjoint(cs),
        roots_single(cs),
        covers(cs, x, s1),
        covers(cs, x, s2),
        s1 != s2,
    ensures
        exists|i: int|
            0 <= i < cs.len() && (#[trigger] cs[i]).assets.contains(x) && cs[i].dependents.contains(
                s1,
            ) && cs[i].dependents.contains(s2) && !cs[i].is_root,
{
    let i1 = choose|i: int|
        0 <= i < cs.len() && (#[trigger] cs[i]).assets.contains(x) && cs[i].dependents.contains(s1);
    let i2 = choose|i: int|
        0 <= i < cs.len() && (#[trigger] cs[i]).assets.contains(x) && cs[i].dependents.contains(s2);
    assert(i1 == i2) by {
        if i1 != i2 {
            assert(seqs_disjoint(cs[i1].assets, cs[i2].assets));
        }
    }
    assert(!cs[i1].is_root) by {
        if cs[i1].is_root {
            assert(cs[i1].dependents.len() == 1);
            let k1 = choose|k: int| 0 <= k < cs[i1].dependents.len() && cs[i1].dependents[k] == s1;
            let k2 = choose|k: int| 0 <= k < cs[i1].dependents.len() && cs[i1].dependents[k] == s2;
            assert(k1 == 0 && k2 == 0);
        }
    }
}

/// A shard holding an asset that only one scene requires keeps exactly that
/// scene as its sole dependent and stays a root shard.
pub proof fn lemma_sole_scene_shard(
    cs: Seq<CandV>,
    names: Seq<Seq<char>>,
    j: int,
    x: Seq<char>,
    s: Seq<char>,
)
    requires
        dependents_wf(cs, names),
        0 <= j < cs.len(),
        cs[j].assets.contains(x),
        forall|d: Seq<char>| covers(cs, x, d) ==> d == s,
    ensures
        cs[j].dependents =~= seq![s],
        cs[j].is_root,
{
    assert forall|k: int| 0 <= k < cs[j].dependents.len() implies cs[j].dependents[k] == s by {
        let d = cs[j].dependents[k];
        assert(cs[j].dependents.contains(d));
        assert(covers(cs, x, d));
    }
    assert(cs[j].dependents.len() >= 1);
    assert(cs[j].dependents.len() == 1) by {
        if cs[j].dependents.len() >= 2 {
            assert(cs[j].dependents[0] == s && cs[j].dependents[1] == s);
            assert(distinct_seq(cs[j].dependents));
        }
    }
}

impl PartialEq for Shard {
    fn eq(&self, other: &Shard) -> (r: bool) {
        same_shard(self, other)
    }
}

impl vstd::std_specs::cmp::PartialEqSpecImpl for Shard {
    open spec fn obeys_eq_spec() -> bool {
        true
    }

    open spec fn eq_spec(&self, other: &Shard) -> bool {
        self@ == other@
    }
}

} // verus!
