//! World transforms over the parent hierarchy: a local delta per entity and
//! a memoized world transform, recomputed only where the entity or one of
//! its ancestors changed.
use std::collections::{HashMap, HashSet};
use vstd::prelude::*;
use crate::entity::{Entity, Operation, lookup};
use crate::parent::{Parent, ParentData, acyclic, ancestor, lemma_ancestor_step, lemma_ended};

verus! {

broadcast use vstd::std_specs::hash::group_hash_axioms;

/// A uniform scale followed by a translation, in exact (wrapping) integer
/// arithmetic.
#[derive(Clone, Copy, Debug, PartialEq, Eq, Structural)]
pub struct Delta {
    pub scale: i64,
    pub x: i64,
    pub y: i64,
    pub z: i64,
}

/// The transform that changes nothing.
pub open spec fn identity() -> Delta {
    Delta { scale: 1, x: 0, y: 0, z: 0 }
}

/// `child` applied inside `parent`: the child's delta first, then the parent's.
pub open spec fn compose(parent: Delta, child: Delta) -> Delta {
    Delta {
        scale: parent.scale.wrapping_mul(child.scale),
        x: parent.x.wrapping_add(parent.scale.wrapping_mul(child.x)),
        y: parent.y.wrapping_add(parent.scale.wrapping_mul(child.y)),
        z: parent.z.wrapping_add(parent.scale.wrapping_mul(child.z)),
    }
}

impl Delta {
    /// The transform that changes nothing.
    pub fn identity() -> (r: Delta)
        ensures
            r == identity(),
    {
        Delta { scale: 1, x: 0, y: 0, z: 0 }
    }

    /// A pure translation.
    pub fn translate(x: i64, y: i64, z: i64) -> (r: Delta)
        ensures
            r == (Delta { scale: 1, x, y, z }),
    {
        Delta { scale: 1, x, y, z }
    }

    /// `child` applied inside `self`.
    pub fn concat(&self, child: &Delta) -> (r: Delta)
        ensures
            r == compose(*self, *child),
    {
        Delta {
            scale: self.scale.wrapping_mul(child.scale),
            x: self.x.wrapping_add(self.scale.wrapping_mul(child.x)),
            y: self.y.wrapping_add(self.scale.wrapping_mul(child.y)),
            z: self.z.wrapping_add(self.scale.wrapping_mul(child.z)),
        }
    }

    /// Maps the point (`x`, `y`, `z`).
    pub fn transform_point(&self, x: i64, y: i64, z: i64) -> (r: (i64, i64, i64))
        ensures
            r == (
                self.x.wrapping_add(self.scale.wrapping_mul(x)),
                self.y.wrapping_add(self.scale.wrapping_mul(y)),
                self.z.wrapping_add(self.scale.wrapping_mul(z)),
            ),
    {
        (
            self.x.wrapping_add(self.scale.wrapping_mul(x)),
            self.y.wrapping_add(self.scale.wrapping_mul(y)),
            self.z.wrapping_add(self.scale.wrapping_mul(z)),
        )
    }
}

/// An entity whose world needs a local delta that was never written, for
/// itself or for one of its ancestors.
#[derive(Clone, Copy, Debug, PartialEq, Eq, Structural)]
pub struct MissingComponent {
    pub entity: Entity,
}

/// The state kept for one entity.
#[derive(Clone, Copy, Debug, PartialEq, Eq, Structural)]
pub struct TransformEntry {
    /// `world` must be recomputed before it is read.
    pub dirty: bool,
    pub local: Delta,
    pub world: Delta,
    /// The parent that `world` was computed under (`None`: no parent).
    pub solved_under: Option<u64>,
}

/// The parent of `e` as an identifier, `None` for a root or an unbound entity.
pub open spec fn edge(parents: Map<u64, Parent>, e: u64) -> Option<u64> {
    match lookup(parents, e) {
        Some(Parent::Child(p)) => Some(p.0),
        _ => None,
    }
}

/// A freshly written entry.
pub open spec fn fresh(local: Delta) -> TransformEntry {
    TransformEntry { dirty: true, local, world: identity(), solved_under: None }
}

/// The entries after a frame's local writes and deletes, in order.
pub open spec fn ingest(entries: Map<u64, TransformEntry>, ops: Seq<Operation<Delta>>) -> Map<u64, TransformEntry>
    decreases ops.len(),
{
    if ops.len() == 0 {
        entries
    } else {
        let next = match ops[0] {
            Operation::Upsert(e, d) => entries.insert(e.0, fresh(d)),
            Operation::Delete(e) => entries.remove(e.0),
        };
        ingest(next, ops.subrange(1, ops.len() as int))
    }
}

/// The world transform of `e` computed from scratch along its ancestor
/// chain, spending at most `fuel` parent steps; `None` where an entity on the
/// chain has no local delta or the chain is longer.
pub open spec fn chain_world(parents: Map<u64, Parent>, entries: Map<u64, TransformEntry>, e: u64, fuel: nat) -> Option<Delta>
    decreases fuel,
{
    if !entries.contains_key(e) {
        None
    } else {
        match edge(parents, e) {
            None => Some(compose(identity(), entries[e].local)),
            Some(p) => if fuel == 0 {
                None
            } else {
                match chain_world(parents, entries, p, (fuel - 1) as nat) {
                    Some(w) => Some(compose(w, entries[e].local)),
                    None => None,
                }
            },
        }
    }
}

/// Every clean entry's world is its parent's world (or the identity)
/// composed with its local delta, and its parent is clean.
pub open spec fn consistent(entries: Map<u64, TransformEntry>) -> bool {
    forall|c: u64| #[trigger] entries.contains_key(c) && !entries[c].dirty ==> match entries[c].solved_under {
        None => entries[c].world == compose(identity(), entries[c].local),
        Some(p) => entries.contains_key(p) && !entries[p].dirty
            && entries[c].world == compose(entries[p].world, entries[c].local),
    }
}

/// As `consistent`, but only between clean entries whose parent is also present and clean.
spec fn consistent_where_clean(entries: Map<u64, TransformEntry>) -> bool {
    forall|c: u64| #[trigger] entries.contains_key(c) && !entries[c].dirty ==> match entries[c].solved_under {
        None => entries[c].world == compose(identity(), entries[c].local),
        Some(p) => entries.contains_key(p) && !entries[p].dirty
            ==> entries[c].world == compose(entries[p].world, entries[c].local),
    }
}

/// Every clean entry was solved under the parent that `parents` gives it.
pub open spec fn synced(entries: Map<u64, TransformEntry>, parents: Map<u64, Parent>) -> bool {
    forall|c: u64| #[trigger] entries.contains_key(c) && !entries[c].dirty
        ==> entries[c].solved_under == edge(parents, c)
}

/// `entry` marked dirty where it was solved under another parent than `want`.
pub open spec fn resynced(entry: TransformEntry, want: Option<u64>) -> TransformEntry {
    if entry.solved_under == want {
        entry
    } else {
        TransformEntry { dirty: true, ..entry }
    }
}

/// `e` has an entry, and it or one of its ancestors (at most `k` steps up,
/// through entries) is dirty or was solved under a parent that has no entry.
pub open spec fn stale_within(parents: Map<u64, Parent>, entries: Map<u64, TransformEntry>, e: u64, k: nat) -> bool
    decreases k,
{
    entries.contains_key(e) && ({
        ||| entries[e].dirty
        ||| (entries[e].solved_under is Some && !entries.contains_key(entries[e].solved_under->Some_0))
        ||| (k > 0 && match edge(parents, e) {
            Some(p) => stale_within(parents, entries, p, (k - 1) as nat),
            None => false,
        })
    })
}

/// The world kept for `e` cannot be trusted: something at or above it changed.
pub open spec fn stale(parents: Map<u64, Parent>, entries: Map<u64, TransformEntry>, e: u64) -> bool {
    exists|k: nat| stale_within(parents, entries, e, k)
}

/// The entries after dropping those the hierarchy deleted and marking dirty
/// those whose parent changed.
pub open spec fn resync_all(entries: Map<u64, TransformEntry>, parents: Map<u64, Parent>, deleted: Set<u64>) -> Map<u64, TransformEntry> {
    Map::new(
        |k: u64| entries.contains_key(k) && !deleted.contains(k),
        |k: u64| resynced(entries[k], edge(parents, k)),
    )
}

/// The parent of `e` in `parent`, as an identifier.
fn edge_of(parent: &ParentData, e: u64) -> (r: Option<u64>)
    ensures
        r == edge(parent@.parents, e),
{
    match parent.read(Entity(e)) {
        Some(Parent::Child(p)) => Some(p.0),
        _ => None,
    }
}

fn same_edge(a: Option<u64>, b: Option<u64>) -> (r: bool)
    ensures
        r == (a == b),
{
    match (a, b) {
        (Some(x), Some(y)) => x == y,
        (None, None) => true,
        _ => false,
    }
}

/// The entries whose world is up to date.
pub open spec fn clean_set(entries: Map<u64, TransformEntry>) -> Set<u64> {
    entries.dom().filter(|k: u64| !entries[k].dirty)
}

proof fn lemma_clean_bound(entries: Map<u64, TransformEntry>)
    requires
        entries.dom().finite(),
    ensures
        clean_set(entries).finite(),
        clean_set(entries).len() <= entries.len(),
{
    entries.dom().lemma_len_filter(|k: u64| !entries[k].dirty);
}

/// The from-scratch world depends only on which entities have entries and
/// on their local deltas.
proof fn lemma_chain_world_frame(
    parents: Map<u64, Parent>,
    a: Map<u64, TransformEntry>,
    b: Map<u64, TransformEntry>,
    e: u64,
    fuel: nat,
)
    requires
        a.dom() == b.dom(),
        forall|k: u64| #[trigger] a.contains_key(k) ==> a[k].local == b[k].local,
    ensures
        chain_world(parents, a, e, fuel) == chain_world(parents, b, e, fuel),
    decreases fuel,
{
    assert(a.contains_key(e) <==> b.contains_key(e));
    if fuel > 0 {
        if let Some(p) = edge(parents, e) {
            lemma_chain_world_frame(parents, a, b, p, (fuel - 1) as nat);
        }
    }
}

/// In a solved state, a clean entity's world can be computed from scratch:
/// its ancestors are clean too, up to a root.
proof fn lemma_clean_resolves(parents: Map<u64, Parent>, entries: Map<u64, TransformEntry>, e: u64, b: nat)
    requires
        consistent(entries),
        synced(entries, parents),
        entries.contains_key(e),
        !entries[e].dirty,
        ancestor(parents, e, b) is None,
    ensures
        chain_world(parents, entries, e, b) is Some,
    decreases b,
{
    if let Some(p) = edge(parents, e) {
        lemma_clean_resolves(parents, entries, p, (b - 1) as nat);
    }
}

/// Memoization never hands out a stale value: in a solved state, the world
/// kept for a clean entity equals its world recomputed from scratch along its
/// ancestor chain, whenever that recomputation finishes.
pub proof fn lemma_world_from_scratch(parents: Map<u64, Parent>, entries: Map<u64, TransformEntry>, e: u64, fuel: nat)
    requires
        consistent(entries),
        synced(entries, parents),
        entries.contains_key(e),
        !entries[e].dirty,
        chain_world(parents, entries, e, fuel) is Some,
    ensures
        entries[e].world == chain_world(parents, entries, e, fuel)->Some_0,
    decreases fuel,
{
    if let Some(p) = edge(parents, e) {
        lemma_world_from_scratch(parents, entries, p, (fuel - 1) as nat);
    }
}

/// After marking, every stale entry is dirty: a clean entry has a clean
/// parent that it was solved under.
proof fn lemma_stale_is_dirty(
    parents: Map<u64, Parent>,
    before: Map<u64, TransformEntry>,
    after: Map<u64, TransformEntry>,
    e: u64,
    k: nat,
)
    requires
        consistent(after),
        synced(after, parents),
        after.dom() == before.dom(),
        forall|x: u64| #[trigger] after.contains_key(x) && !after[x].dirty ==> after[x] == before[x],
        stale_within(parents, before, e, k),
    ensures
        after[e].dirty,
    decreases k,
{
    assert(after.contains_key(e));
    if !after[e].dirty {
        assert(after[e] == before[e]);
        if !before[e].dirty && !(before[e].solved_under is Some && !before.contains_key(before[e].solved_under->Some_0)) {
            let p = edge(parents, e)->Some_0;
            lemma_stale_is_dirty(parents, before, after, p, (k - 1) as nat);
        }
    }
}

/// The transform system's snapshot.
#[derive(Clone)]
pub struct TransformData {
    entries: HashMap<u64, TransformEntry>,
    /// Every key of `entries`, once: the solve walks this list while it
    /// writes into `entries`, which a walk over the map's own keys cannot.
    keys: Vec<u64>,
}

impl TransformData {
    pub closed spec fn view(&self) -> Map<u64, TransformEntry> {
        self.entries@
    }

    pub closed spec fn wf(&self) -> bool {
        &&& self.keys@.no_duplicates()
        &&& forall|k: u64| self.keys@.contains(k) <==> #[trigger] self.entries@.contains_key(k)
        &&& consistent(self.entries@)
    }

    /// Every entry is listed in `keys`, and clean entries agree with clean parents.
    closed spec fn loose(&self) -> bool {
        &&& forall|k: u64| #[trigger] self.entries@.contains_key(k) ==> self.keys@.contains(k)
        &&& consistent_where_clean(self.entries@)
    }

    /// Applies a frame's local writes and deletes in order.
    fn ingest_ops(&mut self, msgs: &Vec<Operation<Delta>>)
        requires
            old(self).loose(),
        ensures
            final(self).loose(),
            final(self)@ == ingest(old(self)@, msgs@),
    {
        let mut i: usize = 0;
        proof {
            assert(msgs@.subrange(0, msgs@.len() as int) =~= msgs@);
        }
        while i < msgs.len()
            invariant
                0 <= i <= msgs.len(),
                self.loose(),
                ingest(old(self)@, msgs@) == ingest(self@, msgs@.subrange(i as int, msgs@.len() as int)),
            decreases msgs.len() - i,
        {
            let ghost rest = msgs@.subrange(i as int, msgs@.len() as int);
            assert(rest.subrange(1, rest.len() as int) =~= msgs@.subrange(i + 1, msgs@.len() as int));
            match msgs[i] {
                Operation::Upsert(e, d) => {
                    if !self.entries.contains_key(&e.0) {
                        let ghost keys0 = self.keys@;
                        self.keys.push(e.0);
                        proof {
                            assert(self.keys@[self.keys@.len() - 1] == e.0);
                            assert forall|k: u64| self.entries@.contains_key(k) implies #[trigger] self.keys@.contains(k) by {
                                assert(keys0.contains(k));
                                let j = choose|j: int| 0 <= j < keys0.len() && keys0[j] == k;
                                assert(self.keys@[j] == k);
                            }
                        }
                    }
                    self.entries.insert(e.0, TransformEntry { dirty: true, local: d, world: Delta::identity(), solved_under: None });
                },
                Operation::Delete(e) => {
                    self.entries.remove(&e.0);
                },
            }
            i = i + 1;
        }
        proof {
            assert(msgs@.subrange(i as int, msgs@.len() as int) =~= Seq::<Operation<Delta>>::empty());
        }
    }

    /// Drops the entries of entities deleted from the hierarchy this frame,
    /// marks dirty every entry whose parent changed since it was solved, and
    /// rebuilds `keys` without duplicates.
    fn sync(&mut self, parent: &ParentData)
        requires
            old(self).loose(),
        ensures
            final(self).keys@.no_duplicates(),
            forall|k: u64| final(self).keys@.contains(k) <==> #[trigger] final(self)@.contains_key(k),
            final(self)@.dom() == old(self)@.dom().difference(parent@.deleted.dom()),
            forall|k: u64| #[trigger] final(self)@.contains_key(k) ==>
                final(self)@[k] == resynced(old(self)@[k], edge(parent@.parents, k)),
            consistent_where_clean(final(self)@),
            synced(final(self)@, parent@.parents),
    {
        let mut seen: HashSet<u64> = HashSet::new();
        let mut kept: Vec<u64> = Vec::new();
        let mut i: usize = 0;
        while i < self.keys.len()
            invariant
                0 <= i <= self.keys.len(),
                self.keys@ == old(self).keys@,
                kept@.no_duplicates(),
                forall|k: u64| kept@.contains(k) <==> (seen@.contains(k) && #[trigger] self@.contains_key(k)),
                forall|k: u64| #[trigger] seen@.contains(k) <==> exists|j: int| 0 <= j < i && self.keys@[j] == k,
                forall|k: u64| #[trigger] self@.contains_key(k) <==>
                    (old(self)@.contains_key(k) && !(seen@.contains(k) && parent@.deleted.contains_key(k))),
                forall|k: u64| #[trigger] self@.contains_key(k) ==> {
                    &&& (seen@.contains(k) ==> self@[k] == resynced(old(self)@[k], edge(parent@.parents, k)))
                    &&& (!seen@.contains(k) ==> self@[k] == old(self)@[k])
                },
                consistent_where_clean(self@),
                consistent_where_clean(old(self)@),
            decreases self.keys.len() - i,
        {
            let k = self.keys[i];
            let ghost seen0 = seen@;
            let ghost kept0 = kept@;
            let ghost e0 = self@;
            if !seen.contains(&k) {
                seen.insert(k);
                match self.entries.get(&k) {
                    Some(entry) => {
                        let entry = *entry;
                        if parent.deleted(Entity(k)).is_some() {
                            self.entries.remove(&k);
                        } else {
                            let want = edge_of(parent, k);
                            if !same_edge(entry.solved_under, want) {
                                self.entries.insert(k, TransformEntry { dirty: true, ..entry });
                            }
                            kept.push(k);
                            proof {
                                assert(kept@[kept@.len() - 1] == k);
                                assert forall|q: u64| #[trigger] kept@.contains(q) implies kept0.contains(q) || q == k by {
                                    let j = choose|j: int| 0 <= j < kept@.len() && kept@[j] == q;
                                    if j < kept0.len() {
                                        assert(kept0[j] == q);
                                    }
                                }
                                assert forall|q: u64| #[trigger] kept0.contains(q) implies kept@.contains(q) by {
                                    let j = choose|j: int| 0 <= j < kept0.len() && kept0[j] == q;
                                    assert(kept@[j] == q);
                                }
                            }
                        }
                    },
                    None => {},
                }
            }
            assert(seen@ =~= seen0.insert(k));
            assert(forall|q: u64| #[trigger] kept@.contains(q) ==> kept0.contains(q) || q == k);
            assert(forall|q: u64| #[trigger] kept0.contains(q) ==> kept@.contains(q));
            assert(!seen0.contains(k) ==> !kept0.contains(k));
            assert(kept@.contains(k) <==> (seen@.contains(k) && self@.contains_key(k)));
            i = i + 1;
            proof {
                assert forall|q: u64| #[trigger] kept@.contains(q) <==> (seen@.contains(q) && self@.contains_key(q)) by {
                    if q != k {
                        assert(kept@.contains(q) <==> kept0.contains(q));
                        assert(self@.contains_key(q) <==> e0.contains_key(q));
                    }
                }
                assert(self.keys@[i - 1] == k);
                assert forall|q: u64| #[trigger] seen@.contains(q) <==> exists|j: int| 0 <= j < i && self.keys@[j] == q by {
                    if seen0.contains(q) {
                        let j = choose|j: int| 0 <= j < i - 1 && self.keys@[j] == q;
                        assert(0 <= j < i);
                    }
                    if exists|j: int| 0 <= j < i && self.keys@[j] == q {
                        let j = choose|j: int| 0 <= j < i && self.keys@[j] == q;
                        if j < i - 1 {
                            assert(seen0.contains(q));
                        }
                    }
                }
                assert forall|c: u64| #[trigger] self@.contains_key(c) && !self@[c].dirty implies
                    match self@[c].solved_under {
                        None => self@[c].world == compose(identity(), self@[c].local),
                        Some(p) => self@.contains_key(p) && !self@[p].dirty
                            ==> self@[c].world == compose(self@[p].world, self@[c].local),
                    } by {
                    assert(e0.contains_key(c) && !e0[c].dirty);
                    if let Some(p) = self@[c].solved_under {
                        if self@.contains_key(p) && !self@[p].dirty {
                            assert(e0.contains_key(p) && !e0[p].dirty);
                        }
                    }
                }
            }
        }
        proof {
            assert forall|k: u64| #[trigger] self@.contains_key(k) implies seen@.contains(k) by {
                assert(old(self).keys@.contains(k));
                let j = choose|j: int| 0 <= j < old(self).keys@.len() && old(self).keys@[j] == k;
                assert(self.keys@[j] == k);
            }
            assert(self@.dom() =~= old(self)@.dom().difference(parent@.deleted.dom()));
        }
        self.keys = kept;
    }

    /// Marks `k`'s entry dirty.
    fn set_dirty(&mut self, k: u64)
        requires
            old(self)@.contains_key(k),
        ensures
            final(self)@ == old(self)@.insert(k, TransformEntry { dirty: true, ..old(self)@[k] }),
            final(self).keys@ == old(self).keys@,
    {
        let entry = *self.entries.get(&k).unwrap();
        self.entries.insert(k, TransformEntry { dirty: true, ..entry });
    }

    /// Marks dirty every entry below a dirty one, and every entry whose
    /// parent has no entry, so that a clean entry always has a clean parent.
    fn mark(&mut self, parent: &ParentData)
        requires
            parent.wf(),
            old(self).keys@.no_duplicates(),
            forall|k: u64| old(self).keys@.contains(k) <==> #[trigger] old(self)@.contains_key(k),
            consistent_where_clean(old(self)@),
            synced(old(self)@, parent@.parents),
        ensures
            final(self).keys@ == old(self).keys@,
            final(self)@.dom() == old(self)@.dom(),
            forall|k: u64| #[trigger] final(self)@.contains_key(k) ==> {
                &&& final(self)@[k].local == old(self)@[k].local
                &&& (old(self)@[k].dirty ==> final(self)@[k].dirty)
                &&& (!final(self)@[k].dirty ==> final(self)@[k] == old(self)@[k])
            },
            consistent(final(self)@),
            synced(final(self)@, parent@.parents),
            forall|k: u64| #[trigger] final(self)@.contains_key(k) ==> final(self)@[k] == (
                if stale(parent@.parents, old(self)@, k) {
                    TransformEntry { dirty: true, ..old(self)@[k] }
                } else {
                    old(self)@[k]
                }),
    {
        let mut stack: Vec<u64> = Vec::new();
        let mut i: usize = 0;
        assert forall|k: u64| #[trigger] self@.contains_key(k) && self@[k].dirty implies stale(parent@.parents, old(self)@, k) by {
            assert(stale_within(parent@.parents, old(self)@, k, 0));
        }
        while i < self.keys.len()
            invariant
                0 <= i <= self.keys.len(),
                self.keys@ == old(self).keys@,
                forall|k: u64| old(self).keys@.contains(k) <==> #[trigger] old(self)@.contains_key(k),
                self@.dom() == old(self)@.dom(),
                forall|k: u64| #[trigger] self@.contains_key(k) ==> {
                    &&& self@[k].local == old(self)@[k].local
                    &&& (old(self)@[k].dirty ==> self@[k].dirty)
                    &&& (!self@[k].dirty ==> self@[k] == old(self)@[k])
                },
                forall|k: u64| #[trigger] self@.contains_key(k) ==>
                    self@[k] == old(self)@[k] || self@[k] == (TransformEntry { dirty: true, ..old(self)@[k] }),
                forall|k: u64| #[trigger] self@.contains_key(k) && self@[k].dirty ==> stale(parent@.parents, old(self)@, k),
                forall|k: u64| #[trigger] stack@.contains(k) ==> self@.contains_key(k) && self@[k].dirty,
                forall|j: int| 0 <= j < i ==> {
                    let k = #[trigger] self.keys@[j];
                    &&& (self@[k].dirty ==> stack@.contains(k))
                    &&& (!self@[k].dirty && self@[k].solved_under is Some ==> self@.contains_key(self@[k].solved_under->Some_0))
                },
            decreases self.keys.len() - i,
        {
            let k = self.keys[i];
            let ghost stack0 = stack@;
            let ghost e0 = self@;
            assert(self.keys@.contains(k));
            let entry = *self.entries.get(&k).unwrap();
            let orphan = match entry.solved_under {
                Some(p) => !self.entries.contains_key(&p),
                None => false,
            };
            if entry.dirty || orphan {
                if !entry.dirty {
                    assert(stale_within(parent@.parents, old(self)@, k, 0));
                    self.set_dirty(k);
                }
                stack.push(k);
                proof {
                    assert(stack@[stack@.len() - 1] == k);
                    assert forall|q: u64| #[trigger] stack0.contains(q) implies stack@.contains(q) by {
                        let j = choose|j: int| 0 <= j < stack0.len() && stack0[j] == q;
                        assert(stack@[j] == q);
                    }
                    assert forall|q: u64| #[trigger] stack@.contains(q) implies stack0.contains(q) || q == k by {
                        let j = choose|j: int| 0 <= j < stack@.len() && stack@[j] == q;
                        if j < stack0.len() {
                            assert(stack0[j] == q);
                        }
                    }
                }
            }
            i = i + 1;
            proof {
                assert forall|j: int| 0 <= j < i implies {
                    let q = #[trigger] self.keys@[j];
                    &&& (self@[q].dirty ==> stack@.contains(q))
                    &&& (!self@[q].dirty && self@[q].solved_under is Some ==> self@.contains_key(self@[q].solved_under->Some_0))
                } by {
                    let q = self.keys@[j];
                    if j < i - 1 {
                        assert(q != k ==> self@[q] == e0[q]);
                    }
                }
            }
        }
        let ghost mut clean: Set<u64> = self@.dom().filter(|k: u64| !self@[k].dirty);
        proof {
            self@.dom().lemma_len_filter(|k: u64| !self@[k].dirty);
            assert forall|c: u64| #[trigger] self@.contains_key(c) && !self@[c].dirty && self@[c].solved_under is Some
                implies self@.contains_key(self@[c].solved_under->Some_0) by {
                assert(self.keys@.contains(c));
                let j = choose|j: int| 0 <= j < self.keys@.len() && self.keys@[j] == c;
                assert(self.keys@[j] == c);
            }
            assert forall|c: u64| #[trigger] self@.contains_key(c) && self@[c].dirty implies stack@.contains(c) by {
                assert(self.keys@.contains(c));
                let j = choose|j: int| 0 <= j < self.keys@.len() && self.keys@[j] == c;
                assert(self.keys@[j] == c);
            }
        }
        while stack.len() > 0
            invariant
                parent.wf(),
                self.keys@ == old(self).keys@,
                self@.dom() == old(self)@.dom(),
                forall|k: u64| #[trigger] self@.contains_key(k) ==> {
                    &&& self@[k].local == old(self)@[k].local
                    &&& (old(self)@[k].dirty ==> self@[k].dirty)
                    &&& (!self@[k].dirty ==> self@[k] == old(self)@[k])
                },
                forall|k: u64| #[trigger] self@.contains_key(k) ==>
                    self@[k] == old(self)@[k] || self@[k] == (TransformEntry { dirty: true, ..old(self)@[k] }),
                forall|k: u64| #[trigger] self@.contains_key(k) && self@[k].dirty ==> stale(parent@.parents, old(self)@, k),
                forall|k: u64| #[trigger] stack@.contains(k) ==> self@.contains_key(k) && self@[k].dirty,
                forall|c: u64| #[trigger] self@.contains_key(c) && !self@[c].dirty && self@[c].solved_under is Some ==> {
                    let p = self@[c].solved_under->Some_0;
                    self@.contains_key(p) && (!self@[p].dirty || stack@.contains(p))
                },
                clean == self@.dom().filter(|k: u64| !self@[k].dirty),
                clean.finite(),
                synced(old(self)@, parent@.parents),
            decreases clean.len(), stack@.len(),
        {
            let ghost stack0 = stack@;
            let p = stack.pop().unwrap();
            let ghost popped = stack@;
            let ghost clean0 = clean;
            proof {
                assert(stack0.contains(p));
                assert(popped =~= stack0.subrange(0, stack0.len() - 1));
                assert forall|q: u64| #[trigger] stack0.contains(q) implies popped.contains(q) || q == p by {
                    let j = choose|j: int| 0 <= j < stack0.len() && stack0[j] == q;
                    if j < stack0.len() - 1 {
                        assert(popped[j] == q);
                    }
                }
                assert forall|q: u64| #[trigger] popped.contains(q) implies stack0.contains(q) by {
                    let j = choose|j: int| 0 <= j < popped.len() && popped[j] == q;
                    assert(stack0[j] == q);
                }
            }
            if let Some(children) = parent.children(Entity(p)) {
                let mut i: usize = 0;
                while i < children.len()
                    invariant
                        0 <= i <= children.len(),
                        forall|c: Entity| children@.contains(c) <==> parent@.has_child(p, c.0),
                        self.keys@ == old(self).keys@,
                        self@.dom() == old(self)@.dom(),
                        forall|k: u64| #[trigger] self@.contains_key(k) ==> {
                            &&& self@[k].local == old(self)@[k].local
                            &&& (old(self)@[k].dirty ==> self@[k].dirty)
                            &&& (!self@[k].dirty ==> self@[k] == old(self)@[k])
                        },
                        forall|k: u64| #[trigger] self@.contains_key(k) ==>
                            self@[k] == old(self)@[k] || self@[k] == (TransformEntry { dirty: true, ..old(self)@[k] }),
                        forall|k: u64| #[trigger] self@.contains_key(k) && self@[k].dirty ==> stale(parent@.parents, old(self)@, k),
                        self@.contains_key(p) && self@[p].dirty,
                        forall|k: u64| #[trigger] stack@.contains(k) ==> self@.contains_key(k) && self@[k].dirty,
                        forall|q: u64| #[trigger] popped.contains(q) ==> stack@.contains(q),
                        forall|c: u64| #[trigger] self@.contains_key(c) && !self@[c].dirty && self@[c].solved_under is Some ==> {
                            let q = self@[c].solved_under->Some_0;
                            self@.contains_key(q) && (!self@[q].dirty || stack@.contains(q) || q == p)
                        },
                        forall|j: int| 0 <= j < i ==> #[trigger] self@.contains_key(children@[j].0) ==> self@[children@[j].0].dirty,
                        clean == self@.dom().filter(|k: u64| !self@[k].dirty),
                        clean.finite(),
                        clean.len() < clean0.len() || (clean == clean0 && stack@ == popped),
                        synced(old(self)@, parent@.parents),
                    decreases children.len() - i,
                {
                    let c = children[i].0;
                    let ghost s1 = stack@;
                    let ghost e1 = self@;
                    if self.entries.contains_key(&c) && !self.entries.get(&c).unwrap().dirty {
                        proof {
                            assert(children@.contains(children@[i as int]));
                            assert(parent@.has_child(p, c));
                            let w = choose|w: nat| stale_within(parent@.parents, old(self)@, p, w);
                            assert(stale_within(parent@.parents, old(self)@, c, w + 1));
                        }
                        self.set_dirty(c);
                        stack.push(c);
                        proof {
                            assert(clean.contains(c));
                            clean = clean.remove(c);
                            assert(clean =~= self@.dom().filter(|k: u64| !self@[k].dirty));
                            assert(stack@[stack@.len() - 1] == c);
                            assert forall|q: u64| #[trigger] s1.contains(q) implies stack@.contains(q) by {
                                let j = choose|j: int| 0 <= j < s1.len() && s1[j] == q;
                                assert(stack@[j] == q);
                            }
                            assert forall|q: u64| #[trigger] stack@.contains(q) implies s1.contains(q) || q == c by {
                                let j = choose|j: int| 0 <= j < stack@.len() && stack@[j] == q;
                                if j < s1.len() {
                                    assert(s1[j] == q);
                                }
                            }
                        }
                    }
                    i = i + 1;
                    proof {
                        assert forall|j: int| 0 <= j < i implies #[trigger] self@.contains_key(children@[j].0) ==> self@[children@[j].0].dirty by {
                            if j < i - 1 {
                                assert(e1.contains_key(children@[j].0) ==> e1[children@[j].0].dirty);
                            }
                        }
                    }
                }
                proof {
                    assert forall|c: u64| #[trigger] self@.contains_key(c) && !self@[c].dirty && self@[c].solved_under is Some
                        implies self@[c].solved_under->Some_0 != p by {
                        if self@[c].solved_under->Some_0 == p {
                            assert(old(self)@.contains_key(c) && !old(self)@[c].dirty);
                            assert(parent@.has_child(p, c));
                            assert(children@.contains(Entity(c)));
                            let j = choose|j: int| 0 <= j < children@.len() && children@[j] == Entity(c);
                            assert(self@.contains_key(children@[j].0));
                        }
                    }
                }
            } else {
                proof {
                    assert forall|c: u64| #[trigger] self@.contains_key(c) && !self@[c].dirty && self@[c].solved_under is Some
                        implies self@[c].solved_under->Some_0 != p by {
                        if self@[c].solved_under->Some_0 == p {
                            assert(old(self)@.contains_key(c) && !old(self)@[c].dirty);
                            assert(parent@.has_child(p, c));
                        }
                    }
                }
            }
        }
        proof {
            assert forall|k: u64| #[trigger] self@.contains_key(k) implies self@[k] == (
                if stale(parent@.parents, old(self)@, k) {
                    TransformEntry { dirty: true, ..old(self)@[k] }
                } else {
                    old(self)@[k]
                }) by {
                if stale(parent@.parents, old(self)@, k) {
                    let w = choose|w: nat| stale_within(parent@.parents, old(self)@, k, w);
                    lemma_stale_is_dirty(parent@.parents, old(self)@, self@, k, w);
                }
            }
        }
    }

    /// Computes the world of the dirty entry `a`, whose parent is clean.
    fn settle(&mut self, parent: &ParentData, a: u64)
        requires
            old(self).wf(),
            synced(old(self)@, parent@.parents),
            old(self)@.contains_key(a),
            old(self)@[a].dirty,
            match edge(parent@.parents, a) {
                None => true,
                Some(p) => old(self)@.contains_key(p) && !old(self)@[p].dirty,
            },
        ensures
            final(self).wf(),
            synced(final(self)@, parent@.parents),
            final(self).keys@ == old(self).keys@,
            final(self)@ == old(self)@.insert(a, TransformEntry {
                dirty: false,
                local: old(self)@[a].local,
                world: compose(
                    match edge(parent@.parents, a) {
                        None => identity(),
                        Some(p) => old(self)@[p].world,
                    },
                    old(self)@[a].local,
                ),
                solved_under: edge(parent@.parents, a),
            }),
            clean_set(final(self)@) == clean_set(old(self)@).insert(a),
    {
        let entry = *self.entries.get(&a).unwrap();
        let under = edge_of(parent, a);
        let base = match under {
            None => Delta::identity(),
            Some(p) => self.entries.get(&p).unwrap().world,
        };
        let w = base.concat(&entry.local);
        self.entries.insert(a, TransformEntry { dirty: false, local: entry.local, world: w, solved_under: under });
        proof {
            let e0 = old(self)@;
            assert(clean_set(self@) =~= clean_set(e0).insert(a));
            assert forall|c: u64| #[trigger] self@.contains_key(c) && !self@[c].dirty implies match self@[c].solved_under {
                None => self@[c].world == compose(identity(), self@[c].local),
                Some(p) => self@.contains_key(p) && !self@[p].dirty
                    && self@[c].world == compose(self@[p].world, self@[c].local),
            } by {
                if c != a {
                    assert(e0.contains_key(c) && !e0[c].dirty);
                }
            }
            assert forall|q: u64| self.keys@.contains(q) <==> #[trigger] self@.contains_key(q) by {
                assert(old(self).keys@.contains(q) <==> e0.contains_key(q));
            }
        }
    }

    /// Solves the dirty entry `k` together with its dirty ancestors, top down.
    /// Leaves them dirty where an ancestor has no entry.
    fn solve_one(&mut self, parent: &ParentData, k: u64) -> (n: usize)
        requires
            old(self).wf(),
            synced(old(self)@, parent@.parents),
            acyclic(parent@.parents),
            old(self)@.contains_key(k),
            old(self)@[k].dirty,
        ensures
            final(self).wf(),
            synced(final(self)@, parent@.parents),
            final(self).keys@ == old(self).keys@,
            final(self)@.dom() == old(self)@.dom(),
            forall|e: u64| #[trigger] final(self)@.contains_key(e) ==> {
                &&& final(self)@[e].local == old(self)@[e].local
                &&& (!old(self)@[e].dirty ==> final(self)@[e] == old(self)@[e])
            },
            forall|f: nat| #[trigger] chain_world(parent@.parents, old(self)@, k, f) is Some ==> !final(self)@[k].dirty,
            clean_set(final(self)@).len() == clean_set(old(self)@).len() + n,
    {
        let total = self.entries.len();
        let ghost parents = parent@.parents;
        assert(crate::parent::rooted(parents, k));
        let ghost bound = choose|b: nat| ancestor(parents, k, b) is None;
        assert(ancestor(parents, k, 0) == Some(k));
        let mut chain: Vec<u64> = Vec::new();
        chain.push(k);
        let mut cur = k;
        loop
            invariant
                parents == parent@.parents,
                self@ == old(self)@,
                self.keys@ == old(self).keys@,
                self.wf(),
                synced(self@, parent@.parents),
                1 <= chain@.len(),
                chain@.len() - 1 < bound,
                ancestor(parents, k, bound) is None,
                ancestor(parents, k, (chain@.len() - 1) as nat) == Some(cur),
                chain@[0] == k,
                chain@[chain@.len() - 1] == cur,
                forall|j: int| 0 <= j < chain@.len() - 1 ==> edge(parent@.parents, #[trigger] chain@[j]) == Some(chain@[j + 1]),
                forall|j: int| 0 <= j < chain@.len() ==> self@.contains_key(#[trigger] chain@[j]) && self@[chain@[j]].dirty,
                forall|f: nat| #[trigger] chain_world(parents, self@, k, f) is Some ==>
                    f >= chain@.len() - 1 && chain_world(parents, self@, cur, (f - (chain@.len() - 1)) as nat) is Some,
            ensures
                self@ == old(self)@,
                self.keys@ == old(self).keys@,
                self.wf(),
                synced(self@, parent@.parents),
                1 <= chain@.len(),
                chain@[0] == k,
                chain@[chain@.len() - 1] == cur,
                forall|j: int| 0 <= j < chain@.len() - 1 ==> edge(parent@.parents, #[trigger] chain@[j]) == Some(chain@[j + 1]),
                forall|j: int| 0 <= j < chain@.len() ==> self@.contains_key(#[trigger] chain@[j]) && self@[chain@[j]].dirty,
                match edge(parent@.parents, cur) {
                    None => true,
                    Some(p) => self@.contains_key(p) && !self@[p].dirty,
                },
            decreases bound - (chain@.len() - 1),
        {
            match edge_of(parent, cur) {
                None => {
                    break;
                },
                Some(p) => {
                    match self.entries.get(&p) {
                        None => {
                            proof {
                                assert forall|f: nat| #[trigger] chain_world(parents, self@, k, f) is None by {
                                    if chain_world(parents, self@, k, f) is Some {
                                        let g = (f - (chain@.len() - 1)) as nat;
                                        if g > 0 {
                                            assert(chain_world(parents, self@, p, (g - 1) as nat) is None);
                                        }
                                    }
                                }
                            }
                            return 0;
                        },
                        Some(ep) => {
                            if !ep.dirty {
                                break;
                            }
                            proof {
                                let i = (chain@.len() - 1) as nat;
                                lemma_ancestor_step(parents, k, i, cur);
                                if i + 1 >= bound {
                                    lemma_ended(parents, k, bound, i + 1);
                                }
                                assert forall|f: nat| #[trigger] chain_world(parents, self@, k, f) is Some implies
                                    f >= i + 1 && chain_world(parents, self@, p, (f - (i + 1)) as nat) is Some by {
                                    assert(chain_world(parents, self@, cur, (f - i) as nat) is Some);
                                }
                            }
                            chain.push(p);
                            cur = p;
                        },
                    }
                },
            }
        }
        let ghost top = chain@.len() - 1;
        assert(match edge(parent@.parents, cur) {
            None => true,
            Some(p) => self@.contains_key(p) && !self@[p].dirty,
        });
        proof {
            lemma_clean_bound(old(self)@);
        }
        let mut n: usize = 0;
        let mut j: usize = chain.len();
        while j > 0
            invariant
                0 <= j <= chain@.len(),
                chain@.len() == top + 1,
                chain@[0] == k,
                chain@[top] == cur,
                forall|i: int| 0 <= i < top ==> edge(parent@.parents, #[trigger] chain@[i]) == Some(chain@[i + 1]),
                forall|i: int| 0 <= i < chain@.len() ==> self@.contains_key(#[trigger] chain@[i]),
                forall|i: int| j <= i < chain@.len() ==> !self@[#[trigger] chain@[i]].dirty,
                match edge(parent@.parents, cur) {
                    None => true,
                    Some(p) => self@.contains_key(p) && !self@[p].dirty,
                },
                self.wf(),
                synced(self@, parent@.parents),
                self.keys@ == old(self).keys@,
                self@.dom() == old(self)@.dom(),
                forall|e: u64| #[trigger] self@.contains_key(e) ==> {
                    &&& self@[e].local == old(self)@[e].local
                    &&& (!old(self)@[e].dirty ==> self@[e] == old(self)@[e])
                },
                clean_set(self@).finite(),
                clean_set(self@).len() == clean_set(old(self)@).len() + n,
                clean_set(self@).len() <= self@.len(),
                self@.len() == total,
            decreases j,
        {
            j = j - 1;
            let a = chain[j];
            let entry = *self.entries.get(&a).unwrap();
            if entry.dirty {
                self.settle(parent, a);
                proof {
                    lemma_clean_bound(self@);
                    assert(self@.dom() =~= old(self)@.dom());
                }
                n = n + 1;
            }
        }
        n
    }

    /// Solves every dirty entry.
    fn solve(&mut self, parent: &ParentData) -> (n: usize)
        requires
            old(self).wf(),
            synced(old(self)@, parent@.parents),
            acyclic(parent@.parents),
        ensures
            final(self).wf(),
            synced(final(self)@, parent@.parents),
            final(self).keys@ == old(self).keys@,
            final(self)@.dom() == old(self)@.dom(),
            forall|e: u64| #[trigger] final(self)@.contains_key(e) ==> {
                &&& final(self)@[e].local == old(self)@[e].local
                &&& (!old(self)@[e].dirty ==> final(self)@[e] == old(self)@[e])
            },
            forall|e: u64, f: nat| #[trigger] chain_world(parent@.parents, final(self)@, e, f) is Some
                ==> !final(self)@[e].dirty,
            clean_set(final(self)@).len() == clean_set(old(self)@).len() + n,
    {
        let mut n: usize = 0;
        let mut i: usize = 0;
        proof {
            lemma_clean_bound(old(self)@);
        }
        while i < self.keys.len()
            invariant
                0 <= i <= self.keys.len(),
                acyclic(parent@.parents),
                self.wf(),
                synced(self@, parent@.parents),
                self.keys@ == old(self).keys@,
                self@.dom() == old(self)@.dom(),
                forall|e: u64| #[trigger] self@.contains_key(e) ==> {
                    &&& self@[e].local == old(self)@[e].local
                    &&& (!old(self)@[e].dirty ==> self@[e] == old(self)@[e])
                },
                forall|j: int, f: nat| 0 <= j < i && #[trigger] chain_world(parent@.parents, old(self)@, self.keys@[j], f) is Some
                    ==> !self@[self.keys@[j]].dirty,
                clean_set(self@).finite(),
                clean_set(self@).len() == clean_set(old(self)@).len() + n,
                clean_set(self@).len() <= self@.len(),
            decreases self.keys.len() - i,
        {
            let k = self.keys[i];
            assert(self.keys@.contains(k));
            let ghost e0 = self@;
            if self.entries.get(&k).unwrap().dirty {
                proof {
                    assert forall|f: nat| #[trigger] chain_world(parent@.parents, self@, k, f) == chain_world(parent@.parents, old(self)@, k, f) by {
                        lemma_chain_world_frame(parent@.parents, old(self)@, self@, k, f);
                    }
                    assert(self@.dom() =~= old(self)@.dom());
                }
                let m = self.solve_one(parent, k);
                proof {
                    lemma_clean_bound(self@);
                    assert(self@.dom() =~= old(self)@.dom());
                    assert(self.entries.len() as nat == self@.len());
                }
                n = n + m;
            }
            i = i + 1;
            proof {
                assert forall|j: int, f: nat| 0 <= j < i && #[trigger] chain_world(parent@.parents, old(self)@, self.keys@[j], f) is Some
                    implies !self@[self.keys@[j]].dirty by {
                    if j < i - 1 {
                        if !e0[self.keys@[j]].dirty {
                            assert(old(self)@.contains_key(self.keys@[j]));
                        }
                    } else if !e0[k].dirty {
                        assert(old(self)@.contains_key(k));
                    } else {
                        assert(chain_world(parent@.parents, e0, k, f) is Some);
                    }
                }
            }
        }
        proof {
            assert forall|e: u64, f: nat| #[trigger] chain_world(parent@.parents, self@, e, f) is Some
                implies !self@[e].dirty by {
                lemma_chain_world_frame(parent@.parents, old(self)@, self@, e, f);
                assert(self@.dom() =~= old(self)@.dom());
                assert(self@.contains_key(e));
                assert(self.keys@.contains(e));
                let j = choose|j: int| 0 <= j < self.keys@.len() && self.keys@[j] == e;
                assert(self.keys@[j] == e);
                assert(chain_world(parent@.parents, old(self)@, self.keys@[j], f) is Some);
            }
        }
        n
    }

    /// Advances one frame against the hierarchy's snapshot of the same frame:
    /// applies the local writes and deletes in order, drops the entities the
    /// hierarchy deleted, marks dirty what changed and everything below it,
    /// and solves. Returns how many entries were solved.
    pub fn update(&mut self, parent: &ParentData, msgs: &Vec<Operation<Delta>>) -> (r: usize)
        requires
            old(self).wf(),
            parent.wf(),
        ensures
            final(self).wf(),
            consistent(final(self)@),
            synced(final(self)@, parent@.parents),
            final(self)@.dom() == ingest(old(self)@, msgs@).dom().difference(parent@.deleted.dom()),
            forall|e: u64| #[trigger] final(self)@.contains_key(e) ==> {
                &&& final(self)@[e].local == ingest(old(self)@, msgs@)[e].local
                &&& (final(self)@[e].dirty <==> forall|f: nat| #[trigger] chain_world(parent@.parents, final(self)@, e, f) is None)
            },
            ({
                let start = resync_all(ingest(old(self)@, msgs@), parent@.parents, parent@.deleted.dom());
                &&& forall|e: u64| #[trigger] final(self)@.contains_key(e) && !stale(parent@.parents, start, e)
                    ==> final(self)@[e] == start[e]
                &&& r == clean_set(final(self)@).filter(|e: u64| stale(parent@.parents, start, e)).len()
            }),
    {
        self.ingest_ops(msgs);
        self.sync(parent);
        let ghost start = self@;
        proof {
            assert(start =~= resync_all(ingest(old(self)@, msgs@), parent@.parents, parent@.deleted.dom()));
        }
        self.mark(parent);
        let ghost marked = self@;
        proof {
            parent.lemma_acyclic();
        }
        let n = self.solve(parent);
        proof {
            let fin = self@;
            let stale_solved = clean_set(fin).filter(|e: u64| stale(parent@.parents, start, e));
            lemma_clean_bound(marked);
            lemma_clean_bound(fin);
            assert(clean_set(fin) =~= clean_set(marked) + stale_solved) by {
                assert forall|e: u64| clean_set(fin).contains(e) implies #[trigger] clean_set(marked).contains(e) || stale_solved.contains(e) by {
                    if !stale(parent@.parents, start, e) {
                        if start[e].dirty {
                            assert(stale_within(parent@.parents, start, e, 0));
                        }
                        assert(marked[e] == start[e]);
                    }
                }
            }
            assert forall|e: u64| #[trigger] fin.contains_key(e) && !stale(parent@.parents, start, e)
                implies fin[e] == start[e] by {
                if start[e].dirty {
                    assert(stale_within(parent@.parents, start, e, 0));
                }
                assert(marked[e] == start[e]);
            }
            assert(clean_set(marked).disjoint(stale_solved));
            vstd::set_lib::lemma_set_disjoint_lens(clean_set(marked), stale_solved);
            assert forall|e: u64| #[trigger] fin.contains_key(e) implies
                (fin[e].dirty <==> forall|f: nat| #[trigger] chain_world(parent@.parents, fin, e, f) is None) by {
                if !fin[e].dirty {
                    assert(crate::parent::rooted(parent@.parents, e));
                    let b = choose|b: nat| ancestor(parent@.parents, e, b) is None;
                    lemma_clean_resolves(parent@.parents, fin, e, b);
                }
            }
        }
        n
    }

    /// The entities whose world could not be solved: an entity on their
    /// ancestor chain has no local delta.
    pub fn unsolved(&self) -> (r: Vec<MissingComponent>)
        requires
            self.wf(),
        ensures
            forall|e: u64| r@.contains(MissingComponent { entity: Entity(e) })
                <==> (self@.contains_key(e) && self@[e].dirty),
    {
        let mut out: Vec<MissingComponent> = Vec::new();
        let mut i: usize = 0;
        while i < self.keys.len()
            invariant
                0 <= i <= self.keys.len(),
                self.wf(),
                forall|e: u64| out@.contains(MissingComponent { entity: Entity(e) })
                    <==> (exists|j: int| 0 <= j < i && #[trigger] self.keys@[j] == e && self@[e].dirty),
            decreases self.keys.len() - i,
        {
            let k = self.keys[i];
            assert(self.keys@.contains(k));
            let ghost out0 = out@;
            if self.entries.get(&k).unwrap().dirty {
                out.push(MissingComponent { entity: Entity(k) });
            }
            i = i + 1;
            proof {
                assert forall|e: u64| out@.contains(MissingComponent { entity: Entity(e) })
                    <==> (exists|j: int| 0 <= j < i && #[trigger] self.keys@[j] == e && self@[e].dirty) by {
                    let m = MissingComponent { entity: Entity(e) };
                    if out@.contains(m) {
                        let t = choose|t: int| 0 <= t < out@.len() && out@[t] == m;
                        if t < out0.len() {
                            assert(out0[t] == m);
                            assert(out0.contains(m));
                        } else {
                            assert(self.keys@[i - 1] == e);
                        }
                    }
                    if exists|j: int| 0 <= j < i && #[trigger] self.keys@[j] == e && self@[e].dirty {
                        let j = choose|j: int| 0 <= j < i && #[trigger] self.keys@[j] == e && self@[e].dirty;
                        if j < i - 1 {
                            assert(out0.contains(m));
                            let t = choose|t: int| 0 <= t < out0.len() && out0[t] == m;
                            assert(out@[t] == m);
                        } else {
                            assert(out@[out@.len() - 1] == m);
                        }
                    }
                }
            }
        }
        proof {
            assert forall|e: u64| out@.contains(MissingComponent { entity: Entity(e) })
                <==> (self@.contains_key(e) && self@[e].dirty) by {
                if self@.contains_key(e) && self@[e].dirty {
                    assert(self.keys@.contains(e));
                    let j = choose|j: int| 0 <= j < self.keys@.len() && self.keys@[j] == e;
                    assert(self.keys@[j] == e);
                }
            }
        }
        out
    }

    /// No entities.
    pub fn new() -> (r: TransformData)
        ensures
            r.wf(),
            r@ == Map::<u64, TransformEntry>::empty(),
    {
        TransformData { entries: HashMap::new(), keys: Vec::new() }
    }

    /// The local delta of `e`, if one was written.
    pub fn local(&self, e: Entity) -> (r: Option<Delta>)
        ensures
            r == (if self@.contains_key(e.0) { Some(self@[e.0].local) } else { None }),
    {
        match self.entries.get(&e.0) {
            Some(entry) => Some(entry.local),
            None => None,
        }
    }

    /// The memoized world transform of `e`, if `e` has an entry and it is solved.
    pub fn world(&self, e: Entity) -> (r: Option<Delta>)
        ensures
            r == (if self@.contains_key(e.0) && !self@[e.0].dirty { Some(self@[e.0].world) } else { None }),
    {
        match self.entries.get(&e.0) {
            Some(entry) => if entry.dirty {
                None
            } else {
                Some(entry.world)
            },
            None => None,
        }
    }
}

} // verus!
