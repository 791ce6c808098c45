//! The parent hierarchy: a child-to-parent index, its exact inverse, and the
//! per-frame record of deleted and re-parented entities.
use std::collections::{HashMap, HashSet};
use vstd::prelude::*;
use crate::entity::{Entity, Operation, lookup};

verus! {

broadcast use vstd::std_specs::hash::group_hash_axioms;

/// Where an entity hangs in the hierarchy.
#[derive(Clone, Copy, Debug, PartialEq, Eq, Structural)]
pub enum Parent {
    /// The entity has no parent.
    Root,
    /// The entity is a child of the given entity.
    Child(Entity),
}

/// Writing an edge that would close a loop in the hierarchy.
#[derive(Clone, Copy, Debug, PartialEq, Eq, Structural)]
pub struct CycleError {
    /// The entity whose parent was being set.
    pub child: Entity,
    /// The requested parent, which is the child itself or one of its descendants.
    pub parent: Entity,
}

pub type Message = Operation<Parent>;

/// The abstract state of a hierarchy.
pub struct Hierarchy {
    /// Child to parent.
    pub parents: Map<u64, Parent>,
    /// Entities that own a (possibly empty) children set.
    pub registered: Set<u64>,
    /// Entities deleted during the current frame, with their prior parent.
    pub deleted: Map<u64, Option<Parent>>,
    /// Entities re-parented during the current frame, with their prior parent.
    pub modified: Map<u64, Option<Parent>>,
}

/// The `k`-th ancestor of `d` (`d` itself for `k == 0`), if the chain is that long.
pub open spec fn ancestor(parents: Map<u64, Parent>, d: u64, k: nat) -> Option<u64>
    decreases k,
{
    if k == 0 {
        Some(d)
    } else {
        match lookup(parents, d) {
            Some(Parent::Child(q)) => ancestor(parents, q.0, (k - 1) as nat),
            _ => None,
        }
    }
}

/// `d` is `n` or lies below `n`.
pub open spec fn descends(parents: Map<u64, Parent>, d: u64, n: u64) -> bool {
    exists|k: nat| ancestor(parents, d, k) == Some(n)
}

/// The entities that deleting `n` removes: `n` and all of its descendants.
pub open spec fn subtree(parents: Map<u64, Parent>, n: u64) -> Set<u64> {
    Set::new(|d: u64| descends(parents, d, n))
}

/// Walking up from `d` ends: some ancestor has no parent.
pub open spec fn rooted(parents: Map<u64, Parent>, d: u64) -> bool {
    exists|k: nat| #[trigger] ancestor(parents, d, k) is None
}

/// No entity lies below itself: every walk up ends.
pub open spec fn acyclic(parents: Map<u64, Parent>) -> bool {
    forall|d: u64| #[trigger] rooted(parents, d)
}

impl Hierarchy {
    /// Setting `e`'s parent to `p` would close a loop: `p` is `e` or lies below it.
    pub open spec fn would_cycle(self, e: u64, p: u64) -> bool {
        descends(self.parents, p, e)
    }

    pub open spec fn upsert(self, e: u64, value: Parent) -> Hierarchy {
        Hierarchy {
            parents: self.parents.insert(e, value),
            registered: match value {
                Parent::Root => self.registered.insert(e),
                Parent::Child(p) => self.registered.insert(p.0),
            },
            deleted: self.deleted,
            modified: self.modified.insert(e, lookup(self.parents, e)),
        }
    }

    pub open spec fn remove(self, n: u64) -> Hierarchy {
        let r = subtree(self.parents, n);
        Hierarchy {
            parents: self.parents.remove_keys(r),
            registered: self.registered.difference(r),
            deleted: Map::new(
                |x: u64| self.deleted.contains_key(x) || r.contains(x),
                |x: u64|
                    if r.contains(x) {
                        lookup(self.parents, x)
                    } else {
                        self.deleted[x]
                    },
            ),
            modified: self.modified,
        }
    }

    /// The state after one operation, or `None` where it is refused.
    pub open spec fn apply(self, op: Message) -> Option<Hierarchy> {
        match op {
            Operation::Delete(e) => Some(self.remove(e.0)),
            Operation::Upsert(e, Parent::Root) => Some(self.upsert(e.0, Parent::Root)),
            Operation::Upsert(e, Parent::Child(p)) => if self.would_cycle(e.0, p.0) {
                None
            } else {
                Some(self.upsert(e.0, Parent::Child(p)))
            },
        }
    }

    /// The state after a frame's operations, in order; `None` at the first refusal.
    pub open spec fn apply_all(self, ops: Seq<Message>) -> Option<Hierarchy>
        decreases ops.len(),
    {
        if ops.len() == 0 {
            Some(self)
        } else {
            match self.apply(ops[0]) {
                Some(h) => h.apply_all(ops.subrange(1, ops.len() as int)),
                None => None,
            }
        }
    }

    /// Applies operations in order up to the first refused one: the state
    /// reached, and the refused operation if there was one.
    pub open spec fn run(self, ops: Seq<Message>) -> (Hierarchy, Option<Message>)
        decreases ops.len(),
    {
        if ops.len() == 0 {
            (self, None)
        } else {
            match self.apply(ops[0]) {
                Some(h) => h.run(ops.subrange(1, ops.len() as int)),
                None => (self, Some(ops[0])),
            }
        }
    }

    /// The same state with the per-frame records emptied.
    pub open spec fn new_frame(self) -> Hierarchy {
        Hierarchy { deleted: Map::empty(), modified: Map::empty(), ..self }
    }

    /// `c` is among `p`'s children.
    pub open spec fn has_child(self, p: u64, c: u64) -> bool {
        self.parents.contains_key(c) && self.parents[c] == Parent::Child(Entity(p))
    }
}

/// The parent system's snapshot.
#[derive(Clone)]
pub struct ParentData {
    child_to_parent: HashMap<u64, Parent>,
    parent_to_children: HashMap<u64, HashSet<u64>>,
    deleted: HashMap<u64, Option<Parent>>,
    modified: HashMap<u64, Option<Parent>>,
}

/// Adds every member of `s` to `stack`.
fn push_all(stack: &mut Vec<u64>, s: &HashSet<u64>)
    ensures
        forall|y: u64| #[trigger] final(stack)@.contains(y) <==> (old(stack)@.contains(y) || s@.contains(y)),
{
    let ghost start = stack@;
    for c in it: s.iter()
        invariant
            it.seq().unref().to_set() == s@,
            forall|j: int| 0 <= j < it.index() ==> stack@.contains(#[trigger] it.seq().unref()[j]),
            forall|y: u64| #[trigger] stack@.contains(y) ==> start.contains(y) || s@.contains(y),
            forall|y: u64| #[trigger] start.contains(y) ==> stack@.contains(y),
        ensures
            forall|y: u64| #[trigger] stack@.contains(y) <==> (start.contains(y) || s@.contains(y)),
    {
        let ghost s0 = stack@;
        stack.push(*c);
        proof {
            assert(stack@[stack@.len() - 1] == *c);
            assert forall|y: u64| #[trigger] s0.contains(y) implies stack@.contains(y) by {
                let j = choose|j: int| 0 <= j < s0.len() && s0[j] == y;
                assert(stack@[j] == y);
            }
            assert forall|y: u64| #[trigger] stack@.contains(y) implies s0.contains(y) || y == *c by {
                let j = choose|j: int| 0 <= j < stack@.len() && stack@[j] == y;
                if j < s0.len() {
                    assert(s0[j] == y);
                }
            }
            assert(it.seq().unref().to_set().contains(*c));
        }
    }
}

/// The members of `s`, as entities.
fn entities_of(s: &HashSet<u64>) -> (r: Vec<Entity>)
    ensures
        forall|e: Entity| r@.contains(e) <==> s@.contains(e.0),
{
    let mut out: Vec<Entity> = Vec::new();
    for c in it: s.iter()
        invariant
            it.seq().unref().to_set() == s@,
            forall|j: int| 0 <= j < it.index() ==> out@.contains(Entity(#[trigger] it.seq().unref()[j])),
            forall|e: Entity| #[trigger] out@.contains(e) ==> s@.contains(e.0),
        ensures
            forall|e: Entity| out@.contains(e) <==> s@.contains(e.0),
    {
        let ghost out0 = out@;
        out.push(Entity(*c));
        proof {
            assert(out@[out@.len() - 1] == Entity(*c));
            assert forall|e: Entity| #[trigger] out0.contains(e) implies out@.contains(e) by {
                let j = choose|j: int| 0 <= j < out0.len() && out0[j] == e;
                assert(out@[j] == e);
            }
            assert forall|e: Entity| #[trigger] out@.contains(e) implies out0.contains(e) || e == Entity(*c) by {
                let j = choose|j: int| 0 <= j < out@.len() && out@[j] == e;
                if j < out0.len() {
                    assert(out0[j] == e);
                }
            }
            assert(it.seq().unref().to_set().contains(*c));
        }
    }
    out
}

/// The keys of `m`, as entities.
fn keys_of(m: &HashMap<u64, Option<Parent>>) -> (r: Vec<Entity>)
    ensures
        r@.no_duplicates(),
        forall|e: Entity| r@.contains(e) <==> m@.contains_key(e.0),
{
    let mut out: Vec<Entity> = Vec::new();
    for k in it: m.keys()
        invariant
            it.seq().unref().no_duplicates(),
            it.seq().unref().to_set() == m@.dom(),
            out@.len() == it.index(),
            forall|j: int| 0 <= j < it.index() ==> #[trigger] out@[j] == Entity(it.seq().unref()[j]),
            forall|j: int| 0 <= j < it.index() ==> out@.contains(Entity(#[trigger] it.seq().unref()[j])),
            forall|e: Entity| #[trigger] out@.contains(e) ==> m@.contains_key(e.0),
        ensures
            out@.no_duplicates(),
            forall|e: Entity| out@.contains(e) <==> m@.contains_key(e.0),
    {
        let ghost out0 = out@;
        out.push(Entity(*k));
        proof {
            assert(out@[out@.len() - 1] == Entity(*k));
            assert forall|j: int| 0 <= j < out0.len() implies out@.contains(#[trigger] out0[j]) by {
                assert(out@[j] == out0[j]);
            }
            assert forall|e: Entity| #[trigger] out@.contains(e) implies out0.contains(e) || e == Entity(*k) by {
                let j = choose|j: int| 0 <= j < out@.len() && out@[j] == e;
                if j < out0.len() {
                    assert(out0[j] == e);
                }
            }
            assert(it.seq().unref().to_set().contains(*k));
        }
    }
    out
}

/// A set that holds `n` and is closed downward holds every descendant of `n`.
proof fn lemma_closed_below(
    parents: Map<u64, Parent>,
    rest: Map<u64, Parent>,
    removed: Set<u64>,
    n: u64,
    d: u64,
    k: nat,
)
    requires
        removed.contains(n),
        rest == parents.remove_keys(removed),
        forall|c: u64| #[trigger] rest.contains_key(c) && rest[c] is Child
            ==> !removed.contains(rest[c]->Child_0.0),
        ancestor(parents, d, k) == Some(n),
    ensures
        removed.contains(d),
    decreases k,
{
    if k > 0 {
        let q = lookup(parents, d)->Some_0->Child_0;
        lemma_closed_below(parents, rest, removed, n, q.0, (k - 1) as nat);
        if !removed.contains(d) {
            assert(rest.contains_key(d) && rest[d] == Parent::Child(Entity(q.0)));
        }
    }
}

impl ParentData {
    pub closed spec fn view(&self) -> Hierarchy {
        Hierarchy {
            parents: self.child_to_parent@,
            registered: self.parent_to_children@.dom(),
            deleted: self.deleted@,
            modified: self.modified@,
        }
    }

    /// The indices agree: the children lists are exactly the inverse of the parent map.
    pub closed spec fn wf(&self) -> bool {
        &&& forall|p: u64, c: u64|
            #![trigger self.parent_to_children@[p]@.contains(c)]
            #![trigger self@.has_child(p, c)]
            (self.parent_to_children@.contains_key(p) && self.parent_to_children@[p]@.contains(c))
                <==> self@.has_child(p, c)
        &&& acyclic(self.child_to_parent@)
    }

    /// Takes `c` out of `p`'s children list, if `p` has one.
    fn detach(&mut self, p: u64, c: u64)
        ensures
            final(self).child_to_parent@ == old(self).child_to_parent@,
            final(self).deleted@ == old(self).deleted@,
            final(self).modified@ == old(self).modified@,
            final(self).parent_to_children@.dom() == old(self).parent_to_children@.dom(),
            forall|q: u64, d: u64| #[trigger] final(self).parent_to_children@[q]@.contains(d) ==>
                final(self).parent_to_children@.contains_key(q) ==>
                (old(self).parent_to_children@[q]@.contains(d) && !(q == p && d == c)),
            forall|q: u64, d: u64| #[trigger] old(self).parent_to_children@[q]@.contains(d) ==>
                old(self).parent_to_children@.contains_key(q) ==> !(q == p && d == c) ==>
                final(self).parent_to_children@[q]@.contains(d),
    {
        if let Some(mut v) = self.parent_to_children.remove(&p) {
            v.remove(&c);
            self.parent_to_children.insert(p, v);
        }
    }

    /// Adds `c` to `p`'s children list, creating the list where `p` has none.
    fn attach(&mut self, p: u64, c: u64)
        ensures
            final(self).child_to_parent@ == old(self).child_to_parent@,
            final(self).deleted@ == old(self).deleted@,
            final(self).modified@ == old(self).modified@,
            final(self).parent_to_children@.dom() == old(self).parent_to_children@.dom().insert(p),
            forall|q: u64, d: u64| #[trigger] final(self).parent_to_children@[q]@.contains(d) ==>
                final(self).parent_to_children@.contains_key(q) ==>
                ((old(self).parent_to_children@.contains_key(q) && old(self).parent_to_children@[q]@.contains(d))
                    || (q == p && d == c)),
            forall|q: u64, d: u64| #[trigger] old(self).parent_to_children@[q]@.contains(d) ==>
                old(self).parent_to_children@.contains_key(q) ==>
                final(self).parent_to_children@[q]@.contains(d),
            final(self).parent_to_children@[p]@.contains(c),
    {
        let mut v = match self.parent_to_children.remove(&p) {
            Some(v) => v,
            None => HashSet::new(),
        };
        v.insert(c);
        self.parent_to_children.insert(p, v);
    }

    /// Binds `e` to `value`, keeping both indices in step.
    fn set_edge(&mut self, e: u64, value: Parent)
        requires
            old(self).wf(),
            value is Child ==> !old(self)@.would_cycle(e, value->Child_0.0),
        ensures
            final(self).wf(),
            final(self)@ == old(self)@.upsert(e, value),
    {
        let ghost pre = self@;
        let prior = self.child_to_parent.insert(e, value);
        if let Some(Parent::Child(q)) = prior {
            self.detach(q.0, e);
            proof {
                let mid = self.parent_to_children@;
                assert forall|r: u64, d: u64| mid.contains_key(r) && #[trigger] mid[r]@.contains(d)
                    implies d != e && pre.has_child(r, d) by {
                    assert(old(self).parent_to_children@[r]@.contains(d));
                }
                assert forall|r: u64, d: u64| d != e && pre.has_child(r, d)
                    implies mid.contains_key(r) && #[trigger] mid[r]@.contains(d) by {
                    assert(old(self).parent_to_children@[r]@.contains(d));
                }
            }
        } else {
            proof {
                let mid = self.parent_to_children@;
                assert(!(pre.parents.contains_key(e) && pre.parents[e] is Child));
                assert forall|r: u64, d: u64| mid.contains_key(r) && #[trigger] mid[r]@.contains(d)
                    implies d != e && pre.has_child(r, d) by {
                    assert(old(self).parent_to_children@[r]@.contains(d));
                }
                assert forall|r: u64, d: u64| d != e && pre.has_child(r, d)
                    implies mid.contains_key(r) && #[trigger] mid[r]@.contains(d) by {
                    assert(old(self).child_to_parent@[d] == Parent::Child(Entity(r)));
                }
            }
        }
        let ghost mid = self.parent_to_children@;
        assert(forall|r: u64, d: u64| mid.contains_key(r) && #[trigger] mid[r]@.contains(d)
            ==> d != e && pre.has_child(r, d));
        assert(forall|r: u64, d: u64| d != e && pre.has_child(r, d)
            ==> mid.contains_key(r) && #[trigger] mid[r]@.contains(d));
        match value {
            Parent::Root => {
                if !self.parent_to_children.contains_key(&e) {
                    self.parent_to_children.insert(e, HashSet::new());
                }
            },
            Parent::Child(p) => {
                self.attach(p.0, e);
            },
        }
        self.modified.insert(e, prior);
        proof {
            let fin = self.parent_to_children@;
            assert forall|q: u64, d: u64| fin.contains_key(q) && #[trigger] fin[q]@.contains(d)
                implies self@.has_child(q, d) by {
                if !(value is Child && q == value->Child_0.0 && d == e) {
                    assert(mid.contains_key(q) && mid[q]@.contains(d));
                }
            }
            assert forall|q: u64, d: u64| #[trigger] self@.has_child(q, d)
                implies fin.contains_key(q) && fin[q]@.contains(d) by {
                if d != e {
                    assert(pre.has_child(q, d));
                    assert(mid[q]@.contains(d));
                }
            }
        }
        assert(self@.parents =~= pre.upsert(e, value).parents);
        assert(self@.registered =~= pre.upsert(e, value).registered);
        assert forall|d: u64| #[trigger] rooted(self@.parents, d) by {
            assert(rooted(pre.parents, d));
            let k = choose|k: nat| ancestor(pre.parents, d, k) is None;
            match value {
                Parent::Root => lemma_rooted_when_cut(pre.parents, self@.parents, d, k),
                Parent::Child(p) => lemma_rooted_when_linked(pre.parents, e, p.0, d, k),
            }
        }
    }

    /// Setting `e`'s parent to `p` would close a loop.
    fn would_cycle(&self, e: u64, p: u64) -> (r: bool)
        requires
            self.wf(),
        ensures
            r == self@.would_cycle(e, p),
    {
        let ghost parents = self@.parents;
        assert(rooted(parents, p));
        let ghost bound = choose|k: nat| ancestor(parents, p, k) is None;
        let mut cur = p;
        let ghost mut i: nat = 0;
        assert(ancestor(parents, p, 0) == Some(p));
        loop
            invariant
                parents == self@.parents,
                ancestor(parents, p, i) == Some(cur),
                i < bound,
                ancestor(parents, p, bound) is None,
                forall|j: nat| j < i ==> #[trigger] ancestor(parents, p, j) != Some(e),
            decreases bound - i,
        {
            if cur == e {
                return true;
            }
            proof {
                lemma_ancestor_step(parents, p, i, cur);
            }
            match self.child_to_parent.get(&cur) {
                Some(Parent::Child(q)) => {
                    proof {
                        if i + 1 >= bound {
                            lemma_ended(parents, p, bound, i + 1);
                        }
                        i = i + 1;
                    }
                    cur = q.0;
                },
                _ => {
                    proof {
                        assert forall|j: nat| ancestor(parents, p, j) != Some(e) by {
                            if j > i {
                                lemma_ended(parents, p, i + 1, j);
                            }
                        }
                    }
                    return false;
                },
            }
        }
    }

    /// Deletes `n` and everything below it, recording each deleted entity.
    fn remove_subtree(&mut self, n: u64)
        requires
            old(self).wf(),
        ensures
            final(self).wf(),
            final(self)@ == old(self)@.remove(n),
    {
        let ghost pre = self@;
        let ghost mut removed: Set<u64> = Set::empty();
        let mut stack: Vec<u64> = Vec::new();
        let mut done: HashSet<u64> = HashSet::new();
        stack.push(n);
        proof {
            assert(ancestor(pre.parents, n, 0) == Some(n));
            assert(stack@[0] == n);
            assert(self@.parents =~= pre.parents.remove_keys(removed));
            assert(self@.registered =~= pre.registered.difference(removed));
            assert(self@.deleted =~= Self::deleted_after(pre, removed));
        }
        while stack.len() > 0
            invariant
                forall|p: u64, c: u64| #![trigger self.parent_to_children@[p]@.contains(c)]
                    self.parent_to_children@.contains_key(p) && self.parent_to_children@[p]@.contains(c)
                    ==> self@.has_child(p, c),
                forall|p: u64, c: u64| #[trigger] self@.has_child(p, c) ==>
                    (self.parent_to_children@.contains_key(p) && self.parent_to_children@[p]@.contains(c))
                    || removed.contains(p),
                forall|p: u64, c: u64| #[trigger] self@.has_child(p, c) && removed.contains(p)
                    ==> stack@.contains(c),
                forall|x: u64| #[trigger] stack@.contains(x) ==> descends(pre.parents, x, n),
                forall|x: u64| #[trigger] removed.contains(x) ==> descends(pre.parents, x, n),
                removed.contains(n) || stack@.contains(n),
                self@.parents == pre.parents.remove_keys(removed),
                self@.registered == pre.registered.difference(removed),
                self@.deleted == Self::deleted_after(pre, removed),
                self@.modified == pre.modified,
                done@ == removed,
            decreases self.parent_to_children@.dom().len(), stack@.len(),
        {
            let ghost stack0 = stack@;
            let ghost h0 = self@;
            let x = stack.pop().unwrap();
            let ghost popped = stack@;
            assert(stack0.contains(x));
            assert(popped =~= stack0.subrange(0, stack0.len() - 1));
            let ghost k = choose|k: nat| ancestor(pre.parents, x, k) == Some(n);
            let ghost rev0 = self.parent_to_children@;
            if let Some(children) = self.parent_to_children.remove(&x) {
                push_all(&mut stack, &children);
                proof {
                    assert(children@ == rev0[x]@);
                    assert forall|c: u64| #[trigger] children@.contains(c) implies descends(pre.parents, c, n) by {
                        assert(rev0[x]@.contains(c));
                        assert(ancestor(pre.parents, c, k + 1) == Some(n));
                    }
                }
            }
            assert(forall|c: u64| rev0.contains_key(x) && #[trigger] rev0[x]@.contains(c) ==> stack@.contains(c));
            assert(forall|y: u64| #[trigger] stack@.contains(y) ==>
                popped.contains(y) || (rev0.contains_key(x) && rev0[x]@.contains(y)));
            assert(forall|y: u64| #[trigger] popped.contains(y) ==> stack@.contains(y));
            let ghost rev1 = self.parent_to_children@;
            let prior = self.child_to_parent.remove(&x);
            if let Some(Parent::Child(q)) = prior {
                self.detach(q.0, x);
            }
            if !done.contains(&x) {
                self.deleted.insert(x, prior);
                done.insert(x);
            }
            proof {
                let removed0 = removed;
                removed = removed.insert(x);
                let rev = self.parent_to_children@;
                assert forall|y: u64| #[trigger] stack@.contains(y) implies descends(pre.parents, y, n) by {
                    if popped.contains(y) {
                        let j = choose|j: int| 0 <= j < popped.len() && popped[j] == y;
                        assert(stack0[j] == y);
                        assert(stack0.contains(y));
                    } else {
                        assert(rev0[x]@.contains(y));
                        assert(h0.has_child(x, y));
                        assert(pre.parents.contains_key(y) && pre.parents[y] == Parent::Child(Entity(x)));
                        assert(ancestor(pre.parents, y, k + 1) == Some(n));
                    }
                }
                if x != n && stack0.contains(n) {
                    let j = choose|j: int| 0 <= j < stack0.len() && stack0[j] == n;
                    assert(popped[j] == n);
                    assert(popped.contains(n));
                }
                assert(self@.parents =~= pre.parents.remove_keys(removed));
                assert(self@.registered =~= pre.registered.difference(removed));
                assert(self@.deleted =~= Self::deleted_after(pre, removed));
                assert forall|p: u64, c: u64| rev.contains_key(p) && #[trigger] rev[p]@.contains(c)
                    implies self@.has_child(p, c) by {
                    assert(rev0.contains_key(p) && rev0[p]@.contains(c));
                }
                assert forall|p: u64, c: u64| #[trigger] self@.has_child(p, c)
                    implies (rev.contains_key(p) && rev[p]@.contains(c)) || removed.contains(p) by {
                    assert(h0.has_child(p, c));
                    if p != x && !removed0.contains(p) {
                        assert(rev0.contains_key(p) && rev0[p]@.contains(c));
                        assert(rev1.contains_key(p) && rev1[p]@.contains(c));
                    }
                }
                assert forall|p: u64, c: u64| #[trigger] self@.has_child(p, c) && removed.contains(p)
                    implies stack@.contains(c) by {
                    assert(h0.has_child(p, c));
                    if p == x && !removed0.contains(x) {
                        assert(rev0.contains_key(x) && rev0[x]@.contains(c));
                    } else {
                        assert(stack0.contains(c));
                        let j = choose|j: int| 0 <= j < stack0.len() && stack0[j] == c;
                        assert(j < stack0.len() - 1);
                        assert(popped[j] == c);
                        assert(popped.contains(c));
                    }
                }
            }
        }
        proof {
            let rest = self@.parents;
            assert forall|c: u64| #[trigger] rest.contains_key(c) && rest[c] is Child
                implies !removed.contains(rest[c]->Child_0.0) by {
                let p = rest[c]->Child_0.0;
                assert(self@.has_child(p, c));
            }
            assert forall|d: u64| #[trigger] subtree(pre.parents, n).contains(d) implies removed.contains(d) by {
                let k = choose|k: nat| ancestor(pre.parents, d, k) == Some(n);
                lemma_closed_below(pre.parents, self@.parents, removed, n, d, k);
            }
            assert(removed =~= subtree(pre.parents, n));
            assert(self@.parents =~= pre.remove(n).parents);
            assert(self@.registered =~= pre.remove(n).registered);
            assert(self@.deleted =~= pre.remove(n).deleted);
            assert forall|d: u64| #[trigger] rooted(self@.parents, d) by {
                assert(rooted(pre.parents, d));
                let k = choose|k: nat| ancestor(pre.parents, d, k) is None;
                lemma_rooted_when_cut(pre.parents, self@.parents, d, k);
            }
        }
    }

    spec fn deleted_after(pre: Hierarchy, removed: Set<u64>) -> Map<u64, Option<Parent>> {
        Map::new(
            |x: u64| pre.deleted.contains_key(x) || removed.contains(x),
            |x: u64|
                if removed.contains(x) {
                    lookup(pre.parents, x)
                } else {
                    pre.deleted[x]
                },
        )
    }

    /// Applies one operation. A `Child` edge that would close a loop is
    /// refused with `CycleError` and changes nothing.
    pub fn write(&mut self, op: Message) -> (r: Result<(), CycleError>)
        requires
            old(self).wf(),
        ensures
            final(self).wf(),
            acyclic(final(self)@.parents),
            match old(self)@.apply(op) {
                Some(h) => r is Ok && final(self)@ == h,
                None => r is Err && final(self)@ == old(self)@,
            },
            match (op, r) {
                (Operation::Upsert(e, Parent::Child(p)), Err(err)) => err.child == e && err.parent == p,
                _ => true,
            },
    {
        match op {
            Operation::Delete(e) => {
                self.remove_subtree(e.0);
                Ok(())
            },
            Operation::Upsert(e, Parent::Root) => {
                self.set_edge(e.0, Parent::Root);
                Ok(())
            },
            Operation::Upsert(e, Parent::Child(p)) => {
                if self.would_cycle(e.0, p.0) {
                    Err(CycleError { child: e, parent: p })
                } else {
                    self.set_edge(e.0, Parent::Child(p));
                    Ok(())
                }
            },
        }
    }

    /// Starts a frame: empties the records of deleted and re-parented
    /// entities, then applies the frame's operations in arrival order,
    /// stopping at the first refused one.
    pub fn apply_parent(&mut self, msgs: &Vec<Message>) -> (r: Result<(), CycleError>)
        requires
            old(self).wf(),
        ensures
            final(self).wf(),
            acyclic(final(self)@.parents),
            match old(self)@.new_frame().apply_all(msgs@) {
                Some(h) => r is Ok && final(self)@ == h,
                None => r is Err,
            },
            r is Err ==> {
                let (reached, refused) = old(self)@.new_frame().run(msgs@);
                &&& final(self)@ == reached
                &&& refused == Some(Operation::Upsert(r->Err_0.child, Parent::Child(r->Err_0.parent)))
            },
    {
        self.deleted.clear();
        self.modified.clear();
        proof {
            assert(self@ == old(self)@.new_frame());
            assert forall|p: u64, c: u64| #[trigger] self@.has_child(p, c) == old(self)@.has_child(p, c) by {}
            assert(msgs@.subrange(0, msgs@.len() as int) =~= msgs@);
        }
        let mut i: usize = 0;
        while i < msgs.len()
            invariant
                0 <= i <= msgs.len(),
                self.wf(),
                old(self)@.new_frame().apply_all(msgs@) == self@.apply_all(msgs@.subrange(i as int, msgs@.len() as int)),
                old(self)@.new_frame().run(msgs@) == self@.run(msgs@.subrange(i as int, msgs@.len() as int)),
            decreases msgs.len() - i,
        {
            let ghost rest = msgs@.subrange(i as int, msgs@.len() as int);
            assert(rest.subrange(1, rest.len() as int) =~= msgs@.subrange(i + 1, msgs@.len() as int));
            assert(rest[0] == msgs@[i as int]);
            let r = self.write(msgs[i]);
            if r.is_err() {
                return r;
            }
            i = i + 1;
        }
        assert(msgs@.subrange(i as int, msgs@.len() as int) =~= Seq::<Message>::empty());
        Ok(())
    }

    /// One fold of the double-buffered parent system: `self` is the back
    /// buffer, two frames old, so it first catches up with the previous
    /// frame's operations and then applies this frame's. The per-frame records
    /// then hold this frame's changes only.
    pub fn catch_up(&mut self, last: &Vec<Message>, msgs: &Vec<Message>) -> (r: Result<(), CycleError>)
        requires
            old(self).wf(),
        ensures
            final(self).wf(),
            acyclic(final(self)@.parents),
            match old(self)@.new_frame().apply_all(last@) {
                Some(h1) => match h1.new_frame().apply_all(msgs@) {
                    Some(h2) => r is Ok && final(self)@ == h2,
                    None => r is Err,
                },
                None => r is Err,
            },
    {
        let r = self.apply_parent(last);
        if r.is_err() {
            return r;
        }
        self.apply_parent(msgs)
    }

    /// The parent bound to `e`, if any.
    pub fn read(&self, e: Entity) -> (r: Option<Parent>)
        ensures
            r == lookup(self@.parents, e.0),
    {
        match self.child_to_parent.get(&e.0) {
            Some(p) => Some(*p),
            None => None,
        }
    }

    /// `c` is one of `p`'s children.
    pub fn is_child(&self, p: Entity, c: Entity) -> (r: bool)
        requires
            self.wf(),
        ensures
            r == self@.has_child(p.0, c.0),
    {
        match self.parent_to_children.get(&p.0) {
            Some(v) => v.contains(&c.0),
            None => false,
        }
    }

    /// The children of `p`, or `None` where `p` owns no children set.
    pub fn children(&self, p: Entity) -> (r: Option<Vec<Entity>>)
        requires
            self.wf(),
        ensures
            r is Some <==> self@.registered.contains(p.0),
            r is Some ==> forall|c: Entity| r->Some_0@.contains(c) <==> self@.has_child(p.0, c.0),
            r is None ==> forall|c: u64| !self@.has_child(p.0, c),
    {
        match self.parent_to_children.get(&p.0) {
            Some(v) => {
                let out = entities_of(v);
                Some(out)
            },
            None => None,
        }
    }

    /// Whether `e` was deleted this frame and, if so, the parent it had.
    pub fn deleted(&self, e: Entity) -> (r: Option<Option<Parent>>)
        ensures
            r == lookup(self@.deleted, e.0),
    {
        match self.deleted.get(&e.0) {
            Some(p) => Some(*p),
            None => None,
        }
    }

    /// Whether `e` was re-bound this frame and, if so, the parent it had before.
    pub fn modified(&self, e: Entity) -> (r: Option<Option<Parent>>)
        ensures
            r == lookup(self@.modified, e.0),
    {
        match self.modified.get(&e.0) {
            Some(p) => Some(*p),
            None => None,
        }
    }

    /// The entities deleted this frame, each once.
    pub fn deleted_entities(&self) -> (r: Vec<Entity>)
        ensures
            r@.no_duplicates(),
            forall|e: Entity| r@.contains(e) <==> self@.deleted.contains_key(e.0),
    {
        keys_of(&self.deleted)
    }

    /// The entities re-bound this frame, each once.
    pub fn modified_entities(&self) -> (r: Vec<Entity>)
        ensures
            r@.no_duplicates(),
            forall|e: Entity| r@.contains(e) <==> self@.modified.contains_key(e.0),
    {
        keys_of(&self.modified)
    }

    /// A well-formed hierarchy holds no loop.
    pub proof fn lemma_acyclic(&self)
        requires
            self.wf(),
        ensures
            acyclic(self@.parents),
    {
    }

    /// An empty hierarchy.
    pub fn new() -> (r: ParentData)
        ensures
            r.wf(),
            acyclic(r@.parents),
            r@.parents == Map::<u64, Parent>::empty(),
            r@.registered == Set::<u64>::empty(),
            r@.deleted == Map::<u64, Option<Parent>>::empty(),
            r@.modified == Map::<u64, Option<Parent>>::empty(),
    {
        let r = ParentData {
            child_to_parent: HashMap::new(),
            parent_to_children: HashMap::new(),
            deleted: HashMap::new(),
            modified: HashMap::new(),
        };
        assert forall|d: u64| #[trigger] rooted(r@.parents, d) by {
            assert(ancestor(r@.parents, d, 1) is None);
        }
        r
    }
}

/// One more step up from the `i`-th ancestor `c` of `d`.
pub(crate) proof fn lemma_ancestor_step(parents: Map<u64, Parent>, d: u64, i: nat, c: u64)
    requires
        ancestor(parents, d, i) == Some(c),
    ensures
        ancestor(parents, d, i + 1) == (match lookup(parents, c) {
            Some(Parent::Child(q)) => Some(q.0),
            _ => None,
        }),
    decreases i,
{
    if i > 0 {
        let q = lookup(parents, d)->Some_0->Child_0;
        lemma_ancestor_step(parents, q.0, (i - 1) as nat, c);
        assert(ancestor(parents, d, i + 1) == ancestor(parents, q.0, i));
    } else if let Some(Parent::Child(q)) = lookup(parents, d) {
        assert(ancestor(parents, q.0, 0) == Some(q.0));
    }
}

/// Once a walk up has ended it stays ended.
pub(crate) proof fn lemma_ended(parents: Map<u64, Parent>, d: u64, k: nat, k2: nat)
    requires
        ancestor(parents, d, k) is None,
        k <= k2,
    ensures
        ancestor(parents, d, k2) is None,
    decreases k,
{
    if k > 0 {
        if let Some(Parent::Child(q)) = lookup(parents, d) {
            lemma_ended(parents, q.0, (k - 1) as nat, (k2 - 1) as nat);
        }
    }
}

/// Binding an edge at `e` leaves every walk that never meets `e` as it was.
proof fn lemma_walk_past(parents: Map<u64, Parent>, e: u64, value: Parent, x: u64, k: nat)
    requires
        !descends(parents, x, e),
    ensures
        ancestor(parents.insert(e, value), x, k) == ancestor(parents, x, k),
    decreases k,
{
    assert(ancestor(parents, x, 0) == Some(x));
    if k > 0 {
        assert(lookup(parents.insert(e, value), x) == lookup(parents, x));
        if let Some(Parent::Child(q)) = lookup(parents, x) {
            assert forall|j: nat| ancestor(parents, q.0, j) != Some(e) by {
                assert(ancestor(parents, x, j + 1) == ancestor(parents, q.0, j));
            }
            lemma_walk_past(parents, e, value, q.0, (k - 1) as nat);
        }
    }
}

/// Dropping or cutting parent edges keeps every walk up finite.
proof fn lemma_rooted_when_cut(before: Map<u64, Parent>, after: Map<u64, Parent>, d: u64, k: nat)
    requires
        forall|x: u64| #[trigger] lookup(after, x) is Some && lookup(after, x)->Some_0 is Child
            ==> lookup(after, x) == lookup(before, x),
        ancestor(before, d, k) is None,
    ensures
        rooted(after, d),
    decreases k,
{
    if let Some(Parent::Child(q)) = lookup(after, d) {
        lemma_rooted_when_cut(before, after, q.0, (k - 1) as nat);
        let j = choose|j: nat| ancestor(after, q.0, j) is None;
        assert(ancestor(after, d, j + 1) is None);
    } else {
        assert(ancestor(after, d, 1) is None);
    }
}

/// Hanging `e` below `p`, which does not lie below `e`, keeps every walk up finite.
proof fn lemma_rooted_when_linked(parents: Map<u64, Parent>, e: u64, p: u64, d: u64, k: nat)
    requires
        acyclic(parents),
        !descends(parents, p, e),
        ancestor(parents, d, k) is None,
    ensures
        rooted(parents.insert(e, Parent::Child(Entity(p))), d),
    decreases k,
{
    let after = parents.insert(e, Parent::Child(Entity(p)));
    if d == e {
        assert(rooted(parents, p));
        let j = choose|j: nat| ancestor(parents, p, j) is None;
        lemma_walk_past(parents, e, Parent::Child(Entity(p)), p, j);
        assert(ancestor(after, e, j + 1) == ancestor(after, p, j));
    } else {
        assert(lookup(after, d) == lookup(parents, d));
        if let Some(Parent::Child(q)) = lookup(parents, d) {
            lemma_rooted_when_linked(parents, e, p, q.0, (k - 1) as nat);
            let j = choose|j: nat| ancestor(after, q.0, j) is None;
            assert(ancestor(after, d, j + 1) is None);
        } else {
            assert(ancestor(after, d, 1) is None);
        }
    }
}

/// Writing the same (entity, parent) pair twice in one frame leaves the
/// same indices as writing it once: the second write is accepted and
/// changes neither the parent map nor the set of entities owning a children set.
pub proof fn lemma_write_idempotent(h: Hierarchy, e: Entity, value: Parent)
    requires
        h.apply(Operation::Upsert(e, value)) is Some,
    ensures
        ({
            let once = h.apply(Operation::Upsert(e, value))->Some_0;
            &&& once.apply(Operation::Upsert(e, value)) is Some
            &&& once.apply(Operation::Upsert(e, value))->Some_0.parents == once.parents
            &&& once.apply(Operation::Upsert(e, value))->Some_0.registered == once.registered
        }),
{
    let once = h.apply(Operation::Upsert(e, value))->Some_0;
    if let Parent::Child(p) = value {
        assert forall|k: nat| ancestor(once.parents, p.0, k) != Some(e.0) by {
            lemma_walk_past(h.parents, e.0, value, p.0, k);
        }
    }
    let twice = once.apply(Operation::Upsert(e, value))->Some_0;
    assert(twice.parents =~= once.parents);
    assert(twice.registered =~= once.registered);
}

/// Binding `e` as a child of `p` and later as a root takes `e` out of `p`'s
/// children and leaves it without a parent.
pub proof fn lemma_child_then_root(h: Hierarchy, e: Entity, p: Entity)
    requires
        h.apply(Operation::Upsert(e, Parent::Child(p))) is Some,
    ensures
        ({
            let child = h.apply(Operation::Upsert(e, Parent::Child(p)))->Some_0;
            let root = child.apply(Operation::Upsert(e, Parent::Root))->Some_0;
            &&& child.has_child(p.0, e.0)
            &&& child.apply(Operation::Upsert(e, Parent::Root)) is Some
            &&& !root.has_child(p.0, e.0)
            &&& root.parents[e.0] == Parent::Root
        }),
{
}

/// Deleting `n` removes every entity at or below it from both indices within
/// one frame, and lists each of them among that frame's deleted entities.
pub proof fn lemma_delete_cascades(h: Hierarchy, n: Entity, d: u64)
    requires
        descends(h.parents, d, n.0),
    ensures
        ({
            let after = h.new_frame().apply_all(seq![Operation::Delete(n)]);
            &&& after is Some
            &&& !after->Some_0.parents.contains_key(d)
            &&& !after->Some_0.registered.contains(d)
            &&& forall|q: u64| !after->Some_0.has_child(q, d)
            &&& after->Some_0.deleted.contains_key(d)
        }),
{
    let ops = seq![Operation::<Parent>::Delete(n)];
    let start = h.new_frame();
    assert(ops.subrange(1, ops.len() as int) =~= Seq::<Message>::empty());
    assert(start.apply_all(ops) == start.remove(n.0).apply_all(Seq::<Message>::empty()));
    assert(subtree(start.parents, n.0).contains(d));
}

} // verus!
