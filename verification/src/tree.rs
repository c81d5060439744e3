//! The editable directory tree: an arena of nodes, a path-traversal state
//! machine with occupied, vacant and blocked outcomes, and a marshaller
//! that streams the tree into an object store and returns the root digest.

use vstd::prelude::*;

use vstd::pervasive::VecAdditionalExecFns;

use crate::bytes::{bytes_eq, clone_bytes};
use crate::digest::Sha3Digest;
use crate::error::Error;
use crate::object::{SubtreeEntry, SubtreeEntryView, SubtreeObject};
use crate::store::{assoc_at, lemma_assoc_first_match, lemma_assoc_none, lemma_assoc_some, same_state, store_has, Store};

verus! {

/// The index of a node in the arena. Identifiers are never reused.
#[derive(Debug, Clone, Copy)]
pub struct NodeId(usize);

impl View for NodeId {
    type V = int;

    closed spec fn view(&self) -> int {
        self.0 as int
    }
}

/// One node of the tree: an unexpanded entry known only by digest, or an
/// expanded directory mapping names to child nodes.
#[derive(Debug)]
pub enum Node {
    Opaque(SubtreeEntry),
    Transparent(Vec<(Vec<u8>, NodeId)>),
}

/// The growable slab the nodes live in; removal empties a slot and never
/// reclaims it.
#[derive(Debug)]
pub struct Arena {
    entries: Vec<Option<Node>>,
}

/// An editable directory tree: an arena and the root node's index.
#[derive(Debug)]
pub struct Tree {
    arena: Arena,
    root: NodeId,
}

/// Every child index stored in a transparent node is inside the arena.
pub open spec fn arena_wf(a: Seq<Option<Node>>) -> bool {
    forall|i: int| 0 <= i < a.len() ==> (match #[trigger] a[i] {
        Some(Node::Transparent(m)) => forall|j: int| 0 <= j < m@.len() ==> 0 <= (#[trigger] m@[j]).1@ < a.len(),
        _ => true,
    })
}

/// The views of a path's components.
pub open spec fn path_view(p: Seq<Vec<u8>>) -> Seq<Seq<u8>> {
    p.map_values(|c: Vec<u8>| c@)
}

/// Where a path walk ends: at the addressed node, off the tree at a missing
/// slot or a missing name, or at an unexpanded node partway through.
pub enum WalkEnd {
    /// The whole path was consumed; `node` is the addressed slot.
    Occupied { node: int },
    /// The walk reached an empty slot; the component at `rest - 1` was
    /// consumed by the step into the slot.
    VacantNone { node: int, rest: int },
    /// The walk reached a directory without the component at `at`.
    VacantKey { node: int, at: int },
    /// The walk reached an unexpanded node with the component at `at` still
    /// unconsumed.
    Blocked { node: int, at: int },
}

/// The deterministic path walk from `cur` along `path[k..]`.
pub open spec fn walk(a: Seq<Option<Node>>, cur: int, path: Seq<Seq<u8>>, k: int) -> WalkEnd
    decreases path.len() - k,
{
    if k < 0 || k >= path.len() {
        WalkEnd::Occupied { node: cur }
    } else if !(0 <= cur < a.len()) {
        WalkEnd::VacantNone { node: cur, rest: k + 1 }
    } else {
        match a[cur] {
            None => WalkEnd::VacantNone { node: cur, rest: k + 1 },
            Some(Node::Opaque(_)) => WalkEnd::Blocked { node: cur, at: k },
            Some(Node::Transparent(m)) => match assoc_at(m@, path[k]) {
                Some(id) => walk(a, id, path, k + 1),
                None => WalkEnd::VacantKey { node: cur, at: k },
            },
        }
    }
}

impl Tree {
    /// The arena's slots.
    pub closed spec fn nodes(self) -> Seq<Option<Node>> {
        self.arena.entries@
    }

    /// The root slot's index.
    pub closed spec fn root_id(self) -> int {
        self.root@
    }

    /// The root is in range and every stored child index is too.
    pub open spec fn wf(self) -> bool {
        arena_wf(self.nodes()) && 0 <= self.root_id() < self.nodes().len()
    }
}

/// The path addresses this existing node.
pub struct OccupiedEntry {
    pub node_id: NodeId,
    pub tree: Tree,
}

/// The path walked off the tree here: inserting builds a fresh chain of
/// directories for `immediate` (if any) and `rest`, ending in the entry.
pub struct VacantEntry {
    pub node_id: NodeId,
    pub immediate: Option<Vec<u8>>,
    pub rest: Vec<Vec<u8>>,
    pub tree: Tree,
}

/// The two ways a walk can end inside the known tree.
pub enum Entry {
    Occupied(OccupiedEntry),
    Vacant(VacantEntry),
}

/// The walk hit an unexpanded node: fetch the subtree behind its digest,
/// then resume with `unblock`.
pub struct Blocked {
    pub blocking_id: NodeId,
    pub immediate: Vec<u8>,
    pub rest: Vec<Vec<u8>>,
    pub tree: Tree,
}

impl OccupiedEntry {
    /// The entry is well-placed in its tree.
    pub open spec fn wf(self) -> bool {
        self.tree.wf() && 0 <= self.node_id@ < self.tree.nodes().len()
    }

    /// Gives the tree back.
    pub fn into_inner(self) -> (t: Tree)
        ensures
            t == self.tree,
    {
        self.tree
    }
}

impl VacantEntry {
    /// The entry is well-placed: the slot is empty, or a directory without
    /// the immediate component.
    pub open spec fn wf(self) -> bool {
        &&& self.tree.wf()
        &&& 0 <= self.node_id@ < self.tree.nodes().len()
        &&& match self.immediate {
            None => self.tree.nodes()[self.node_id@] is None,
            Some(c) => match self.tree.nodes()[self.node_id@] {
                Some(Node::Transparent(m)) => assoc_at(m@, c@) is None,
                _ => false,
            },
        }
    }

    /// Gives the tree back.
    pub fn into_inner(self) -> (t: Tree)
        ensures
            t == self.tree,
    {
        self.tree
    }
}

impl Blocked {
    /// The walk is blocked at an unexpanded node.
    pub open spec fn wf(self) -> bool {
        &&& self.tree.wf()
        &&& 0 <= self.blocking_id@ < self.tree.nodes().len()
        &&& self.tree.nodes()[self.blocking_id@] matches Some(Node::Opaque(_))
    }

    /// The digest of the unexpanded node the walk stopped at.
    pub fn object_hash(&self) -> (d: Sha3Digest)
        requires
            self.wf(),
        ensures
            match self.tree.nodes()[self.blocking_id@] {
                Some(Node::Opaque(e)) => d@ == e@.hash(),
                _ => false,
            },
    {
        match &self.tree.arena.entries[self.blocking_id.0] {
            Some(Node::Opaque(entry)) => entry.hash(),
            _ => {
                proof {
                    assert(false);
                }
                Sha3Digest::hash_bytes(&Vec::new())
            },
        }
    }

    /// Gives the tree back.
    pub fn into_inner(self) -> (t: Tree)
        ensures
            t == self.tree,
    {
        self.tree
    }
}

/// Looks a name up in a directory node's child list.
fn map_get(m: &Vec<(Vec<u8>, NodeId)>, name: &Vec<u8>) -> (r: Option<NodeId>)
    ensures
        match r {
            Some(id) => assoc_at(m@, name@) == Some(id@),
            None => assoc_at(m@, name@) is None,
        },
{
    let mut i: usize = 0;
    while i < m.len()
        invariant
            i <= m@.len(),
            forall|j: int| 0 <= j < i ==> (#[trigger] m@[j]).0@ != name@,
        decreases m.len() - i,
    {
        if bytes_eq(&m[i].0, name) {
            proof {
                lemma_assoc_first_match(m@, i as int, name@);
            }
            return Some(m[i].1);
        }
        i = i + 1;
    }
    proof {
        lemma_assoc_none(m@, name@);
    }
    None
}

/// Copies the components `path[from..]` into a fresh vector.
fn copy_path_suffix(path: &Vec<Vec<u8>>, from: usize) -> (r: Vec<Vec<u8>>)
    requires
        from <= path@.len(),
    ensures
        path_view(r@) == path_view(path@).skip(from as int),
{
    let mut out: Vec<Vec<u8>> = Vec::new();
    let mut i: usize = from;
    while i < path.len()
        invariant
            from <= i <= path@.len(),
            out@.len() == i - from,
            forall|j: int| 0 <= j < out@.len() ==> (#[trigger] out@[j])@ == path@[from + j]@,
        decreases path.len() - i,
    {
        out.push(clone_bytes(&path[i]));
        i = i + 1;
    }
    proof {
        assert(path_view(out@) =~= path_view(path@).skip(from as int));
    }
    out
}

impl Tree {
    /// Walks `path` from the root and reports where it ends: the addressed
    /// node, a vacancy to insert into, or a block at an unexpanded node.
    /// The outcome is exactly what the specification walk says.
    pub fn entry(self, path: Vec<Vec<u8>>) -> (r: Result<Entry, Blocked>)
        requires
            self.wf(),
        ensures
            ({
                let pv = path_view(path@);
                match walk(self.nodes(), self.root_id(), pv, 0) {
                    WalkEnd::Occupied { node } => match r {
                        Ok(Entry::Occupied(oe)) => oe.node_id@ == node && oe.tree == self && oe.wf(),
                        _ => false,
                    },
                    WalkEnd::VacantNone { node, rest } => match r {
                        Ok(Entry::Vacant(ve)) => {
                            &&& ve.node_id@ == node
                            &&& ve.tree == self
                            &&& ve.immediate is None
                            &&& path_view(ve.rest@) == pv.skip(rest)
                            &&& ve.wf()
                        },
                        _ => false,
                    },
                    WalkEnd::VacantKey { node, at } => match r {
                        Ok(Entry::Vacant(ve)) => {
                            &&& ve.node_id@ == node
                            &&& ve.tree == self
                            &&& (match ve.immediate {
                                Some(c) => c@ == pv[at],
                                None => false,
                            })
                            &&& path_view(ve.rest@) == pv.skip(at + 1)
                            &&& ve.wf()
                        },
                        _ => false,
                    },
                    WalkEnd::Blocked { node, at } => match r {
                        Err(b) => {
                            &&& b.blocking_id@ == node
                            &&& b.tree == self
                            &&& b.immediate@ == pv[at]
                            &&& path_view(b.rest@) == pv.skip(at + 1)
                            &&& b.wf()
                        },
                        _ => false,
                    },
                }
            }),
    {
        let ghost pv = path_view(path@);
        let mut cur: NodeId = self.root;
        let mut k: usize = 0;
        loop
            invariant
                self.wf(),
                k <= path@.len(),
                pv == path_view(path@),
                0 <= cur@ < self.nodes().len(),
                walk(self.nodes(), self.root_id(), pv, 0) == walk(self.nodes(), cur@, pv, k as int),
            decreases path@.len() - k,
        {
            if k == path.len() {
                return Ok(Entry::Occupied(OccupiedEntry { node_id: cur, tree: self }));
            }
            let component = &path[k];
            proof {
                assert(pv[k as int] == component@);
            }
            match &self.arena.entries[cur.0] {
                None => {
                    let rest = copy_path_suffix(&path, k + 1);
                    return Ok(Entry::Vacant(VacantEntry {
                        node_id: cur,
                        immediate: None,
                        rest,
                        tree: self,
                    }));
                },
                Some(Node::Opaque(_)) => {
                    let immediate = clone_bytes(component);
                    let rest = copy_path_suffix(&path, k + 1);
                    return Err(Blocked { blocking_id: cur, immediate, rest, tree: self });
                },
                Some(Node::Transparent(m)) => {
                    match map_get(m, component) {
                        Some(next) => {
                            proof {
                                lemma_assoc_some(m@, component@);
                                let j = choose|j: int|
                                    0 <= j < m@.len() && (#[trigger] m@[j]).0@ == component@ && Some(m@[j].1@)
                                        == assoc_at(m@, component@);
                                assert(0 <= m@[j].1@ < self.nodes().len());
                                assert(next@ == m@[j].1@);
                                assert(walk(self.nodes(), cur@, pv, k as int) == walk(
                                    self.nodes(),
                                    next@,
                                    pv,
                                    k + 1,
                                ));
                            }
                            cur = next;
                            k = k + 1;
                        },
                        None => {
                            let immediate = Some(clone_bytes(component));
                            let rest = copy_path_suffix(&path, k + 1);
                            return Ok(Entry::Vacant(VacantEntry {
                                node_id: cur,
                                immediate,
                                rest,
                                tree: self,
                            }));
                        },
                    }
                },
            }
        }
    }
}


/// Updating a slot with in-range children keeps the arena well-formed.
proof fn lemma_arena_wf_update(a: Seq<Option<Node>>, i: int, n: Option<Node>)
    requires
        arena_wf(a),
        0 <= i < a.len(),
        match n {
            Some(Node::Transparent(m)) => forall|j: int| 0 <= j < m@.len() ==> 0 <= (#[trigger] m@[j]).1@ < a.len(),
            _ => true,
        },
    ensures
        arena_wf(a.update(i, n)),
{
    let a2 = a.update(i, n);
    assert forall|x: int| 0 <= x < a2.len() implies (match #[trigger] a2[x] {
        Some(Node::Transparent(m)) => forall|j: int| 0 <= j < m@.len() ==> 0 <= (#[trigger] m@[j]).1@ < a2.len(),
        _ => true,
    }) by {
        if x != i {
            assert(a2[x] == a[x]);
        }
    }
}

/// Appending an empty slot keeps the arena well-formed.
proof fn lemma_arena_wf_push(a: Seq<Option<Node>>)
    requires
        arena_wf(a),
    ensures
        arena_wf(a.push(None)),
{
    let a2 = a.push(None);
    assert forall|x: int| 0 <= x < a2.len() implies (match #[trigger] a2[x] {
        Some(Node::Transparent(m)) => forall|j: int| 0 <= j < m@.len() ==> 0 <= (#[trigger] m@[j]).1@ < a2.len(),
        _ => true,
    }) by {
        if x < a.len() {
            assert(a2[x] == a[x]);
        }
    }
}

/// Slot `s` is a directory that maps `name` to slot `d`.
pub open spec fn is_link(a: Seq<Option<Node>>, s: int, name: Seq<u8>, d: int) -> bool {
    0 <= s < a.len() && match a[s] {
        Some(Node::Transparent(m)) => assoc_at(m@, name) == Some(d),
        _ => false,
    }
}

/// Following a chain of links consumes the path and lands on the chain's
/// last slot.
proof fn lemma_walk_chain(a: Seq<Option<Node>>, start: int, path: Seq<Seq<u8>>, k: int, chain: Seq<int>)
    requires
        0 <= k <= path.len(),
        chain.len() == path.len() - k,
        k < path.len() ==> is_link(a, start, path[k], chain[0]),
        forall|l: int| 0 <= l < chain.len() - 1 ==> is_link(a, #[trigger] chain[l], path[k + l + 1], chain[l + 1]),
    ensures
        walk(a, start, path, k) == (WalkEnd::Occupied {
            node: if chain.len() == 0 {
                start
            } else {
                chain.last()
            },
        }),
    decreases path.len() - k,
{
    if k < path.len() {
        assert(walk(a, start, path, k) == walk(a, chain[0], path, k + 1));
        let rest = chain.drop_first();
        assert forall|l: int| 0 <= l < rest.len() - 1 implies is_link(a, #[trigger] rest[l], path[k + 1 + l + 1], rest[l
            + 1]) by {
            assert(rest[l] == chain[l + 1] && rest[l + 1] == chain[l + 2]);
            assert(is_link(a, chain[l + 1], path[k + (l + 1) + 1], chain[l + 2]));
        }
        if rest.len() > 0 {
            assert(rest[0] == chain[1]);
            assert(is_link(a, chain[0], path[k + 0 + 1], chain[0int + 1]));
        }
        lemma_walk_chain(a, chain[0], path, k + 1, rest);
        if rest.len() > 0 {
            assert(rest.last() == chain.last());
        }
    }
}

impl Tree {
    /// Appends an empty slot and returns its index.
    fn alloc_none(&mut self) -> (id: NodeId)
        ensures
            final(self).nodes() == old(self).nodes().push(None),
            id@ == old(self).nodes().len(),
            final(self).root_id() == old(self).root_id(),
    {
        let id = NodeId(self.arena.entries.len());
        self.arena.entries.push(None);
        id
    }

    /// A tree whose root is a single unexpanded entry.
    pub fn from_entry(entry: SubtreeEntry) -> (t: Tree)
        ensures
            t.wf(),
            t.nodes().len() == 1,
            t.root_id() == 0,
            t.nodes()[0] == Some(Node::Opaque(entry)),
    {
        let mut entries: Vec<Option<Node>> = Vec::new();
        entries.push(Some(Node::Opaque(entry)));
        let t = Tree { arena: Arena { entries }, root: NodeId(0) };
        proof {
            assert(t.nodes().len() == 1);
            assert(t.nodes()[0] matches Some(Node::Opaque(_)));
        }
        t
    }

    /// A tree with an empty directory at the root.
    pub fn empty() -> (t: Tree)
        ensures
            t.wf(),
            t.nodes().len() == 1,
            t.root_id() == 0,
            match t.nodes()[0] {
                Some(Node::Transparent(m)) => m@.len() == 0,
                _ => false,
            },
    {
        let mut entries: Vec<Option<Node>> = Vec::new();
        entries.push(Some(Node::Transparent(Vec::new())));
        Tree { arena: Arena { entries }, root: NodeId(0) }
    }

    /// A tree with one directory at the root holding the subtree's entries
    /// as unexpanded children.
    pub fn from_subtree(s: &SubtreeObject) -> (t: Tree)
        ensures
            t.wf(),
            t.nodes().len() == s@.len() + 1,
            t.root_id() == s@.len(),
            match t.nodes()[t.root_id()] {
                Some(Node::Transparent(m)) => {
                    &&& m@.len() == s@.len()
                    &&& forall|i: int| 0 <= i < m@.len() ==> (#[trigger] m@[i]).0@ == s@[i].0 && m@[i].1@ == i
                },
                _ => false,
            },
            forall|i: int| 0 <= i < s@.len() ==> (match #[trigger] t.nodes()[i] {
                Some(Node::Opaque(e)) => e@ == s@[i].1,
                _ => false,
            }),
    {
        let mut entries: Vec<Option<Node>> = Vec::new();
        let mut m: Vec<(Vec<u8>, NodeId)> = Vec::new();
        let n = s.len();
        let mut i: usize = 0;
        while i < n
            invariant
                i <= s@.len(),
                n == s@.len(),
                entries@.len() == i,
                m@.len() == i,
                forall|j: int| 0 <= j < i ==> (match #[trigger] entries@[j] {
                    Some(Node::Opaque(e)) => e@ == s@[j].1,
                    _ => false,
                }),
                forall|j: int| 0 <= j < i ==> (#[trigger] m@[j]).0@ == s@[j].0 && m@[j].1@ == j,
            decreases n - i,
        {
            let (name, entry) = s.entry_at(i);
            entries.push(Some(Node::Opaque(entry)));
            m.push((name, NodeId(i)));
            i = i + 1;
        }
        entries.push(Some(Node::Transparent(m)));
        let t = Tree { arena: Arena { entries }, root: NodeId(n) };
        proof {
            assert forall|x: int| 0 <= x < t.nodes().len() implies (match #[trigger] t.nodes()[x] {
                Some(Node::Transparent(mm)) => forall|j: int| 0 <= j < mm@.len() ==> 0 <= (#[trigger] mm@[j]).1@
                    < t.nodes().len(),
                _ => true,
            }) by {}
        }
        t
    }
}

impl OccupiedEntry {
    /// Empties the addressed slot, leaving a vacancy at the same place.
    pub fn remove(self) -> (ve: VacantEntry)
        requires
            self.wf(),
        ensures
            ve.node_id@ == self.node_id@,
            ve.immediate is None,
            ve.rest@.len() == 0,
            ve.tree.nodes() == self.tree.nodes().update(self.node_id@, None::<Node>),
            ve.tree.root_id() == self.tree.root_id(),
            ve.wf(),
    {
        let OccupiedEntry { node_id, mut tree } = self;
        proof {
            lemma_arena_wf_update(tree.nodes(), node_id@, None);
        }
        tree.arena.entries.set(node_id.0, None);
        VacantEntry { node_id, immediate: None, rest: Vec::new(), tree }
    }

    /// Replaces the addressed slot with an unexpanded entry.
    pub fn replace(self, entry: SubtreeEntry) -> (oe: OccupiedEntry)
        requires
            self.wf(),
        ensures
            oe.node_id@ == self.node_id@,
            oe.tree.nodes() == self.tree.nodes().update(self.node_id@, Some(Node::Opaque(entry))),
            oe.tree.root_id() == self.tree.root_id(),
            oe.wf(),
    {
        let OccupiedEntry { node_id, mut tree } = self;
        proof {
            lemma_arena_wf_update(tree.nodes(), node_id@, Some(Node::Opaque(entry)));
        }
        tree.arena.entries.set(node_id.0, Some(Node::Opaque(entry)));
        OccupiedEntry { node_id, tree }
    }
}

impl VacantEntry {
    /// The components still to build below the vacant slot.
    pub open spec fn pending(self) -> Seq<Seq<u8>> {
        match self.immediate {
            Some(c) => seq![c@] + path_view(self.rest@),
            None => path_view(self.rest@),
        }
    }

    /// Builds a chain of fresh directories for the pending components below
    /// the vacancy, ending in the given entry: walking the pending
    /// components from the vacant slot now finds exactly that entry. Slots
    /// that existed before, other than the vacant one, are untouched.
    pub fn insert(self, entry: SubtreeEntry) -> (oe: OccupiedEntry)
        requires
            self.wf(),
        ensures
            oe.wf(),
            oe.tree.root_id() == self.tree.root_id(),
            oe.tree.nodes().len() >= self.tree.nodes().len(),
            forall|i: int| 0 <= i < self.tree.nodes().len() && i != self.node_id@ ==> oe.tree.nodes()[i]
                == self.tree.nodes()[i],
            walk(oe.tree.nodes(), self.node_id@, self.pending(), 0) == (WalkEnd::Occupied { node: oe.node_id@ }),
            oe.tree.nodes()[oe.node_id@] == Some(Node::Opaque(entry)),
            // the vacant slot was empty, or is a directory that kept every
            // name it had: existing walks through it are not moved
            self.tree.nodes()[self.node_id@] is None || (match (
                self.tree.nodes()[self.node_id@],
                oe.tree.nodes()[self.node_id@],
            ) {
                (Some(Node::Transparent(m1)), Some(Node::Transparent(m2))) => forall|key: Seq<u8>|
                    assoc_at(m1@, key) is Some ==> #[trigger] assoc_at(m2@, key) == assoc_at(m1@, key),
                _ => false,
            }),
    {
        let ghost pend = self.pending();
        let ghost orig = self.tree;
        let VacantEntry { node_id, immediate, rest, mut tree } = self;
        let mut current: NodeId = node_id;
        let ghost chain: Seq<int> = Seq::empty();
        let ghost consumed: int = 0;
        let ghost mut node_after: Option<Node> = None;
        match immediate {
            Some(c) => {
                let fresh = tree.alloc_none();
                proof {
                    lemma_arena_wf_push(orig.nodes());
                }
                // extend the parent directory with the new name
                let mut slot: Option<Node> = None;
                tree.arena.entries.set_and_swap(node_id.0, &mut slot);
                match slot {
                    Some(Node::Transparent(mut m)) => {
                        let ghost mpre = m@;
                        m.push((c, fresh));
                        proof {
                            crate::store::lemma_assoc_push(mpre, m@.last());
                            assert(m@ == mpre.push(m@.last()) && m@.last().0@ == pend[0] && m@.last().1@ == fresh@);
                            assert(assoc_at(m@, pend[0]) == Some(fresh@));
                            assert forall|j: int| 0 <= j < m@.len() implies 0 <= (#[trigger] m@[j]).1@
                                < tree.nodes().len() by {
                                if j < mpre.len() {
                                    assert(m@[j] == mpre[j]);
                                }
                            }
                            lemma_arena_wf_update(tree.nodes(), node_id@, Some(Node::Transparent(m)));
                        }
                        proof {
                            assert forall|key: Seq<u8>| assoc_at(mpre, key) is Some implies #[trigger] assoc_at(
                                m@,
                                key,
                            ) == assoc_at(mpre, key) by {
                                assert(m@ == mpre.push(m@.last()));
                            }
                        }
                        tree.arena.entries.set(node_id.0, Some(Node::Transparent(m)));
                    },
                    _ => {
                        proof {
                            assert(false);
                        }
                    },
                }
                current = fresh;
                proof {
                    chain = seq![fresh@];
                    consumed = 1;
                    node_after = tree.nodes()[node_id@];
                    assert(match (orig.nodes()[node_id@], node_after) {
                        (Some(Node::Transparent(m1)), Some(Node::Transparent(m2))) => forall|key: Seq<u8>|
                            assoc_at(m1@, key) is Some ==> #[trigger] assoc_at(m2@, key) == assoc_at(m1@, key),
                        _ => false,
                    });
                }
            },
            None => {
            },
        }
        // build one fresh directory per remaining component
        let mut i: usize = 0;
        while i < rest.len()
            invariant
                i <= rest@.len(),
                tree.wf(),
                consumed == pend.len() - rest@.len() + i,
                0 <= consumed <= pend.len(),
                pend.len() == rest@.len() + consumed - i,
                chain.len() == consumed,
                tree.root_id() == orig.root_id(),
                tree.nodes().len() >= orig.nodes().len(),
                0 <= node_id@ < orig.nodes().len(),
                forall|x: int| 0 <= x < orig.nodes().len() && x != node_id@ ==> tree.nodes()[x] == orig.nodes()[x],
                0 <= current@ < tree.nodes().len(),
                tree.nodes()[current@] is None,
                consumed == 0 ==> current@ == node_id@,
                consumed > 0 ==> current@ == chain.last() && chain[0] > node_id@,
                forall|l: int| 0 <= l < chain.len() ==> node_id@ < #[trigger] chain[l] < tree.nodes().len()
                    && orig.nodes().len() <= #[trigger] chain[l],
                forall|l: int| 0 <= l < chain.len() - 1 ==> #[trigger] chain[l] < chain[l + 1],
                consumed > 0 ==> is_link(tree.nodes(), node_id@, pend[0], chain[0]),
                forall|l: int| 0 <= l < chain.len() - 1 ==> is_link(
                    tree.nodes(),
                    #[trigger] chain[l],
                    pend[l + 1],
                    chain[l + 1],
                ),
                forall|j: int| 0 <= j < rest@.len() ==> #[trigger] pend[pend.len() - rest@.len() + j] == rest@[j]@,
                consumed == pend.len() - rest@.len() + i,
                self.immediate is Some ==> tree.nodes()[node_id@] == node_after && (match (
                    orig.nodes()[node_id@],
                    node_after,
                ) {
                    (Some(Node::Transparent(m1)), Some(Node::Transparent(m2))) => forall|key: Seq<u8>|
                        assoc_at(m1@, key) is Some ==> #[trigger] assoc_at(m2@, key) == assoc_at(m1@, key),
                    _ => false,
                }),
            decreases rest@.len() - i,
        {
            let fresh = tree.alloc_none();
            proof {
                lemma_arena_wf_push(tree.nodes().drop_last());
                assert(tree.nodes().drop_last().push(None) =~= tree.nodes());
            }
            let mut m: Vec<(Vec<u8>, NodeId)> = Vec::new();
            m.push((clone_bytes(&rest[i]), fresh));
            proof {
                crate::store::lemma_assoc_push(Seq::<(Vec<u8>, NodeId)>::empty(), m@.last());
                assert(m@ =~= Seq::<(Vec<u8>, NodeId)>::empty().push(m@.last()));
                assert(assoc_at(m@, rest@[i as int]@) == Some(fresh@));
                lemma_arena_wf_update(tree.nodes(), current@, Some(Node::Transparent(m)));
            }
            let ghost precur = current@;
            tree.arena.entries.set(current.0, Some(Node::Transparent(m)));
            proof {
                assert(is_link(tree.nodes(), precur, pend[consumed], fresh@)) by {
                    assert(pend[consumed] == path_view(rest@)[i as int]);
                    assert(path_view(rest@)[i as int] == rest@[i as int]@);
                }
            }
            current = fresh;
            proof {
                let oldchain = chain;
                chain = chain.push(fresh@);
                consumed = consumed + 1;
                assert forall|l: int| 0 <= l < chain.len() - 1 implies is_link(
                    tree.nodes(),
                    #[trigger] chain[l],
                    pend[l + 1],
                    chain[l + 1],
                ) by {
                    if l < oldchain.len() - 1 {
                        assert(chain[l] == oldchain[l] && chain[l + 1] == oldchain[l + 1]);
                        assert(is_link(tree.nodes(), oldchain[l], pend[l + 1], oldchain[l + 1]));
                    } else {
                        assert(chain[l] == precur);
                    }
                }
            }
            i = i + 1;
        }
        // terminate the chain with the entry itself
        proof {
            lemma_arena_wf_update(tree.nodes(), current@, Some(Node::Opaque(entry)));
        }
        let ghost prefinal = tree.nodes();
        tree.arena.entries.set(current.0, Some(Node::Opaque(entry)));
        proof {
            assert(consumed == pend.len());
            assert forall|l: int| 0 <= l < chain.len() - 1 implies is_link(
                tree.nodes(),
                #[trigger] chain[l],
                pend[l + 1],
                chain[l + 1],
            ) by {
                assert(is_link(prefinal, chain[l], pend[l + 1], chain[l + 1]));
                assert(chain[l] != current@);
            }
            if chain.len() > 0 {
                assert(is_link(prefinal, node_id@, pend[0], chain[0]));
                assert(node_id@ != current@);
                assert(is_link(tree.nodes(), node_id@, pend[0], chain[0]));
            }
            lemma_walk_chain(tree.nodes(), node_id@, pend, 0, chain);
        }
        OccupiedEntry { node_id: current, tree }
    }
}


/// `n2` is `n1` with every child index shifted up by `off`.
pub open spec fn node_shifted(n1: Option<Node>, n2: Option<Node>, off: int) -> bool {
    match (n1, n2) {
        (None, None) => true,
        (Some(Node::Opaque(e1)), Some(Node::Opaque(e2))) => e1@ == e2@,
        (Some(Node::Transparent(m1)), Some(Node::Transparent(m2))) => {
            &&& m1@.len() == m2@.len()
            &&& forall|j: int| 0 <= j < m1@.len() ==> (#[trigger] m2@[j]).0@ == m1@[j].0@ && m2@[j].1@ == m1@[j].1@
                + off
        },
        _ => false,
    }
}

impl Tree {
    /// Copies `subtree`'s arena onto the end of this one, shifting every
    /// child index by the old length, and returns the new index of the
    /// subtree's root.
    fn append(&mut self, subtree: Tree) -> (id: NodeId)
        requires
            old(self).wf(),
            subtree.wf(),
            old(self).nodes().len() + subtree.nodes().len() <= usize::MAX,
        ensures
            final(self).wf(),
            final(self).root_id() == old(self).root_id(),
            final(self).nodes().len() == old(self).nodes().len() + subtree.nodes().len(),
            forall|i: int| 0 <= i < old(self).nodes().len() ==> final(self).nodes()[i] == old(self).nodes()[i],
            forall|i: int| 0 <= i < subtree.nodes().len() ==> node_shifted(
                subtree.nodes()[i],
                #[trigger] final(self).nodes()[old(self).nodes().len() + i],
                old(self).nodes().len() as int,
            ),
            id@ == subtree.root_id() + old(self).nodes().len(),
    {
        let offset = self.arena.entries.len();
        let ghost orig = *self;
        let ghost sub = subtree.nodes();
        let Tree { arena: mut sub_arena, root: sub_root } = subtree;
        let n = sub_arena.entries.len();
        let mut i: usize = 0;
        while i < n
            invariant
                i <= n,
                n == sub.len(),
                offset == orig.nodes().len(),
                offset + n <= usize::MAX,
                sub_arena.entries@.len() == n,
                forall|x: int| i <= x < n ==> sub_arena.entries@[x] == sub[x],
                arena_wf(sub),
                self.nodes().len() == offset + i,
                self.root_id() == orig.root_id(),
                forall|x: int| 0 <= x < offset ==> self.nodes()[x] == orig.nodes()[x],
                forall|x: int| 0 <= x < i ==> node_shifted(sub[x], #[trigger] self.nodes()[offset + x], offset as int),
                arena_wf(orig.nodes()),
            decreases n - i,
        {
            let mut slot: Option<Node> = None;
            sub_arena.entries.set_and_swap(i, &mut slot);
            let shifted: Option<Node> = match slot {
                None => None,
                Some(Node::Opaque(e)) => Some(Node::Opaque(e)),
                Some(Node::Transparent(mut m)) => {
                    let mlen = m.len();
                    let ghost morig = m@;
                    proof {
                        assert(sub[i as int] == Some(Node::Transparent(m)));
                        assert(match sub[i as int] {
                            Some(Node::Transparent(mm)) => forall|y: int| 0 <= y < mm@.len() ==> 0 <= (
                            #[trigger] mm@[y]).1@ < sub.len(),
                            _ => true,
                        });
                    }
                    let mut j: usize = 0;
                    while j < mlen
                        invariant
                            j <= mlen,
                            m@.len() == mlen,
                            mlen == morig.len(),
                            forall|y: int| j <= y < mlen ==> m@[y] == morig[y],
                            forall|y: int| 0 <= y < j ==> (#[trigger] m@[y]).0@ == morig[y].0@ && m@[y].1@
                                == morig[y].1@ + offset,
                            forall|y: int| 0 <= y < mlen ==> 0 <= (#[trigger] morig[y]).1@ < n,
                            offset + n <= usize::MAX,
                            self.nodes().len() == offset + i,
                            i < n,
                        decreases mlen - j,
                    {
                        let mut pair: (Vec<u8>, NodeId) = (Vec::new(), NodeId(0));
                        m.set_and_swap(j, &mut pair);
                        proof {
                            assert(morig[j as int].1@ < n);
                        }
                        let (name, cid) = pair;
                        let shifted_id = NodeId(cid.0 + offset);
                        m.set(j, (name, shifted_id));
                        j = j + 1;
                    }
                    Some(Node::Transparent(m))
                },
            };
            self.arena.entries.push(shifted);
            proof {
                assert(node_shifted(sub[i as int], self.nodes()[offset + i], offset as int));
                assert forall|x: int| 0 <= x < i + 1 implies node_shifted(
                    sub[x],
                    #[trigger] self.nodes()[offset + x],
                    offset as int,
                ) by {
                    if x < i {
                        assert(self.nodes()[offset + x] == self.nodes().drop_last()[offset + x]);
                    }
                }
                assert forall|x: int| 0 <= x < offset implies self.nodes()[x] == orig.nodes()[x] by {
                    assert(self.nodes()[x] == self.nodes().drop_last()[x]);
                }
            }
            i = i + 1;
        }
        proof {
            assert forall|x: int| 0 <= x < self.nodes().len() implies (match #[trigger] self.nodes()[x] {
                Some(Node::Transparent(m)) => forall|j: int| 0 <= j < m@.len() ==> 0 <= (#[trigger] m@[j]).1@
                    < self.nodes().len(),
                _ => true,
            }) by {
                if x < offset {
                    assert(self.nodes()[x] == orig.nodes()[x]);
                } else {
                    assert(node_shifted(sub[x - offset], self.nodes()[offset + (x - offset)], offset as int));
                    assert(node_shifted(sub[x - offset], self.nodes()[x], offset as int));
                    match sub[x - offset] {
                        Some(Node::Transparent(m1)) => {
                            assert(forall|j: int| 0 <= j < m1@.len() ==> 0 <= (#[trigger] m1@[j]).1@ < sub.len());
                        },
                        _ => {},
                    }
                }
            }
        }
        NodeId(sub_root.0 + offset)
    }
}

impl Blocked {
    /// Grafts the fetched `subtree` into the arena in place of the blocking
    /// node and resumes the walk with the still-unconsumed components.
    /// The outcome is exactly what the specification walk says of the
    /// resulting tree, from the formerly blocking slot.
    pub fn unblock(self, subtree: Tree) -> (r: Result<Entry, Blocked>)
        requires
            self.wf(),
            subtree.wf(),
            self.tree.nodes().len() + subtree.nodes().len() <= usize::MAX,
        ensures
            ({
                let t = (match r {
                    Ok(Entry::Occupied(oe)) => oe.tree,
                    Ok(Entry::Vacant(ve)) => ve.tree,
                    Err(b) => b.tree,
                });
                let pv = seq![self.immediate@] + path_view(self.rest@);
                &&& t.wf()
                &&& t.root_id() == self.tree.root_id()
                &&& t.nodes().len() == self.tree.nodes().len() + subtree.nodes().len()
                &&& forall|i: int| 0 <= i < self.tree.nodes().len() && i != self.blocking_id@ ==> t.nodes()[i]
                    == self.tree.nodes()[i]
                &&& node_shifted(
                    subtree.nodes()[subtree.root_id()],
                    t.nodes()[self.blocking_id@],
                    self.tree.nodes().len() as int,
                )
                &&& (match walk(t.nodes(), self.blocking_id@, pv, 0) {
                    WalkEnd::Occupied { node } => (match r {
                        Ok(Entry::Occupied(oe)) => oe.node_id@ == node && oe.wf(),
                        _ => false,
                    }),
                    WalkEnd::VacantNone { node, rest } => (match r {
                        Ok(Entry::Vacant(ve)) => ve.node_id@ == node && ve.immediate is None && path_view(ve.rest@)
                            == pv.skip(rest) && ve.wf(),
                        _ => false,
                    }),
                    WalkEnd::VacantKey { node, at } => (match r {
                        Ok(Entry::Vacant(ve)) => ve.node_id@ == node && (match ve.immediate {
                            Some(c) => c@ == pv[at],
                            None => false,
                        }) && path_view(ve.rest@) == pv.skip(at + 1) && ve.wf(),
                        _ => false,
                    }),
                    WalkEnd::Blocked { node, at } => (match r {
                        Err(b) => b.blocking_id@ == node && b.immediate@ == pv[at] && path_view(b.rest@) == pv.skip(
                            at + 1,
                        ) && b.wf(),
                        _ => false,
                    }),
                })
            }),
    {
        let Blocked { blocking_id, immediate, rest, mut tree } = self;
        let ghost sublen = subtree.nodes().len();
        let ghost oldlen = self.tree.nodes().len() as int;
        let new_root = tree.append(subtree);
        proof {
            assert(node_shifted(
                subtree.nodes()[subtree.root_id()],
                tree.nodes()[oldlen + subtree.root_id()],
                oldlen,
            ));
            assert(new_root@ == oldlen + subtree.root_id());
        }
        let ghost appended = tree.nodes();
        // move the grafted root into the blocking slot
        let mut slot: Option<Node> = None;
        tree.arena.entries.set_and_swap(new_root.0, &mut slot);
        proof {
            assert(slot == appended[new_root@]);
            assert(node_shifted(subtree.nodes()[subtree.root_id()], slot, oldlen));
        }
        proof {
            lemma_arena_wf_update(tree.nodes().update(new_root@, slot), new_root@, None);
            assert(tree.nodes().update(new_root@, slot).update(new_root@, None) =~= tree.nodes());
            match &slot {
                Some(Node::Transparent(m)) => {
                    assert(forall|j: int| 0 <= j < m@.len() ==> 0 <= (#[trigger] m@[j]).1@ < tree.nodes().len());
                },
                _ => {},
            }
            lemma_arena_wf_update(tree.nodes(), blocking_id@, slot);
        }
        let ghost slotg = slot;
        tree.arena.entries.set(blocking_id.0, slot);
        proof {
            assert(tree.nodes()[blocking_id@] == slotg);
            assert(node_shifted(subtree.nodes()[subtree.root_id()], tree.nodes()[blocking_id@], oldlen));
        }
        // resume the walk below the grafted node
        let mut path: Vec<Vec<u8>> = Vec::new();
        path.push(immediate);
        let mut k: usize = 0;
        let rlen = rest.len();
        let ghost restv = path_view(rest@);
        let mut rest_mut = rest;
        while k < rlen
            invariant
                k <= rlen,
                rlen == restv.len(),
                rest_mut@.len() == rlen - k,
                path@.len() == 1 + k,
                forall|j: int| 0 <= j < rest_mut@.len() ==> (#[trigger] rest_mut@[j])@ == restv[k + j],
                forall|j: int| 0 <= j < k ==> (#[trigger] path@[1 + j])@ == restv[j],
                path@[0]@ == self.immediate@,
            decreases rlen - k,
        {
            let c = rest_mut.remove(0);
            path.push(c);
            k = k + 1;
        }
        proof {
            let target = seq![self.immediate@] + path_view(self.rest@);
            assert forall|x: int| 0 <= x < path@.len() implies path_view(path@)[x] == target[x] by {
                if x == 0 {
                    assert(path@[0]@ == self.immediate@);
                } else {
                    assert(path@[1 + (x - 1)]@ == restv[x - 1]);
                    assert(restv[x - 1] == path_view(self.rest@)[x - 1]);
                }
            }
            assert(path_view(path@) =~= target);
        }
        tree.entry_from(blocking_id, path)
    }
}

impl Tree {
    /// Walks `path` from `start` and reports where it ends, exactly as the
    /// specification walk says.
    fn entry_from(self, start: NodeId, path: Vec<Vec<u8>>) -> (r: Result<Entry, Blocked>)
        requires
            self.wf(),
            0 <= start@ < self.nodes().len(),
        ensures
            ({
                let pv = path_view(path@);
                match walk(self.nodes(), start@, pv, 0) {
                    WalkEnd::Occupied { node } => (match r {
                        Ok(Entry::Occupied(oe)) => oe.node_id@ == node && oe.tree == self && oe.wf(),
                        _ => false,
                    }),
                    WalkEnd::VacantNone { node, rest } => (match r {
                        Ok(Entry::Vacant(ve)) => ve.node_id@ == node && ve.tree == self && ve.immediate is None
                            && path_view(ve.rest@) == pv.skip(rest) && ve.wf(),
                        _ => false,
                    }),
                    WalkEnd::VacantKey { node, at } => (match r {
                        Ok(Entry::Vacant(ve)) => ve.node_id@ == node && ve.tree == self && (match ve.immediate {
                            Some(c) => c@ == pv[at],
                            None => false,
                        }) && path_view(ve.rest@) == pv.skip(at + 1) && ve.wf(),
                        _ => false,
                    }),
                    WalkEnd::Blocked { node, at } => (match r {
                        Err(b) => b.blocking_id@ == node && b.tree == self && b.immediate@ == pv[at] && path_view(
                            b.rest@,
                        ) == pv.skip(at + 1) && b.wf(),
                        _ => false,
                    }),
                }
            }),
    {
        let ghost pv = path_view(path@);
        let mut cur: NodeId = start;
        let mut k: usize = 0;
        loop
            invariant
                self.wf(),
                k <= path@.len(),
                pv == path_view(path@),
                0 <= cur@ < self.nodes().len(),
                walk(self.nodes(), start@, pv, 0) == walk(self.nodes(), cur@, pv, k as int),
            decreases path@.len() - k,
        {
            if k == path.len() {
                return Ok(Entry::Occupied(OccupiedEntry { node_id: cur, tree: self }));
            }
            let component = &path[k];
            proof {
                assert(pv[k as int] == component@);
            }
            match &self.arena.entries[cur.0] {
                None => {
                    let rest = copy_path_suffix(&path, k + 1);
                    return Ok(Entry::Vacant(VacantEntry {
                        node_id: cur,
                        immediate: None,
                        rest,
                        tree: self,
                    }));
                },
                Some(Node::Opaque(_)) => {
                    let immediate = clone_bytes(component);
                    let rest = copy_path_suffix(&path, k + 1);
                    return Err(Blocked { blocking_id: cur, immediate, rest, tree: self });
                },
                Some(Node::Transparent(m)) => {
                    match map_get(m, component) {
                        Some(next) => {
                            proof {
                                lemma_assoc_some(m@, component@);
                                let j = choose|j: int|
                                    0 <= j < m@.len() && (#[trigger] m@[j]).0@ == component@ && Some(m@[j].1@)
                                        == assoc_at(m@, component@);
                                assert(0 <= m@[j].1@ < self.nodes().len());
                                assert(next@ == m@[j].1@);
                                assert(walk(self.nodes(), cur@, pv, k as int) == walk(
                                    self.nodes(),
                                    next@,
                                    pv,
                                    k + 1,
                                ));
                            }
                            cur = next;
                            k = k + 1;
                        },
                        None => {
                            let immediate = Some(clone_bytes(component));
                            let rest = copy_path_suffix(&path, k + 1);
                            return Ok(Entry::Vacant(VacantEntry {
                                node_id: cur,
                                immediate,
                                rest,
                                tree: self,
                            }));
                        },
                    }
                },
            }
        }
    }
}


/// How many slots of the arena still hold a node.
pub open spec fn count_some(a: Seq<Option<Node>>) -> nat
    decreases a.len(),
{
    if a.len() == 0 {
        0
    } else {
        count_some(a.drop_last()) + (if a.last() is Some {
            1nat
        } else {
            0nat
        })
    }
}

/// Emptying an occupied slot lowers the count by one.
proof fn lemma_count_some_take(a: Seq<Option<Node>>, i: int)
    requires
        0 <= i < a.len(),
        a[i] is Some,
    ensures
        count_some(a.update(i, None)) == count_some(a) - 1,
    decreases a.len(),
{
    let a2 = a.update(i, None);
    if i == a.len() - 1 {
        assert(a2.drop_last() =~= a.drop_last());
        assert(a2.last() is None);
    } else {
        assert(a2.drop_last() =~= a.drop_last().update(i, None));
        assert(a2.last() == a.last());
        lemma_count_some_take(a.drop_last(), i);
    }
}

/// The stored object a subtree entry list marshals to: the payload as its
/// blob, the entries' digests as its references.
pub open spec fn subtree_object_view(es: Seq<(Seq<u8>, SubtreeEntryView)>) -> crate::canonical::ObjectView {
    crate::canonical::ObjectView {
        blob: crate::object::subtree_payload_spec(es),
        refs: crate::object::subtree_refs_spec(es),
    }
}

/// What marshalling the slot at `id` yields, defined recursively with
/// fuel: an unexpanded entry stands for itself; a directory yields a
/// subtree reference whose digest is the content address of the subtree
/// object built from its names and its children's marshalled entries, each
/// child processed in turn into a sorted entry list, an entry under a
/// repeated name replacing the earlier one. `None` on an empty slot, an
/// index out of range, or fuel too small for the depth.
pub open spec fn spec_marshal(a: Seq<Option<Node>>, id: int, fuel: nat) -> Option<SubtreeEntryView>
    decreases fuel, 0int, 0int,
{
    if !(0 <= id < a.len()) {
        None
    } else {
        match a[id] {
            None => None,
            Some(Node::Opaque(e)) => Some(e@),
            Some(Node::Transparent(m)) => {
                if fuel == 0 {
                    None
                } else {
                    match spec_marshal_entries(a, m@, (fuel - 1) as nat) {
                        Some(es) => Some(
                            SubtreeEntryView::Subtree(
                                crate::store::object_digest(subtree_object_view(es)),
                            ),
                        ),
                        None => None,
                    }
                }
            },
        }
    }
}

/// The sorted entry list a directory's children marshal to, processed in
/// the directory's own order.
pub open spec fn spec_marshal_entries(
    a: Seq<Option<Node>>,
    m: Seq<(Vec<u8>, NodeId)>,
    fuel: nat,
) -> Option<Seq<(Seq<u8>, SubtreeEntryView)>>
    decreases fuel, 1int, m.len(),
{
    if m.len() == 0 {
        Some(Seq::empty())
    } else {
        match spec_marshal_entries(a, m.drop_last(), fuel) {
            None => None,
            Some(es) => match spec_marshal(a, m.last().1@, fuel) {
                None => None,
                Some(e) => Some(crate::object::sorted_insert_spec(es, m.last().0@, e)),
            },
        }
    }
}

/// Marshalling is stable under reviving emptied slots and adding fuel: a
/// result over a partly emptied arena holds over any arena that agrees on
/// the occupied slots, at any fuel at least as large.
pub proof fn lemma_spec_marshal_mono(
    a1: Seq<Option<Node>>,
    a2: Seq<Option<Node>>,
    id: int,
    f1: nat,
    f2: nat,
)
    requires
        a1.len() == a2.len(),
        forall|x: int| 0 <= x < a1.len() && (#[trigger] a1[x]) is Some ==> a2[x] == a1[x],
        f1 <= f2,
        spec_marshal(a1, id, f1) is Some,
    ensures
        spec_marshal(a2, id, f2) == spec_marshal(a1, id, f1),
    decreases f1, 0int, 0int,
{
    match a1[id] {
        Some(Node::Opaque(_)) => {
            assert(a2[id] == a1[id]);
        },
        Some(Node::Transparent(m)) => {
            assert(a2[id] == a1[id]);
            lemma_spec_marshal_entries_mono(a1, a2, m@, (f1 - 1) as nat, (f2 - 1) as nat);
        },
        None => {},
    }
}

/// The entry-list form of [`lemma_spec_marshal_mono`].
pub proof fn lemma_spec_marshal_entries_mono(
    a1: Seq<Option<Node>>,
    a2: Seq<Option<Node>>,
    m: Seq<(Vec<u8>, NodeId)>,
    f1: nat,
    f2: nat,
)
    requires
        a1.len() == a2.len(),
        forall|x: int| 0 <= x < a1.len() && (#[trigger] a1[x]) is Some ==> a2[x] == a1[x],
        f1 <= f2,
        spec_marshal_entries(a1, m, f1) is Some,
    ensures
        spec_marshal_entries(a2, m, f2) == spec_marshal_entries(a1, m, f1),
    decreases f1, 1int, m.len(),
{
    if m.len() > 0 {
        lemma_spec_marshal_entries_mono(a1, a2, m.drop_last(), f1, f2);
        lemma_spec_marshal_mono(a1, a2, m.last().1@, f1, f2);
    }
}

/// Two marshalling results for the same slot agree, whatever fuel produced
/// each: the root digest is a function of the arena's content alone, so
/// equal trees marshal to equal digests on any host and any run.
pub proof fn lemma_spec_marshal_deterministic(a: Seq<Option<Node>>, id: int, f1: nat, f2: nat)
    requires
        spec_marshal(a, id, f1) is Some,
        spec_marshal(a, id, f2) is Some,
    ensures
        spec_marshal(a, id, f1) == spec_marshal(a, id, f2),
{
    if f1 <= f2 {
        lemma_spec_marshal_mono(a, a, id, f1, f2);
    } else {
        lemma_spec_marshal_mono(a, a, id, f2, f1);
    }
}

/// A directory whose children are all unexpanded entries, held in distinct
/// slots other than the directory's own, under distinct names: the shape
/// every directory of a freshly built tree has one level above its leaves.
pub open spec fn flat_directory(a: Seq<Option<Node>>, id: int) -> bool {
    match a[id] {
        Some(Node::Transparent(m)) => {
            &&& forall|j: int| 0 <= j < m@.len() ==> (match a[(#[trigger] m@[j]).1@] {
                Some(Node::Opaque(_)) => true,
                _ => false,
            })
            &&& forall|j: int, k: int| 0 <= j < k < m@.len() ==> m@[j].1@ != m@[k].1@
            &&& forall|j: int, k: int| 0 <= j < k < m@.len() ==> m@[j].0@ != m@[k].0@
            &&& forall|j: int| 0 <= j < m@.len() ==> (#[trigger] m@[j]).1@ != id
        },
        _ => false,
    }
}

/// What the marshaller guarantees of the entry it returns for a directory:
/// its digest is the content address of the subtree object built, per
/// [`spec_marshal_entries`], from the directory's names and its children's
/// recursively marshalled entries — and that object's canonical encoding
/// now sits in the store under that address, with its handle registered and
/// a copy resident.
pub open spec fn marshalled_directory(
    pre_arena: Seq<Option<Node>>,
    id: int,
    post: Store,
    e: SubtreeEntryView,
) -> bool {
    match pre_arena[id] {
        Some(Node::Transparent(m)) => exists|fuel: nat|
            (match #[trigger] spec_marshal_entries(pre_arena, m@, fuel) {
                Some(es) => {
                    let ov = subtree_object_view(es);
                    let dd = crate::store::object_digest(ov);
                    &&& crate::object::subtree_wf(es)
                    &&& e == SubtreeEntryView::Subtree(dd)
                    &&& post.handle_registered(dd)
                    &&& post.object_at(dd) is Some
                    &&& post.db_at(dd) == Some(crate::canonical::encode_object_spec(ov))
                },
                None => false,
            }),
        _ => false,
    }
}

impl Tree {
    /// Marshals the subtree rooted at `id` into the store, depth first:
    /// an unexpanded node stands for itself; a directory's children are
    /// marshalled, gathered into a subtree object, and installed. The node
    /// is taken out of the arena as it is processed. Fails only when the
    /// walk reaches a slot that was already emptied or never filled.
    #[verifier::rlimit(100)]
    #[verifier::spinoff_prover]
    fn marshal_inner(arena: &mut Arena, id: NodeId, store: &mut Store) -> (r: Result<SubtreeEntry, Error>)
        requires
            arena_wf(old(arena).entries@),
            0 <= id@ < old(arena).entries@.len(),
        ensures
            arena_wf(final(arena).entries@),
            final(arena).entries@.len() == old(arena).entries@.len(),
            count_some(final(arena).entries@) <= count_some(old(arena).entries@),
            forall|x: Seq<u8>| final(store).branch_at(x) == old(store).branch_at(x),
            crate::store::content_addressed(*old(store)) ==> crate::store::content_addressed(*final(store)),
            forall|x: int| 0 <= x < final(arena).entries@.len() && (#[trigger] final(arena).entries@[x]) is Some
                ==> final(arena).entries@[x] == old(arena).entries@[x],
            old(arena).entries@[id@] matches Some(Node::Opaque(_)) ==> r is Ok && final(arena).entries@ == old(
                arena,
            ).entries@.update(id@, None::<Node>),
            flat_directory(old(arena).entries@, id@) ==> r is Ok,
            match r {
                Ok(e) => {
                    &&& e@.wf()
                    &&& exists|fuel: nat| #[trigger] spec_marshal(old(arena).entries@, id@, fuel) == Some(e@)
                    &&& (match old(arena).entries@[id@] {
                        Some(Node::Opaque(e0)) => e@ == e0@ && same_state(*old(store), *final(store)),
                        Some(Node::Transparent(_)) => marshalled_directory(
                            old(arena).entries@,
                            id@,
                            *final(store),
                            e@,
                        ),
                        None => false,
                    })
                },
                Err(e) => e == Error::MalformedObject,
            },
        decreases count_some(old(arena).entries@),
    {
        let ghost entry_count = count_some(arena.entries@);
        let mut slot: Option<Node> = None;
        arena.entries.set_and_swap(id.0, &mut slot);
        proof {
            if slot is Some {
                lemma_count_some_take(old(arena).entries@, id@);
            } else {
                assert(arena.entries@ =~= old(arena).entries@);
            }
            lemma_arena_wf_update(old(arena).entries@, id@, None);
        }
        match slot {
            None => Err(Error::MalformedObject),
            Some(Node::Opaque(entry)) => {
                entry.confirm_wf();
                Ok(entry)
            },
            Some(Node::Transparent(m)) => {
                let ghost pre = old(arena).entries@;
                proof {
                    assert(pre[id@] == Some(Node::Transparent(m)));
                    assert(match pre[id@] {
                        Some(Node::Transparent(mm)) => forall|j: int| 0 <= j < mm@.len() ==> 0 <= (
                        #[trigger] mm@[j]).1@ < pre.len(),
                        _ => true,
                    });
                }
                let mut sub = SubtreeObject::new();
                proof {
                    if flat_directory(pre, id@) {
                        assert forall|j: int| 0 <= j < m@.len() implies arena.entries@[(#[trigger] m@[j]).1@]
                            == pre[m@[j].1@] by {
                            assert(m@[j].1@ != id@);
                        }
                    }
                    assert(m@.take(0) =~= Seq::<(Vec<u8>, NodeId)>::empty());
                    assert(spec_marshal_entries(pre, m@.take(0), 0) == Some(sub@)) by {
                        assert(sub@ =~= Seq::<(Seq<u8>, SubtreeEntryView)>::empty());
                    }
                }
                let mut i: usize = 0;
                while i < m.len()
                    invariant
                        i <= m@.len(),
                        pre == old(arena).entries@,
                        pre[id@] == Some(Node::Transparent(m)),
                        0 <= id@ < pre.len(),
                        arena_wf(arena.entries@),
                        arena.entries@.len() == pre.len(),
                        count_some(arena.entries@) < entry_count,
                        entry_count == count_some(pre),
                        forall|j: int| 0 <= j < m@.len() ==> 0 <= (#[trigger] m@[j]).1@ < pre.len(),
                        sub.wf(),
                        sub@.len() <= i,
                        forall|x: Seq<u8>| store.branch_at(x) == old(store).branch_at(x),
                        crate::store::content_addressed(*old(store)) ==> crate::store::content_addressed(*store),
                        forall|x: int| 0 <= x < pre.len() && (#[trigger] arena.entries@[x]) is Some
                            ==> arena.entries@[x] == pre[x],
                        exists|fuel: nat| #[trigger] spec_marshal_entries(pre, m@.take(i as int), fuel) == Some(
                            sub@,
                        ),
                        flat_directory(pre, id@) ==> forall|j: int| i <= j < m@.len()
                            ==> arena.entries@[(#[trigger] m@[j]).1@] == pre[m@[j].1@],
                    decreases m@.len() - i,
                {
                    let child = m[i].1;
                    let ghost at_call = arena.entries@;
                    proof {
                        if flat_directory(pre, id@) {
                            assert(arena.entries@[m@[i as int].1@] == pre[m@[i as int].1@]);
                            assert(pre[m@[i as int].1@] matches Some(Node::Opaque(_)));
                        }
                    }
                    let entry = match Self::marshal_inner(arena, child, store) {
                        Ok(e) => e,
                        Err(e) => {
                            proof {
                                if flat_directory(pre, id@) {
                                    assert(false);
                                }
                            }
                            return Err(e);
                        },
                    };
                    proof {
                        if flat_directory(pre, id@) {
                            // the child call touched exactly the child's slot
                            assert(arena.entries@ == at_call.update(child@, None::<Node>));
                            assert forall|j: int| i + 1 <= j < m@.len() implies arena.entries@[(
                            #[trigger] m@[j]).1@] == pre[m@[j].1@] by {
                                assert(m@[j].1@ != m@[i as int].1@);
                                assert(arena.entries@[m@[j].1@] == at_call[m@[j].1@]);
                            }
                        }
                    }
                    let name = clone_bytes(&m[i].0);
                    let nl = name.len();
                    proof {
                        assert(name@.len() == nl);
                        assert(sub@.len() < u64::MAX) by {
                            assert(sub@.len() <= i);
                        }
                    }
                    let ghost sub_pre = sub@;
                    sub.insert(name, entry);
                    proof {
                        // the child's marshalled entry, lifted back to the
                        // untouched arena and joined with the list so far at
                        // a common fuel
                        let fc = choose|fc: nat| #[trigger] spec_marshal(at_call, child@, fc) == Some(entry@);
                        lemma_spec_marshal_mono(at_call, pre, child@, fc, fc);
                        let fi = choose|fi: nat| #[trigger] spec_marshal_entries(pre, m@.take(i as int), fi)
                            == Some(sub_pre);
                        let fm = if fi >= fc { fi } else { fc };
                        lemma_spec_marshal_entries_mono(pre, pre, m@.take(i as int), fi, fm);
                        lemma_spec_marshal_mono(pre, pre, child@, fc, fm);
                        assert(m@.take(i + 1).drop_last() =~= m@.take(i as int));
                        assert(m@.take(i + 1).last() == m@[i as int]);
                        assert(m@[i as int].1@ == child@);
                        assert(spec_marshal_entries(pre, m@.take(i + 1), fm) == Some(
                            crate::object::sorted_insert_spec(sub_pre, m@[i as int].0@, entry@),
                        ));
                        assert(sub@ == crate::object::sorted_insert_spec(sub_pre, name@, entry@));
                        assert(name@ == m@[i as int].0@);
                    }
                    i = i + 1;
                }
                let obj = sub.to_object();
                let h = store.install_object(obj);
                let d = h.digest();
                proof {
                    use_type_invariant(&d);
                    d.lemma_full_width();
                    let es = sub@;
                    let ov = subtree_object_view(es);
                    assert(obj@ =~= ov);
                    assert(crate::object::subtree_wf(es));
                    assert(d@ == crate::store::object_digest(ov));
                    assert(store.handle_registered(d@));
                    assert(store.object_at(d@) is Some);
                    assert(store.db_at(d@) == Some(crate::canonical::encode_object_spec(ov)));
                    let ev = SubtreeEntryView::Subtree(d@);
                    let ff = choose|ff: nat| #[trigger] spec_marshal_entries(pre, m@.take(m@.len() as int), ff)
                        == Some(es);
                    assert(m@.take(m@.len() as int) =~= m@);
                    assert(spec_marshal_entries(pre, m@, ff) == Some(es));
                    assert(marshalled_directory(pre, id@, *store, ev));
                    assert(spec_marshal(pre, id@, ff + 1) == Some(ev));
                }
                Ok(SubtreeEntry::Subtree(d))
            },
        }
    }

    /// Marshals the whole tree into the store and returns the root digest:
    /// the digest of an unexpanded root itself, or the content address of
    /// the root directory's installed subtree object, which the store can
    /// then resolve and load.
    pub fn marshal(self, store: &mut Store) -> (r: Result<Sha3Digest, Error>)
        requires
            self.wf(),
        ensures
            forall|x: Seq<u8>| final(store).branch_at(x) == old(store).branch_at(x),
            crate::store::content_addressed(*old(store)) ==> crate::store::content_addressed(*final(store)),
            self.nodes()[self.root_id()] matches Some(Node::Opaque(_)) ==> r is Ok,
            flat_directory(self.nodes(), self.root_id()) ==> r is Ok,
            match r {
                Ok(d) => exists|fuel: nat|
                    ((#[trigger] spec_marshal(self.nodes(), self.root_id(), fuel)) matches Some(ev) && ev.hash()
                        == d@) && (match self.nodes()[self.root_id()] {
                    Some(Node::Opaque(e)) => d@ == e@.hash() && same_state(*old(store), *final(store)),
                    Some(Node::Transparent(_)) => marshalled_directory(
                        self.nodes(),
                        self.root_id(),
                        *final(store),
                        SubtreeEntryView::Subtree(d@),
                    ) && store_has(*final(store), d@),
                    None => false,
                }),
                Err(e) => e == Error::MalformedObject,
            },
    {
        let Tree { mut arena, root } = self;
        match Self::marshal_inner(&mut arena, root, store) {
            Ok(e) => {
                let d = e.hash();
                proof {
                    let fuel = choose|fuel: nat|
                        #[trigger] spec_marshal(self.nodes(), self.root_id(), fuel) == Some(e@);
                    assert(spec_marshal(self.nodes(), self.root_id(), fuel) matches Some(ev) && ev.hash() == d@);
                    match self.nodes()[self.root_id()] {
                        Some(Node::Transparent(_)) => {
                            assert(e@ matches SubtreeEntryView::Subtree(_));
                            assert(e@ == SubtreeEntryView::Subtree(d@));
                            assert(marshalled_directory(
                                self.nodes(),
                                self.root_id(),
                                *store,
                                SubtreeEntryView::Subtree(d@),
                            ));
                        },
                        _ => {},
                    }
                }
                Ok(d)
            },
            Err(e) => Err(e),
        }
    }
}


/// Editing at a vacancy moves no existing entry: a walk that ended on an
/// unexpanded entry ends on the same slot, unchanged, after the arena grows
/// and one slot is filled from empty or a directory merely keeps every name
/// it had — exactly how `VacantEntry::insert` changes its tree. With
/// `insert`'s own contract this is the preservation half of building a tree
/// from a list of paths: entries already placed stay where they are.
pub proof fn lemma_walk_preserved(
    a1: Seq<Option<Node>>,
    a2: Seq<Option<Node>>,
    cur: int,
    path: Seq<Seq<u8>>,
    k: int,
    t: int,
    v: int,
)
    requires
        arena_wf(a1),
        0 <= cur < a1.len(),
        0 <= k <= path.len(),
        a2.len() >= a1.len(),
        forall|x: int| 0 <= x < a1.len() && x != v ==> a2[x] == a1[x],
        a1[v] is None || (match (a1[v], a2[v]) {
            (Some(Node::Transparent(m1)), Some(Node::Transparent(m2))) => forall|key: Seq<u8>|
                assoc_at(m1@, key) is Some ==> #[trigger] assoc_at(m2@, key) == assoc_at(m1@, key),
            _ => false,
        }),
        walk(a1, cur, path, k) == (WalkEnd::Occupied { node: t }),
        a1[t] matches Some(Node::Opaque(_)),
    ensures
        walk(a2, cur, path, k) == (WalkEnd::Occupied { node: t }),
        a2[t] == a1[t],
    decreases path.len() - k,
{
    if k >= path.len() {
        assert(t == cur);
        assert(t != v) by {
            if t == v {
                assert(!(a1[v] is None));
            }
        }
        assert(a2[t] == a1[t]);
    } else {
        match a1[cur] {
            Some(Node::Transparent(m1)) => {
                match assoc_at(m1@, path[k]) {
                    Some(id) => {
                        proof_child_in_range(a1, cur, m1@, path[k], id);
                        if cur == v {
                            assert(assoc_at(m1@, path[k]) is Some);
                            match (a1[v], a2[v]) {
                                (Some(Node::Transparent(mm1)), Some(Node::Transparent(mm2))) => {
                                    assert(assoc_at(mm2@, path[k]) == assoc_at(mm1@, path[k]));
                                },
                                _ => {
                                    assert(false);
                                },
                            }
                            assert(walk(a2, cur, path, k) == walk(a2, id, path, k + 1));
                        } else {
                            assert(a2[cur] == a1[cur]);
                            assert(walk(a2, cur, path, k) == walk(a2, id, path, k + 1));
                        }
                        lemma_walk_preserved(a1, a2, id, path, k + 1, t, v);
                    },
                    None => {
                        assert(false);
                    },
                }
            },
            _ => {
                assert(false);
            },
        }
    }
}

/// A directory's child index found by lookup is inside the arena.
proof fn proof_child_in_range(a: Seq<Option<Node>>, cur: int, m: Seq<(Vec<u8>, NodeId)>, key: Seq<u8>, id: int)
    requires
        arena_wf(a),
        0 <= cur < a.len(),
        (match a[cur] {
            Some(Node::Transparent(mm)) => mm@ == m,
            _ => false,
        }),
        assoc_at(m, key) == Some(id),
    ensures
        0 <= id < a.len(),
{
    lemma_assoc_some(m, key);
    let j = choose|j: int| 0 <= j < m.len() && (#[trigger] m[j]).0@ == key && Some(m[j].1@) == assoc_at(m, key);
    assert(match a[cur] {
        Some(Node::Transparent(mm)) => forall|y: int| 0 <= y < mm@.len() ==> 0 <= (#[trigger] mm@[y]).1@ < a.len(),
        _ => true,
    });
    assert(0 <= m[j].1@ < a.len());
}

/// Extending an occupied walk by one linked component lands on the child.
proof fn lemma_walk_extend(a: Seq<Option<Node>>, start: int, path: Seq<Seq<u8>>, k: int, c: Seq<u8>, t: int, d: int)
    requires
        0 <= k <= path.len(),
        walk(a, start, path, k) == (WalkEnd::Occupied { node: t }),
        is_link(a, t, c, d),
    ensures
        walk(a, start, path.push(c), k) == (WalkEnd::Occupied { node: d }),
    decreases path.len() - k,
{
    let p2 = path.push(c);
    if k == path.len() {
        assert(t == start);
        assert(p2[k] == c);
        assert(walk(a, start, p2, k) == walk(a, d, p2, k + 1));
    } else {
        assert(p2[k] == path[k]);
        match a[start] {
            Some(Node::Transparent(m)) => {
                match assoc_at(m@, path[k]) {
                    Some(next) => {
                        lemma_walk_extend(a, next, path, k + 1, c, t, d);
                    },
                    None => {
                        assert(false);
                    },
                }
            },
            _ => {
                assert(false);
            },
        }
    }
}

/// A depth-first pass over a tree, yielding each unexpanded entry with the
/// path that leads to it. Every yielded pair really is an entry of the
/// tree the pass started from.
pub struct IntoIter {
    stack: Vec<(Vec<Vec<u8>>, NodeId)>,
    arena: Arena,
    init: Ghost<Seq<Option<Node>>>,
    start_root: Ghost<int>,
}

impl IntoIter {
    /// The snapshot of the arena the pass started from.
    pub closed spec fn initial(self) -> Seq<Option<Node>> {
        self.init@
    }

    /// The root slot the pass started from.
    pub closed spec fn initial_root(self) -> int {
        self.start_root@
    }

    /// How many slots of the pass's arena still hold a node: an upper bound
    /// on the yields that can still come.
    pub closed spec fn live(self) -> nat {
        count_some(self.arena.entries@)
    }

    /// Nothing is left on the pass's stack.
    pub closed spec fn done(self) -> bool {
        self.stack@.len() == 0
    }

    /// The slots the pass still has to visit, in stack order.
    pub closed spec fn pending_ids(self) -> Seq<int> {
        self.stack@.map_values(|e: (Vec<Vec<u8>>, NodeId)| e.1@)
    }

    /// The slot has been taken out of the pass's arena.
    pub closed spec fn slot_taken(self, id: int) -> bool {
        0 <= id < self.arena.entries@.len() && self.arena.entries@[id] is None
    }

    /// The pass is consistent: every stacked slot is where its path leads
    /// in the initial arena, and the remaining arena agrees with the
    /// initial one wherever it is still occupied.
    pub closed spec fn wf(self) -> bool {
        &&& arena_wf(self.init@)
        &&& self.arena.entries@.len() == self.init@.len()
        &&& forall|i: int| 0 <= i < self.arena.entries@.len() && (#[trigger] self.arena.entries@[i]) is Some
            ==> self.arena.entries@[i] == self.init@[i]
        &&& forall|j: int| 0 <= j < self.stack@.len() ==> {
            let p = (#[trigger] self.stack@[j]).0;
            let id = self.stack@[j].1@;
            0 <= id < self.init@.len() && walk(self.init@, self.start_root@, path_view(p@), 0)
                == (WalkEnd::Occupied { node: id })
        }
    }

    /// The next unexpanded entry in depth-first order, with its path, or
    /// nothing once the pass is exhausted.
    pub fn next(&mut self) -> (r: Option<(Vec<Vec<u8>>, SubtreeEntry)>)
        requires
            old(self).wf(),
        ensures
            final(self).wf(),
            final(self).initial() == old(self).initial(),
            final(self).initial_root() == old(self).initial_root(),
            // the pass ends only when no work is left and everything it was
            // asked to visit has really been taken, and every yield consumes
            // a live slot, so at most `live()` yields can follow
            r is None ==> final(self).done() && (forall|j: int| 0 <= j < old(self).pending_ids().len()
                ==> final(self).slot_taken(#[trigger] old(self).pending_ids()[j])),
            r is Some ==> final(self).live() < old(self).live(),
            match r {
                Some((p, e)) => match walk(old(self).initial(), old(self).initial_root(), path_view(p@), 0) {
                    WalkEnd::Occupied { node } => (match old(self).initial()[node] {
                        Some(Node::Opaque(e0)) => e@ == e0@,
                        _ => false,
                    }),
                    _ => false,
                },
                None => true,
            },
    {
        loop
            invariant
                self.wf(),
                self.init == old(self).init,
                self.start_root == old(self).start_root,
                self.live() <= old(self).live(),
                self.arena.entries@.len() == old(self).arena.entries@.len(),
                forall|j: int| 0 <= j < old(self).pending_ids().len() ==> self.slot_taken(
                    #[trigger] old(self).pending_ids()[j],
                ) || exists|k: int| 0 <= k < self.stack@.len() && self.stack@[k].1@ == old(self).pending_ids()[j],
            decreases count_some(self.arena.entries@), self.stack@.len(),
        {
            let ghost spre = self.stack@;
            let top = match self.stack.pop() {
                None => {
                    return None;
                },
                Some(t) => t,
            };
            let (path, id) = top;
            let ghost pre = self.arena.entries@;
            let mut slot: Option<Node> = None;
            proof {
                if pre[id@] is Some {
                    lemma_count_some_take(pre, id@);
                }
                lemma_arena_wf_update(pre, id@, None);
            }
            self.arena.entries.set_and_swap(id.0, &mut slot);
            proof {
                if pre[id@] is None {
                    assert(self.arena.entries@ =~= pre);
                }
                // every slot the pass was asked to visit is either taken by
                // now or still waits on the stack
                assert forall|j: int| 0 <= j < old(self).pending_ids().len() implies self.slot_taken(
                    #[trigger] old(self).pending_ids()[j],
                ) || exists|k: int| 0 <= k < self.stack@.len() && self.stack@[k].1@ == old(self).pending_ids()[j] by {
                    let tid = old(self).pending_ids()[j];
                    if !(exists|k: int| 0 <= k < spre.len() && spre[k].1@ == tid) {
                        assert(0 <= tid < pre.len() && pre[tid] is None);
                        assert(self.arena.entries@[tid] is None);
                    } else {
                        let k = choose|k: int| 0 <= k < spre.len() && spre[k].1@ == tid;
                        if k < spre.len() - 1 {
                            assert(self.stack@[k].1@ == tid);
                        } else {
                            assert(tid == id@);
                            assert(self.arena.entries@[tid] is None);
                        }
                    }
                }
            }
            match slot {
                None => {
                },
                Some(Node::Opaque(entry)) => {
                    return Some((path, entry));
                },
                Some(Node::Transparent(m)) => {
                    proof {
                        assert(self.init@[id@] == Some(Node::Transparent(m)));
                        assert(match self.init@[id@] {
                            Some(Node::Transparent(mm)) => forall|j: int| 0 <= j < mm@.len() ==> 0 <= (
                            #[trigger] mm@[j]).1@ < self.init@.len(),
                            _ => true,
                        });
                    }
                    let mut i: usize = 0;
                    while i < m.len()
                        invariant
                            i <= m@.len(),
                            self.wf(),
                            self.init == old(self).init,
                            self.start_root == old(self).start_root,
                            self.arena.entries@.len() == old(self).arena.entries@.len(),
                            forall|j: int| 0 <= j < old(self).pending_ids().len() ==> self.slot_taken(
                                #[trigger] old(self).pending_ids()[j],
                            ) || exists|k: int| 0 <= k < self.stack@.len() && self.stack@[k].1@ == old(
                                self,
                            ).pending_ids()[j],
                            count_some(self.arena.entries@) < count_some(pre),
                            0 <= id@ < self.init@.len(),
                            self.init@[id@] == Some(Node::Transparent(m)),
                            walk(self.init@, self.start_root@, path_view(path@), 0) == (WalkEnd::Occupied {
                                node: id@,
                            }),
                        decreases m@.len() - i,
                    {
                        let name = &m[i].0;
                        let cid = match map_get(&m, name) {
                            Some(v) => v,
                            None => {
                                proof {
                                    lemma_assoc_first_or_later(m@, i as int);
                                }
                                i = i + 1;
                                continue;
                            },
                        };
                        proof {
                            lemma_assoc_some(m@, name@);
                            let j = choose|j: int|
                                0 <= j < m@.len() && (#[trigger] m@[j]).0@ == name@ && Some(m@[j].1@) == assoc_at(
                                    m@,
                                    name@,
                                );
                            assert(match self.init@[id@] {
                                Some(Node::Transparent(mm)) => forall|y: int| 0 <= y < mm@.len() ==> 0 <= (
                                #[trigger] mm@[y]).1@ < self.init@.len(),
                                _ => true,
                            });
                            assert(Some(m@[j].1@) == Some(cid@));
                            assert(m@[j].1@ == cid@);
                            assert(0 <= (m@[j]).1@ < self.init@.len()) by {
                                assert(match self.init@[id@] {
                                    Some(Node::Transparent(mm)) => forall|y: int| 0 <= y < mm@.len() ==> 0 <= (
                                    #[trigger] mm@[y]).1@ < self.init@.len(),
                                    _ => true,
                                });
                                assert(0 <= j < m@.len());
                            }
                            assert(0 <= cid@ < self.init@.len());
                        }
                        let mut cpath: Vec<Vec<u8>> = Vec::new();
                        let mut x: usize = 0;
                        while x < path.len()
                            invariant
                                x <= path@.len(),
                                cpath@.len() == x,
                                forall|y: int| 0 <= y < x ==> (#[trigger] cpath@[y])@ == path@[y]@,
                            decreases path@.len() - x,
                        {
                            cpath.push(clone_bytes(&path[x]));
                            x = x + 1;
                        }
                        cpath.push(clone_bytes(name));
                        proof {
                            let pv = path_view(path@);
                            assert(is_link(self.init@, id@, name@, cid@));
                            assert(path_view(cpath@) =~= pv.push(name@));
                            lemma_walk_extend(self.init@, self.start_root@, pv, 0, name@, id@, cid@);
                        }
                        let ghost sbefore = self.stack@;
                        self.stack.push((cpath, cid));
                        proof {
                            assert forall|j: int| 0 <= j < old(self).pending_ids().len() implies self.slot_taken(
                                #[trigger] old(self).pending_ids()[j],
                            ) || exists|k: int|
                                0 <= k < self.stack@.len() && self.stack@[k].1@ == old(self).pending_ids()[j] by {
                                let tid = old(self).pending_ids()[j];
                                if exists|k: int| 0 <= k < sbefore.len() && sbefore[k].1@ == tid {
                                    let k = choose|k: int| 0 <= k < sbefore.len() && sbefore[k].1@ == tid;
                                    assert(self.stack@[k].1@ == tid);
                                }
                            }
                        }
                        i = i + 1;
                    }
                },
            }
        }
    }
}

/// The entry at `j` is found by lookup, or some earlier entry with the
/// same name is: either way the name links to a valid slot.
proof fn lemma_assoc_first_or_later(m: Seq<(Vec<u8>, NodeId)>, j: int)
    requires
        0 <= j < m.len(),
    ensures
        exists|v: int| assoc_at(m, m[j].0@) == Some(v),
    decreases j,
{
    if m[0].0@ == m[j].0@ {
        assert(assoc_at(m, m[j].0@) == Some(m[0].1@));
    } else {
        assert(j > 0);
        lemma_assoc_first_or_later(m.drop_first(), j - 1);
        assert(m.drop_first()[j - 1] == m[j]);
        let v = choose|v: int| assoc_at(m.drop_first(), m[j].0@) == Some(v);
        assert(assoc_at(m, m[j].0@) == Some(v));
    }
}

impl Tree {
    /// Starts a depth-first pass over the tree.
    pub fn into_iter(self) -> (it: IntoIter)
        requires
            self.wf(),
        ensures
            it.wf(),
            it.initial() == self.nodes(),
            it.initial_root() == self.root_id(),
    {
        let Tree { arena, root } = self;
        let ghost init = arena.entries@;
        let mut stack: Vec<(Vec<Vec<u8>>, NodeId)> = Vec::new();
        stack.push((Vec::new(), root));
        let it = IntoIter { stack, arena, init: Ghost(init), start_root: Ghost(root@) };
        proof {
            assert(path_view(it.stack@[0].0@) =~= Seq::<Seq<u8>>::empty());
        }
        it
    }
}


/// Strict lexicographic order on paths, component by component; a proper
/// prefix comes first.
pub open spec fn path_lt(a: Seq<Seq<u8>>, b: Seq<Seq<u8>>) -> bool
    decreases a.len(),
{
    if b.len() == 0 {
        false
    } else if a.len() == 0 {
        true
    } else if crate::bytes::lex_lt(a[0], b[0]) {
        true
    } else if crate::bytes::lex_lt(b[0], a[0]) {
        false
    } else {
        path_lt(a.drop_first(), b.drop_first())
    }
}

/// The path order is total: of `a < b`, `a == b`, `b < a`, exactly one
/// holds.
pub proof fn lemma_path_total(a: Seq<Seq<u8>>, b: Seq<Seq<u8>>)
    ensures
        path_lt(a, b) || path_lt(b, a) || a == b,
        path_lt(a, b) ==> !path_lt(b, a) && a != b,
        path_lt(b, a) ==> !path_lt(a, b) && a != b,
    decreases a.len() + b.len(),
{
    if a.len() == 0 && b.len() == 0 {
        assert(a =~= b);
    } else if a.len() > 0 && b.len() > 0 {
        crate::bytes::lemma_lex_total(a[0], b[0]);
        if a[0] == b[0] {
            lemma_path_total(a.drop_first(), b.drop_first());
            if a.drop_first() == b.drop_first() {
                assert forall|i: int| 0 <= i < a.len() implies a[i] == b[i] by {
                    if i >= 1 {
                        assert(a[i] == a.drop_first()[i - 1]);
                        assert(b[i] == b.drop_first()[i - 1]);
                    }
                }
                assert(a =~= b);
            }
            if a == b {
                assert(a.drop_first() =~= b.drop_first());
            }
        } else {
            if a == b {
                assert(a[0] == b[0]);
            }
        }
    } else {
        if a == b {
            assert(a.len() == b.len());
        }
    }
}

/// The path order is transitive.
pub proof fn lemma_path_trans(a: Seq<Seq<u8>>, b: Seq<Seq<u8>>, c: Seq<Seq<u8>>)
    requires
        path_lt(a, b),
        path_lt(b, c),
    ensures
        path_lt(a, c),
    decreases a.len(),
{
    if a.len() > 0 && b.len() > 0 && c.len() > 0 {
        crate::bytes::lemma_lex_total(a[0], b[0]);
        crate::bytes::lemma_lex_total(b[0], c[0]);
        crate::bytes::lemma_lex_total(a[0], c[0]);
        if a[0] == b[0] && b[0] == c[0] {
            lemma_path_trans(a.drop_first(), b.drop_first(), c.drop_first());
        } else if crate::bytes::lex_lt(a[0], b[0]) && b[0] == c[0] {
        } else if a[0] == b[0] && crate::bytes::lex_lt(b[0], c[0]) {
        } else {
            crate::bytes::lemma_lex_trans(a[0], b[0], c[0]);
        }
    }
}

/// Three-way comparison of two paths, component by component; a proper
/// prefix comes first.
fn path_cmp(a: &Vec<Vec<u8>>, b: &Vec<Vec<u8>>) -> (r: i8)
    ensures
        r < 0 <==> path_lt(path_view(a@), path_view(b@)),
        r == 0 <==> path_view(a@) == path_view(b@),
        r > 0 <==> path_lt(path_view(b@), path_view(a@)),
{
    let ghost pa = path_view(a@);
    let ghost pb = path_view(b@);
    proof {
        lemma_path_total(pa, pb);
        assert(pa.skip(0) =~= pa);
        assert(pb.skip(0) =~= pb);
    }
    let mut i: usize = 0;
    loop
        invariant
            i <= a.len() && i <= b.len(),
            pa == path_view(a@) && pb == path_view(b@),
            path_lt(pa, pb) <==> path_lt(pa.skip(i as int), pb.skip(i as int)),
            path_lt(pb, pa) <==> path_lt(pb.skip(i as int), pa.skip(i as int)),
            (pa == pb) <==> (pa.skip(i as int) =~= pb.skip(i as int)),
        decreases a@.len() - i,
    {
        if i == a.len() || i == b.len() {
            if a.len() == b.len() {
                proof {
                    assert(pa.skip(i as int) =~= pb.skip(i as int));
                }
                return 0;
            } else if i == a.len() {
                proof {
                    assert(path_lt(pa.skip(i as int), pb.skip(i as int)));
                    assert(pa.skip(i as int).len() != pb.skip(i as int).len());
                }
                return -1;
            } else {
                proof {
                    assert(path_lt(pb.skip(i as int), pa.skip(i as int)));
                    assert(pb.skip(i as int).len() != pa.skip(i as int).len());
                }
                return 1;
            }
        }
        let c = crate::bytes::bytes_cmp(&a[i], &b[i]);
        proof {
            assert(pa.skip(i as int)[0] == a@[i as int]@);
            assert(pb.skip(i as int)[0] == b@[i as int]@);
            crate::bytes::lemma_lex_total(pa.skip(i as int)[0], pb.skip(i as int)[0]);
        }
        if c != 0 {
            proof {
                if c < 0 {
                    assert(path_lt(pa.skip(i as int), pb.skip(i as int)));
                    assert(!path_lt(pb.skip(i as int), pa.skip(i as int)));
                    assert(pa.skip(i as int)[0] != pb.skip(i as int)[0]);
                } else {
                    assert(path_lt(pb.skip(i as int), pa.skip(i as int)));
                    assert(!path_lt(pa.skip(i as int), pb.skip(i as int)));
                    assert(pa.skip(i as int)[0] != pb.skip(i as int)[0]);
                }
            }
            return c;
        }
        proof {
            assert(pa.skip(i as int).drop_first() =~= pa.skip(i + 1));
            assert(pb.skip(i as int).drop_first() =~= pb.skip(i + 1));
            assert(pa.skip(i as int) =~= seq![pa.skip(i as int)[0]] + pa.skip(i + 1));
            assert(pb.skip(i as int) =~= seq![pb.skip(i as int)[0]] + pb.skip(i + 1));
            if pa.skip(i + 1) =~= pb.skip(i + 1) {
                assert(pa.skip(i as int) =~= pb.skip(i as int));
            }
            if pa.skip(i as int) =~= pb.skip(i as int) {
                assert(pa.skip(i + 1) =~= pb.skip(i + 1));
            }
        }
        i = i + 1;
    }
}

/// A copy of a path, component by component.
fn clone_path(p: &Vec<Vec<u8>>) -> (r: Vec<Vec<u8>>)
    ensures
        path_view(r@) == path_view(p@),
{
    let mut out: Vec<Vec<u8>> = Vec::new();
    let mut i: usize = 0;
    while i < p.len()
        invariant
            i <= p@.len(),
            out@.len() == i,
            forall|j: int| 0 <= j < i ==> (#[trigger] out@[j])@ == p@[j]@,
        decreases p@.len() - i,
    {
        out.push(clone_bytes(&p[i]));
        i = i + 1;
    }
    proof {
        assert(path_view(out@) =~= path_view(p@));
    }
    out
}

/// `a` comes no later than `b` in path order.
pub open spec fn path_le(a: Seq<Seq<u8>>, b: Seq<Seq<u8>>) -> bool {
    path_lt(a, b) || a == b
}

/// Orders the items by path, so that parent directories are created before
/// their children in a predictable sequence.
fn sort_by_path(items: Vec<(Vec<Vec<u8>>, SubtreeEntry)>) -> (r: Vec<(Vec<Vec<u8>>, SubtreeEntry)>)
    ensures
        r@.len() == items@.len(),
        forall|i: int, j: int| 0 <= i < j < r@.len() ==> path_le(
            path_view((#[trigger] r@[i]).0@),
            path_view((#[trigger] r@[j]).0@),
        ),
{
    let ghost n0 = items@.len();
    let mut rem = items;
    let mut out: Vec<(Vec<Vec<u8>>, SubtreeEntry)> = Vec::new();
    while rem.len() > 0
        invariant
            out@.len() + rem@.len() == n0,
            forall|i: int, j: int| 0 <= i < j < out@.len() ==> path_le(
                path_view((#[trigger] out@[i]).0@),
                path_view((#[trigger] out@[j]).0@),
            ),
        decreases rem@.len(),
    {
        let item = rem.remove(0);
        let ghost pitem = path_view(item.0@);
        let mut j: usize = 0;
        while j < out.len()
            invariant
                j <= out@.len(),
                pitem == path_view(item.0@),
                forall|l: int| 0 <= l < j ==> path_le(path_view((#[trigger] out@[l]).0@), pitem),
            ensures
                j <= out@.len(),
                pitem == path_view(item.0@),
                forall|l: int| 0 <= l < j ==> path_le(path_view((#[trigger] out@[l]).0@), pitem),
                j < out@.len() ==> path_lt(pitem, path_view(out@[j as int].0@)),
            decreases out@.len() - j,
        {
            if path_cmp(&out[j].0, &item.0) > 0 {
                break;
            }
            j = j + 1;
        }
        let ghost pre = out@;
        let ghost jg = j as int;
        out.insert(j, item);
        proof {
            assert(out@.len() == pre.len() + 1);
            assert forall|x: int, y: int| 0 <= x < y < out@.len() implies path_le(
                path_view((#[trigger] out@[x]).0@),
                path_view((#[trigger] out@[y]).0@),
            ) by {
                let px = if x < jg { path_view(pre[x].0@) } else if x == jg { pitem } else {
                    path_view(pre[x - 1].0@)
                };
                let py = if y < jg { path_view(pre[y].0@) } else if y == jg { pitem } else {
                    path_view(pre[y - 1].0@)
                };
                assert(path_view(out@[x].0@) == px);
                assert(path_view(out@[y].0@) == py);
                if x == jg {
                    // the new item comes before everything from position jg on
                    assert(path_lt(pitem, path_view(pre[jg].0@)));
                    if y - 1 > jg {
                        lemma_path_total(path_view(pre[jg].0@), path_view(pre[y - 1].0@));
                        if path_view(pre[jg].0@) == path_view(pre[y - 1].0@) {
                        } else {
                            lemma_path_trans(pitem, path_view(pre[jg].0@), path_view(pre[y - 1].0@));
                        }
                    }
                } else if y == jg {
                    assert(path_le(path_view(pre[x].0@), pitem));
                } else if x < jg && y > jg {
                    if x < y - 1 {
                    } else {
                        assert(x == y - 1);
                        assert(path_le(px, pitem));
                        assert(path_lt(pitem, py));
                        if px == pitem {
                        } else {
                            lemma_path_trans(px, pitem, py);
                        }
                    }
                } else {
                }
            }
        }
    }
    out
}

impl Tree {
    /// Builds a tree from a flat list of `(path, entry)` items: the items
    /// are sorted by path, then inserted in turn; an item whose path is
    /// already occupied replaces the earlier entry. Fails with
    /// `MalformedObject` when an item's path runs through an entry
    /// inserted for a shorter path.
    pub fn from_path_entries(items: Vec<(Vec<Vec<u8>>, SubtreeEntry)>) -> (r: Result<Tree, Error>)
        ensures
            items@.len() == 0 ==> r is Ok,
            match r {
                Ok(t) => t.wf() && (items@.len() > 0 ==> t.nodes().len() > 1 || t.nodes()[t.root_id()] matches Some(
                    Node::Opaque(_),
                )),
                Err(e) => e == Error::MalformedObject,
            },
    {
        let sorted = sort_by_path(items);
        let mut tree = Tree::empty();
        let mut i: usize = 0;
        let n = sorted.len();
        while i < n
            invariant
                i <= n,
                n == sorted@.len(),
                n == items@.len(),
                tree.wf(),
                i == 0 ==> tree.nodes().len() == 1 && (tree.nodes()[tree.root_id()] matches Some(
                    Node::Transparent(_),
                )),
                i > 0 ==> tree.nodes().len() > 1 || (tree.nodes()[tree.root_id()] matches Some(Node::Opaque(_))),
            decreases n - i,
        {
            let path = clone_path(&sorted[i].0);
            let ghost pv = path_view(path@);
            let entry = sorted[i].1.duplicate();
            let ghost t0 = tree;
            match tree.entry(path) {
                Ok(Entry::Vacant(vacant)) => {
                    proof {
                        // on a one-slot tree the vacancy is a missing name
                        // at the root, so the chain to build is not empty
                        if t0.nodes().len() == 1 {
                            assert(vacant.node_id@ == t0.root_id());
                            assert(vacant.immediate is Some);
                        }
                    }
                    let ghost ve = vacant;
                    let occ = vacant.insert(entry);
                    proof {
                        if t0.nodes().len() == 1 {
                            // the walk of the pending chain steps through a
                            // directory into the new entry: two distinct slots
                            assert(ve.pending().len() >= 1);
                            assert(walk(occ.tree.nodes(), ve.node_id@, ve.pending(), 0) == (WalkEnd::Occupied {
                                node: occ.node_id@,
                            }));
                            match occ.tree.nodes()[ve.node_id@] {
                                Some(Node::Transparent(_)) => {},
                                _ => {
                                    assert(false);
                                },
                            }
                            assert(occ.node_id@ != ve.node_id@);
                            assert(occ.tree.nodes().len() > 1);
                        }
                    }
                    tree = occ.into_inner();
                },
                Ok(Entry::Occupied(occupied)) => {
                    proof {
                        if t0.nodes().len() == 1 {
                            assert(occupied.node_id@ == t0.root_id());
                        }
                    }
                    let ghost oe = occupied;
                    tree = occupied.replace(entry).into_inner();
                    proof {
                        if t0.nodes().len() == 1 {
                            assert(tree.nodes()[tree.root_id()] matches Some(Node::Opaque(_)));
                        }
                    }
                },
                Err(_) => {
                    return Err(Error::MalformedObject);
                },
            }
            i = i + 1;
        }
        Ok(tree)
    }
}


/// A marshalled root digest resolves: once the store has a digest, its
/// canonical handle is registered and the object is resident, which is
/// exactly what `Store::resolve` and `Store::load` promise success on.
pub proof fn lemma_marshal_then_resolve(s: Store, d: Seq<u8>)
    requires
        store_has(s, d),
    ensures
        s.handle_registered(d),
        s.object_at(d) is Some,
        s.db_at(d) is Some,
{
}

} // verus!
