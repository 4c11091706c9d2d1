//! The chart graph: an arena of judge lines and their notes and curve events.
//!
//! Slots are never reused: a despawned entity leaves an empty slot behind, so
//! a stale handle can be detected, and an entity removed by an edit can be put
//! back under its old handle when the edit is undone.
use vstd::prelude::*;

use crate::event::LineEvent;
use crate::note::Note;

verus! {

/// An opaque handle to an entity of the graph.
#[derive(Clone, Copy, Debug, PartialEq, Eq, Structural)]
pub struct Entity {
    pub index: usize,
}

/// Which kind of child an entity is.
#[derive(Clone, Copy, Debug, PartialEq, Eq, Structural)]
pub enum ChildKind {
    Note,
    Event,
}

/// The data of an entity owned by a line.
#[derive(Clone, Copy, Debug, PartialEq, Eq, Structural)]
pub enum Child {
    Note(Note),
    Event(LineEvent),
}

impl Child {
    pub open spec fn kind_of(self) -> ChildKind {
        match self {
            Child::Note(_) => ChildKind::Note,
            Child::Event(_) => ChildKind::Event,
        }
    }

    pub fn kind(&self) -> (r: ChildKind)
        ensures
            r == self.kind_of(),
    {
        match self {
            Child::Note(_) => ChildKind::Note,
            Child::Event(_) => ChildKind::Event,
        }
    }
}

/// A live entity: a judge line, or a note or event under its parent line.
#[derive(Clone, Copy, Debug, PartialEq, Eq, Structural)]
pub enum Node {
    Line,
    Child { parent: Entity, child: Child },
}

pub type Slots = Seq<Option<Node>>;

/// The content of slot `i`; `None` past the end.
pub open spec fn slot(g: Slots, i: int) -> Option<Node> {
    if 0 <= i < g.len() {
        g[i]
    } else {
        None
    }
}

pub open spec fn is_line(g: Slots, e: Entity) -> bool {
    slot(g, e.index as int) == Some(Node::Line)
}

/// Parent and data of `e` when it is a live child of kind `k`.
pub open spec fn child_at(g: Slots, e: Entity, k: ChildKind) -> Option<(Entity, Child)> {
    match slot(g, e.index as int) {
        Some(Node::Child { parent, child }) => if child.kind_of() == k {
            Some((parent, child))
        } else {
            None
        },
        _ => None,
    }
}

/// Every child's parent is a live line.
pub open spec fn graph_wf(g: Slots) -> bool {
    forall|i: int|
        0 <= i < g.len() ==> match #[trigger] g[i] {
            Some(Node::Child { parent, child: _ }) => is_line(g, parent),
            _ => true,
        }
}

/// The same live entities under the same handles; empty slots past the end
/// are not observable.
pub open spec fn equiv(a: Slots, b: Slots) -> bool {
    forall|i: int| #[trigger] slot(a, i) == slot(b, i)
}

/// `e` is an empty slot that can take an entity again.
pub open spec fn restorable(g: Slots, e: Entity) -> bool {
    e.index < g.len() && g[e.index as int] is None
}

/// Puts `child` under `line`: back into slot `rec` when that slot is free,
/// else into a new slot. When `line` is not a live line nothing happens and
/// the recorded handle stays; when every handle is taken nothing is spawned
/// and no handle is recorded.
pub open spec fn spawn_spec(g: Slots, line: Entity, child: Child, rec: Option<Entity>) -> (Slots, Option<Entity>) {
    let node = Node::Child { parent: line, child };
    if !is_line(g, line) {
        (g, rec)
    } else if rec is Some && restorable(g, rec.unwrap()) {
        (g.update(rec.unwrap().index as int, Some(node)), rec)
    } else if g.len() < usize::MAX {
        (g.push(Some(node)), Some(Entity { index: g.len() as usize }))
    } else {
        (g, None)
    }
}

/// Despawns `rec` when it is a live child of kind `k` under `line`.
pub open spec fn despawn_spec(g: Slots, rec: Option<Entity>, line: Entity, k: ChildKind) -> Slots {
    if rec is Some && child_at(g, rec.unwrap(), k) is Some && child_at(g, rec.unwrap(), k).unwrap().0 == line {
        g.update(rec.unwrap().index as int, None)
    } else {
        g
    }
}

/// Reads parent and data of `e` (a child of kind `k`), then despawns it.
pub open spec fn capture_spec(g: Slots, e: Entity, k: ChildKind) -> (Slots, Option<(Entity, Child)>) {
    match child_at(g, e, k) {
        Some(pc) => (g.update(e.index as int, None), Some(pc)),
        None => (g, None),
    }
}

/// Re-spawns cached data into the free slot `e` under its cached parent.
pub open spec fn restore_spec(g: Slots, e: Entity, cached: Option<(Entity, Child)>) -> Slots {
    match cached {
        Some((p, c)) => if restorable(g, e) && is_line(g, p) {
            g.update(e.index as int, Some(Node::Child { parent: p, child: c }))
        } else {
            g
        },
        None => g,
    }
}

/// Overwrites the data of `e` with `value` when `e` is a live child of the
/// same kind, and yields the data it held.
pub open spec fn swap_spec(g: Slots, e: Entity, value: Child) -> (Slots, Option<Child>) {
    match child_at(g, e, value.kind_of()) {
        Some((p, old)) => (g.update(e.index as int, Some(Node::Child { parent: p, child: value }))
            , Some(old)),
        None => (g, None),
    }
}

/// Writing an empty slot or a child under a live line into a slot that held
/// no line keeps the graph well formed.
pub proof fn lemma_update_wf(g: Slots, i: int, v: Option<Node>)
    requires
        graph_wf(g),
        0 <= i < g.len(),
        g[i] != Some(Node::Line),
        match v {
            Some(Node::Child { parent, child: _ }) => is_line(g, parent),
            Some(Node::Line) => false,
            None => true,
        },
    ensures
        graph_wf(g.update(i, v)),
{
    let g1 = g.update(i, v);
    assert forall|j: int| 0 <= j < g1.len() implies match #[trigger] g1[j] {
        Some(Node::Child { parent, child: _ }) => is_line(g1, parent),
        _ => true,
    } by {
        if j != i {
            assert(g1[j] == g[j]);
        }
        match g1[j] {
            Some(Node::Child { parent, child: _ }) => {
                assert(is_line(g, parent));
                assert(parent.index != i);
            },
            _ => {},
        }
    }
}

/// Appending a child under a live line keeps the graph well formed.
pub proof fn lemma_push_wf(g: Slots, v: Option<Node>)
    requires
        graph_wf(g),
        match v {
            Some(Node::Child { parent, child: _ }) => is_line(g, parent),
            Some(Node::Line) => true,
            None => true,
        },
    ensures
        graph_wf(g.push(v)),
{
    let g1 = g.push(v);
    assert forall|j: int| 0 <= j < g1.len() implies match #[trigger] g1[j] {
        Some(Node::Child { parent, child: _ }) => is_line(g1, parent),
        _ => true,
    } by {
        if j < g.len() {
            assert(g1[j] == g[j]);
        }
        match g1[j] {
            Some(Node::Child { parent, child: _ }) => {
                assert(is_line(g, parent));
                assert(g1[parent.index as int] == g[parent.index as int]);
            },
            _ => {},
        }
    }
}

pub proof fn lemma_spawn_wf(g: Slots, line: Entity, child: Child, rec: Option<Entity>)
    ensures
        graph_wf(g) ==> graph_wf(spawn_spec(g, line, child, rec).0),
        spawn_spec(g, line, child, rec).0.len() >= g.len(),
{
    if graph_wf(g) {
        let node = Node::Child { parent: line, child };
        if is_line(g, line) {
            if rec is Some && restorable(g, rec.unwrap()) {
                lemma_update_wf(g, rec.unwrap().index as int, Some(node));
            } else if g.len() < usize::MAX {
                lemma_push_wf(g, Some(node));
            }
        }
    }
}

pub proof fn lemma_despawn_wf(g: Slots, rec: Option<Entity>, line: Entity, k: ChildKind)
    ensures
        graph_wf(g) ==> graph_wf(despawn_spec(g, rec, line, k)),
        despawn_spec(g, rec, line, k).len() == g.len(),
{
    if graph_wf(g) {
        if rec is Some && child_at(g, rec.unwrap(), k) is Some {
            lemma_update_wf(g, rec.unwrap().index as int, None);
        }
    }
}

pub proof fn lemma_capture_wf(g: Slots, e: Entity, k: ChildKind)
    ensures
        graph_wf(g) ==> graph_wf(capture_spec(g, e, k).0),
        capture_spec(g, e, k).0.len() == g.len(),
{
    if graph_wf(g) {
        if child_at(g, e, k) is Some {
            lemma_update_wf(g, e.index as int, None);
        }
    }
}

pub proof fn lemma_restore_wf(g: Slots, e: Entity, cached: Option<(Entity, Child)>)
    ensures
        graph_wf(g) ==> graph_wf(restore_spec(g, e, cached)),
        restore_spec(g, e, cached).len() == g.len(),
{
    if graph_wf(g) {
        if let Some((p, c)) = cached {
            if restorable(g, e) && is_line(g, p) {
                lemma_update_wf(g, e.index as int, Some(Node::Child { parent: p, child: c }));
            }
        }
    }
}

pub proof fn lemma_swap_wf(g: Slots, e: Entity, value: Child)
    ensures
        graph_wf(g) ==> graph_wf(swap_spec(g, e, value).0),
        swap_spec(g, e, value).0.len() == g.len(),
{
    if graph_wf(g) {
        if let Some((p, old)) = child_at(g, e, value.kind_of()) {
            lemma_update_wf(g, e.index as int, Some(Node::Child { parent: p, child: value }));
        }
    }
}

/// Handles of the live children of `line` among the first `n` slots, in slot order.
pub open spec fn children_spec(g: Slots, line: Entity, n: int) -> Seq<Entity>
    decreases n,
{
    if n <= 0 {
        Seq::empty()
    } else {
        let prev = children_spec(g, line, n - 1);
        match g[n - 1] {
            Some(Node::Child { parent, child: _ }) => if parent == line {
                prev.push(Entity { index: (n - 1) as usize })
            } else {
                prev
            },
            _ => prev,
        }
    }
}

/// The arena that owns every line, note and curve event of a chart.
pub struct ChartGraph {
    slots: Vec<Option<Node>>,
}

impl View for ChartGraph {
    type V = Slots;

    closed spec fn view(&self) -> Slots {
        self.slots@
    }
}

impl ChartGraph {
    /// An empty chart.
    pub fn new() -> (r: ChartGraph)
        ensures
            r@ == Seq::<Option<Node>>::empty(),
            graph_wf(r@),
    {
        ChartGraph { slots: Vec::new() }
    }

    /// Number of slots ever used.
    pub fn len(&self) -> (r: usize)
        ensures
            r == self@.len(),
    {
        self.slots.len()
    }

    /// The entity behind `e`, if it is live.
    pub fn get(&self, e: Entity) -> (r: Option<Node>)
        ensures
            r == slot(self@, e.index as int),
    {
        if e.index < self.slots.len() {
            self.slots[e.index]
        } else {
            None
        }
    }

    /// Adds a new judge line.
    pub fn spawn_line(&mut self) -> (r: Entity)
        requires
            old(self)@.len() < usize::MAX,
        ensures
            final(self)@ == old(self)@.push(Some(Node::Line)),
            r.index == old(self)@.len(),
            graph_wf(old(self)@) ==> graph_wf(final(self)@),
    {
        let r = Entity { index: self.slots.len() };
        self.slots.push(Some(Node::Line));
        proof {
            let g0 = old(self)@;
            let g1 = self@;
            if graph_wf(g0) {
                assert forall|i: int| 0 <= i < g1.len() implies match #[trigger] g1[i] {
                    Some(Node::Child { parent, child: _ }) => is_line(g1, parent),
                    _ => true,
                } by {
                    if i < g0.len() {
                        assert(g1[i] == g0[i]);
                    }
                }
            }
        }
        r
    }

    pub fn is_line(&self, e: Entity) -> (r: bool)
        ensures
            r == is_line(self@, e),
    {
        match self.get(e) {
            Some(Node::Line) => true,
            _ => false,
        }
    }

    /// Parent and data of `e` when it is a live child of kind `k`.
    pub fn child_at(&self, e: Entity, k: ChildKind) -> (r: Option<(Entity, Child)>)
        ensures
            r == child_at(self@, e, k),
    {
        match self.get(e) {
            Some(Node::Child { parent, child }) => {
                if child.kind() == k {
                    Some((parent, child))
                } else {
                    None
                }
            },
            _ => None,
        }
    }

    /// See `spawn_spec`.
    pub fn spawn_child(&mut self, line: Entity, child: Child, rec: Option<Entity>) -> (r: Option<Entity>)
        ensures
            graph_wf(old(self)@) ==> graph_wf(final(self)@),
            (final(self)@, r) == spawn_spec(old(self)@, line, child, rec),
    {
        proof {
            lemma_spawn_wf(old(self)@, line, child, rec);
        }
        if !self.is_line(line) {
            return rec;
        }
        let node = Node::Child { parent: line, child };
        match rec {
            Some(e) => {
                if e.index < self.slots.len() && self.slots[e.index].is_none() {
                    self.slots.set(e.index, Some(node));
                    return rec;
                }
            },
            None => {},
        }
        if self.slots.len() == usize::MAX {
            return None;
        }
        let r = Entity { index: self.slots.len() };
        self.slots.push(Some(node));
        Some(r)
    }

    /// See `despawn_spec`.
    pub fn despawn_child(&mut self, rec: Option<Entity>, line: Entity, k: ChildKind)
        ensures
            graph_wf(old(self)@) ==> graph_wf(final(self)@),
            final(self)@ == despawn_spec(old(self)@, rec, line, k),
    {
        proof {
            lemma_despawn_wf(old(self)@, rec, line, k);
        }
        if let Some(e) = rec {
            if let Some((p, _)) = self.child_at(e, k) {
                if p == line {
                    self.slots.set(e.index, None);
                }
            }
        }
    }

    /// See `capture_spec`.
    pub fn capture(&mut self, e: Entity, k: ChildKind) -> (r: Option<(Entity, Child)>)
        ensures
            graph_wf(old(self)@) ==> graph_wf(final(self)@),
            (final(self)@, r) == capture_spec(old(self)@, e, k),
    {
        proof {
            lemma_capture_wf(old(self)@, e, k);
        }
        let r = self.child_at(e, k);
        if r.is_some() {
            self.slots.set(e.index, None);
        }
        r
    }

    /// See `restore_spec`.
    pub fn restore(&mut self, e: Entity, cached: Option<(Entity, Child)>)
        ensures
            graph_wf(old(self)@) ==> graph_wf(final(self)@),
            final(self)@ == restore_spec(old(self)@, e, cached),
    {
        proof {
            lemma_restore_wf(old(self)@, e, cached);
        }
        if let Some((p, c)) = cached {
            if e.index < self.slots.len() && self.slots[e.index].is_none() && self.is_line(p) {
                self.slots.set(e.index, Some(Node::Child { parent: p, child: c }));
            }
        }
    }

    /// Handles of the live notes and curve events under `line`, oldest slot first.
    pub fn children(&self, line: Entity) -> (r: Vec<Entity>)
        ensures
            r@ == children_spec(self@, line, self@.len() as int),
    {
        let mut r: Vec<Entity> = Vec::new();
        let mut i: usize = 0;
        while i < self.slots.len()
            invariant
                0 <= i <= self.slots.len(),
                r@ == children_spec(self@, line, i as int),
            decreases self.slots.len() - i,
        {
            match self.slots[i] {
                Some(Node::Child { parent, child: _ }) => {
                    if parent == line {
                        r.push(Entity { index: i });
                    }
                },
                _ => {},
            }
            i = i + 1;
        }
        r
    }

    /// See `swap_spec`.
    pub fn swap(&mut self, e: Entity, value: Child) -> (r: Option<Child>)
        ensures
            graph_wf(old(self)@) ==> graph_wf(final(self)@),
            (final(self)@, r) == swap_spec(old(self)@, e, value),
    {
        proof {
            lemma_swap_wf(old(self)@, e, value);
        }
        match self.child_at(e, value.kind()) {
            Some((p, old)) => {
                self.slots.set(e.index, Some(Node::Child { parent: p, child: value }));
                Some(old)
            },
            None => None,
        }
    }
}

} // verus!
