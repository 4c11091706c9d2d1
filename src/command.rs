//! The six reversible edit commands on the chart graph.
//!
//! Each command is one of three shapes, shared by notes and curve events:
//! spawn under a parent, capture then destroy, and swap a value. Every
//! command keeps what it needs to undo itself, and entities it destroys come
//! back under their old handles. A command whose target is gone does nothing.
use vstd::prelude::*;

use crate::event::LineEvent;
use crate::graph::{
    capture_spec, child_at, despawn_spec, equiv, graph_wf, is_line, lemma_capture_wf,
    lemma_despawn_wf, lemma_restore_wf, lemma_spawn_wf, lemma_swap_wf, restorable, restore_spec,
    slot, spawn_spec, swap_spec, ChartGraph, Child, ChildKind, Entity, Node, Slots,
};
use crate::note::Note;

verus! {

/// Spawns a note under a line.
#[derive(Clone, Copy, Debug)]
pub struct CreateNote {
    pub line_entity: Entity,
    pub note: Note,
    /// The handle of the spawned note, once spawned.
    pub note_entity: Option<Entity>,
}

/// Removes a note, keeping its data and parent for undo.
#[derive(Clone, Copy, Debug)]
pub struct RemoveNote {
    pub note_entity: Entity,
    pub note: Option<Note>,
    pub line_entity: Option<Entity>,
}

/// Replaces the data of a note; `from` holds the data it had.
#[derive(Clone, Copy, Debug)]
pub struct EditNote {
    pub entity: Entity,
    pub from: Note,
    pub to: Note,
}

/// Spawns a curve event under a line.
#[derive(Clone, Copy, Debug)]
pub struct CreateEvent {
    pub line_entity: Entity,
    pub event: LineEvent,
    pub event_entity: Option<Entity>,
}

/// Removes a curve event, keeping its data and parent for undo.
#[derive(Clone, Copy, Debug)]
pub struct RemoveEvent {
    pub event_entity: Entity,
    pub event: Option<LineEvent>,
    pub line_entity: Option<Entity>,
}

/// Replaces the data of a curve event; `from` holds the data it had.
#[derive(Clone, Copy, Debug)]
pub struct EditEvent {
    pub entity: Entity,
    pub from: LineEvent,
    pub to: LineEvent,
}

/// Any of the six commands.
#[derive(Clone, Copy, Debug)]
pub enum EditorCommand {
    CreateNote(CreateNote),
    RemoveNote(RemoveNote),
    EditNote(EditNote),
    CreateEvent(CreateEvent),
    RemoveEvent(RemoveEvent),
    EditEvent(EditEvent),
}

/// Applying `c` to `g`: the command's new state and the new graph.
pub open spec fn apply_spec(c: EditorCommand, g: Slots) -> (EditorCommand, Slots) {
    match c {
        EditorCommand::CreateNote(x) => {
            let (g1, r) = spawn_spec(g, x.line_entity, Child::Note(x.note), x.note_entity);
            (EditorCommand::CreateNote(CreateNote { note_entity: r, ..x }), g1)
        },
        EditorCommand::CreateEvent(x) => {
            let (g1, r) = spawn_spec(g, x.line_entity, Child::Event(x.event), x.event_entity);
            (EditorCommand::CreateEvent(CreateEvent { event_entity: r, ..x }), g1)
        },
        EditorCommand::RemoveNote(x) => {
            let (g1, cached) = capture_spec(g, x.note_entity, ChildKind::Note);
            let y = match cached {
                Some((p, Child::Note(n))) => RemoveNote { note: Some(n), line_entity: Some(p), ..x },
                _ => RemoveNote { note: None, line_entity: None, ..x },
            };
            (EditorCommand::RemoveNote(y), g1)
        },
        EditorCommand::RemoveEvent(x) => {
            let (g1, cached) = capture_spec(g, x.event_entity, ChildKind::Event);
            let y = match cached {
                Some((p, Child::Event(e))) => RemoveEvent { event: Some(e), line_entity: Some(p), ..x },
                _ => RemoveEvent { event: None, line_entity: None, ..x },
            };
            (EditorCommand::RemoveEvent(y), g1)
        },
        EditorCommand::EditNote(x) => {
            let (g1, old) = swap_spec(g, x.entity, Child::Note(x.to));
            let y = match old {
                Some(Child::Note(n)) => EditNote { from: n, ..x },
                _ => x,
            };
            (EditorCommand::EditNote(y), g1)
        },
        EditorCommand::EditEvent(x) => {
            let (g1, old) = swap_spec(g, x.entity, Child::Event(x.to));
            let y = match old {
                Some(Child::Event(e)) => EditEvent { from: e, ..x },
                _ => x,
            };
            (EditorCommand::EditEvent(y), g1)
        },
    }
}

/// Reversing `c` on `g`: the command's new state and the new graph.
pub open spec fn reverse_spec(c: EditorCommand, g: Slots) -> (EditorCommand, Slots) {
    match c {
        EditorCommand::CreateNote(x) => (c, despawn_spec(g, x.note_entity, x.line_entity, ChildKind::Note)),
        EditorCommand::CreateEvent(x) => (c, despawn_spec(g, x.event_entity, x.line_entity, ChildKind::Event)),
        EditorCommand::RemoveNote(x) => (c, match (x.note, x.line_entity) {
            (Some(n), Some(p)) => restore_spec(g, x.note_entity, Some((p, Child::Note(n)))),
            _ => g,
        }),
        EditorCommand::RemoveEvent(x) => (c, match (x.event, x.line_entity) {
            (Some(e), Some(p)) => restore_spec(g, x.event_entity, Some((p, Child::Event(e)))),
            _ => g,
        }),
        EditorCommand::EditNote(x) => (c, swap_spec(g, x.entity, Child::Note(x.from)).0),
        EditorCommand::EditEvent(x) => (c, swap_spec(g, x.entity, Child::Event(x.from)).0),
    }
}

/// Applying a command keeps the graph well formed and never shrinks it.
pub proof fn lemma_apply_wf(c: EditorCommand, g: Slots)
    ensures
        graph_wf(g) ==> graph_wf(apply_spec(c, g).1),
        apply_spec(c, g).1.len() >= g.len(),
{
    match c {
        EditorCommand::CreateNote(x) => lemma_spawn_wf(g, x.line_entity, Child::Note(x.note), x.note_entity),
        EditorCommand::CreateEvent(x) => lemma_spawn_wf(g, x.line_entity, Child::Event(x.event), x.event_entity),
        EditorCommand::RemoveNote(x) => lemma_capture_wf(g, x.note_entity, ChildKind::Note),
        EditorCommand::RemoveEvent(x) => lemma_capture_wf(g, x.event_entity, ChildKind::Event),
        EditorCommand::EditNote(x) => lemma_swap_wf(g, x.entity, Child::Note(x.to)),
        EditorCommand::EditEvent(x) => lemma_swap_wf(g, x.entity, Child::Event(x.to)),
    }
}

/// Reversing a command keeps the graph well formed and its length.
pub proof fn lemma_reverse_wf(c: EditorCommand, g: Slots)
    ensures
        graph_wf(g) ==> graph_wf(reverse_spec(c, g).1),
        reverse_spec(c, g).1.len() == g.len(),
        reverse_spec(c, g).0 == c,
{
    match c {
        EditorCommand::CreateNote(x) => lemma_despawn_wf(g, x.note_entity, x.line_entity, ChildKind::Note),
        EditorCommand::CreateEvent(x) => lemma_despawn_wf(g, x.event_entity, x.line_entity, ChildKind::Event),
        EditorCommand::RemoveNote(x) => {
            if let (Some(n), Some(p)) = (x.note, x.line_entity) {
                lemma_restore_wf(g, x.note_entity, Some((p, Child::Note(n))));
            }
        },
        EditorCommand::RemoveEvent(x) => {
            if let (Some(e), Some(p)) = (x.event, x.line_entity) {
                lemma_restore_wf(g, x.event_entity, Some((p, Child::Event(e))));
            }
        },
        EditorCommand::EditNote(x) => lemma_swap_wf(g, x.entity, Child::Note(x.from)),
        EditorCommand::EditEvent(x) => lemma_swap_wf(g, x.entity, Child::Event(x.from)),
    }
}

/// Reversing an applied command on any graph that looks like the one the
/// application produced (no shorter) gives back a graph that looks like the
/// one before it.
pub proof fn lemma_reverse_undoes_apply(c: EditorCommand, g: Slots, h: Slots)
    requires
        graph_wf(g),
        equiv(h, apply_spec(c, g).1),
        h.len() >= apply_spec(c, g).1.len(),
    ensures
        equiv(reverse_spec(apply_spec(c, g).0, h).1, g),
{
    let (c1, g1) = apply_spec(c, g);
    let h1 = reverse_spec(c1, h).1;
    lemma_apply_wf(c, g);
    assert forall|i: int| #[trigger] slot(h1, i) == slot(g, i) by {
        assert(slot(h, i) == slot(g1, i));
        match c {
            EditorCommand::CreateNote(x) => {
                if is_line(g, x.line_entity) {
                    assert(slot(h, x.line_entity.index as int) == slot(g1, x.line_entity.index as int));
                }
            },
            EditorCommand::CreateEvent(x) => {
                if is_line(g, x.line_entity) {
                    assert(slot(h, x.line_entity.index as int) == slot(g1, x.line_entity.index as int));
                }
            },
            EditorCommand::RemoveNote(x) => {
                let e = x.note_entity;
                assert(slot(h, e.index as int) == slot(g1, e.index as int));
                if let Some((p, ch)) = child_at(g, e, ChildKind::Note) {
                    assert(g[e.index as int] == Some(Node::Child { parent: p, child: ch }));
                    assert(is_line(g, p));
                    assert(slot(h, p.index as int) == slot(g1, p.index as int));
                    assert(slot(g1, p.index as int) == slot(g, p.index as int));
                }
            },
            EditorCommand::RemoveEvent(x) => {
                let e = x.event_entity;
                assert(slot(h, e.index as int) == slot(g1, e.index as int));
                if let Some((p, ch)) = child_at(g, e, ChildKind::Event) {
                    assert(g[e.index as int] == Some(Node::Child { parent: p, child: ch }));
                    assert(is_line(g, p));
                    assert(slot(h, p.index as int) == slot(g1, p.index as int));
                    assert(slot(g1, p.index as int) == slot(g, p.index as int));
                }
            },
            EditorCommand::EditNote(x) => {
                assert(slot(h, x.entity.index as int) == slot(g1, x.entity.index as int));
            },
            EditorCommand::EditEvent(x) => {
                assert(slot(h, x.entity.index as int) == slot(g1, x.entity.index as int));
            },
        }
    }
}

/// Apply, reverse, apply again: the second application reproduces exactly
/// the graph and the command state of the first.
pub proof fn lemma_reapply_after_reverse(c: EditorCommand, g: Slots)
    requires
        graph_wf(g),
    ensures
        apply_spec(reverse_spec(apply_spec(c, g).0, apply_spec(c, g).1).0,
            reverse_spec(apply_spec(c, g).0, apply_spec(c, g).1).1) == apply_spec(c, g),
{
    let (c1, g1) = apply_spec(c, g);
    let (c2, g2) = reverse_spec(c1, g1);
    let (c3, g3) = apply_spec(c2, g2);
    match c {
        EditorCommand::CreateNote(x) => {
            if !is_line(g, x.line_entity) {
                if let Some(e) = x.note_entity {
                    if let Some((p, _)) = child_at(g, e, ChildKind::Note) {
                        assert(g[e.index as int] matches Some(Node::Child { parent, child: _ }) && parent == p);
                        assert(is_line(g, p));
                    }
                }
                assert(g2 == g);
            } else if let Some(e) = c1->CreateNote_0.note_entity {
                assert(g2 =~= g1.update(e.index as int, None));
                assert(e.index != x.line_entity.index);
                assert(is_line(g2, x.line_entity));
                assert(restorable(g2, e));
                assert(g3 =~= g1);
            }
        },
        EditorCommand::CreateEvent(x) => {
            if !is_line(g, x.line_entity) {
                if let Some(e) = x.event_entity {
                    if let Some((p, _)) = child_at(g, e, ChildKind::Event) {
                        assert(g[e.index as int] matches Some(Node::Child { parent, child: _ }) && parent == p);
                        assert(is_line(g, p));
                    }
                }
                assert(g2 == g);
            } else if let Some(e) = c1->CreateEvent_0.event_entity {
                assert(g2 =~= g1.update(e.index as int, None));
                assert(e.index != x.line_entity.index);
                assert(is_line(g2, x.line_entity));
                assert(restorable(g2, e));
                assert(g3 =~= g1);
            }
        },
        EditorCommand::RemoveNote(x) => {
            let e = x.note_entity;
            if let Some((p, ch)) = child_at(g, e, ChildKind::Note) {
                assert(is_line(g, p));
                assert(g2 =~= g);
                assert(g3 =~= g1);
            }
        },
        EditorCommand::RemoveEvent(x) => {
            let e = x.event_entity;
            if let Some((p, ch)) = child_at(g, e, ChildKind::Event) {
                assert(is_line(g, p));
                assert(g2 =~= g);
                assert(g3 =~= g1);
            }
        },
        EditorCommand::EditNote(x) => {
            if let Some((p, ch)) = child_at(g, x.entity, ChildKind::Note) {
                assert(g2 =~= g);
                assert(g3 =~= g1);
            }
        },
        EditorCommand::EditEvent(x) => {
            if let Some((p, ch)) = child_at(g, x.entity, ChildKind::Event) {
                assert(g2 =~= g);
                assert(g3 =~= g1);
            }
        },
    }
}

impl CreateNote {
    pub fn new(line: Entity, note: Note) -> (r: CreateNote)
        ensures
            r == (CreateNote { line_entity: line, note, note_entity: None }),
    {
        CreateNote { line_entity: line, note, note_entity: None }
    }
}

impl RemoveNote {
    pub fn new(entity: Entity) -> (r: RemoveNote)
        ensures
            r == (RemoveNote { note_entity: entity, note: None, line_entity: None }),
    {
        RemoveNote { note_entity: entity, note: None, line_entity: None }
    }
}

impl EditNote {
    pub fn new(entity: Entity, from: Note, to: Note) -> (r: EditNote)
        ensures
            r == (EditNote { entity, from, to }),
    {
        EditNote { entity, from, to }
    }
}

impl CreateEvent {
    pub fn new(line: Entity, event: LineEvent) -> (r: CreateEvent)
        ensures
            r == (CreateEvent { line_entity: line, event, event_entity: None }),
    {
        CreateEvent { line_entity: line, event, event_entity: None }
    }
}

impl RemoveEvent {
    pub fn new(entity: Entity) -> (r: RemoveEvent)
        ensures
            r == (RemoveEvent { event_entity: entity, event: None, line_entity: None }),
    {
        RemoveEvent { event_entity: entity, event: None, line_entity: None }
    }
}

impl EditEvent {
    pub fn new(entity: Entity, from: LineEvent, to: LineEvent) -> (r: EditEvent)
        ensures
            r == (EditEvent { entity, from, to }),
    {
        EditEvent { entity, from, to }
    }
}

impl EditorCommand {
    /// Performs the command on `g`, recording what undo needs.
    pub fn apply(&mut self, g: &mut ChartGraph)
        ensures
            (*final(self), final(g)@) == apply_spec(*old(self), old(g)@),
            graph_wf(old(g)@) ==> graph_wf(final(g)@),
    {
        proof {
            lemma_apply_wf(*self, g@);
        }
        match self {
            EditorCommand::CreateNote(x) => {
                x.note_entity = g.spawn_child(x.line_entity, Child::Note(x.note), x.note_entity);
            },
            EditorCommand::CreateEvent(x) => {
                x.event_entity = g.spawn_child(x.line_entity, Child::Event(x.event), x.event_entity);
            },
            EditorCommand::RemoveNote(x) => {
                match g.capture(x.note_entity, ChildKind::Note) {
                    Some((p, Child::Note(n))) => {
                        x.note = Some(n);
                        x.line_entity = Some(p);
                    },
                    _ => {
                        x.note = None;
                        x.line_entity = None;
                    },
                }
            },
            EditorCommand::RemoveEvent(x) => {
                match g.capture(x.event_entity, ChildKind::Event) {
                    Some((p, Child::Event(e))) => {
                        x.event = Some(e);
                        x.line_entity = Some(p);
                    },
                    _ => {
                        x.event = None;
                        x.line_entity = None;
                    },
                }
            },
            EditorCommand::EditNote(x) => {
                if let Some(Child::Note(n)) = g.swap(x.entity, Child::Note(x.to)) {
                    x.from = n;
                }
            },
            EditorCommand::EditEvent(x) => {
                if let Some(Child::Event(e)) = g.swap(x.entity, Child::Event(x.to)) {
                    x.from = e;
                }
            },
        }
    }

    /// Undoes the command on `g`.
    pub fn reverse(&mut self, g: &mut ChartGraph)
        ensures
            (*final(self), final(g)@) == reverse_spec(*old(self), old(g)@),
            graph_wf(old(g)@) ==> graph_wf(final(g)@),
    {
        proof {
            lemma_reverse_wf(*self, g@);
        }
        match self {
            EditorCommand::CreateNote(x) => g.despawn_child(x.note_entity, x.line_entity, ChildKind::Note),
            EditorCommand::CreateEvent(x) => g.despawn_child(x.event_entity, x.line_entity, ChildKind::Event),
            EditorCommand::RemoveNote(x) => {
                if let (Some(n), Some(p)) = (x.note, x.line_entity) {
                    g.restore(x.note_entity, Some((p, Child::Note(n))));
                }
            },
            EditorCommand::RemoveEvent(x) => {
                if let (Some(e), Some(p)) = (x.event, x.line_entity) {
                    g.restore(x.event_entity, Some((p, Child::Event(e))));
                }
            },
            EditorCommand::EditNote(x) => {
                g.swap(x.entity, Child::Note(x.from));
            },
            EditorCommand::EditEvent(x) => {
                g.swap(x.entity, Child::Event(x.from));
            },
        }
    }
}

} // verus!
