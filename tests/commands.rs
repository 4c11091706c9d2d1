use phichain_core::beat::Beat;
use phichain_core::command::{
    CreateEvent, CreateNote, EditEvent, EditNote, EditorCommand, RemoveEvent, RemoveNote,
};
use phichain_core::easing::Easing;
use phichain_core::event::{LineEvent, LineEventKind};
use phichain_core::frac::Frac;
use phichain_core::graph::{ChartGraph, Child, ChildKind, Entity, Node};
use phichain_core::history::History;
use phichain_core::note::{Note, NoteKind};

fn frac(n: i64, d: i64) -> Frac {
    Frac::new(n, d).unwrap()
}

fn tap(x: i64) -> Note {
    Note::new(NoteKind::Tap, true, Beat::zero(), Frac::from_int(x))
}

fn note_count(world: &ChartGraph) -> usize {
    let mut n = 0;
    for i in 0..world.len() {
        if let Some(Node::Child { child: Child::Note(_), .. }) = world.get(Entity { index: i }) {
            n += 1;
        }
    }
    n
}

fn event(start: i64, end: i64) -> LineEvent {
    LineEvent::new(
        LineEventKind::X,
        Frac::from_int(start),
        Frac::from_int(end),
        Beat::zero(),
        Beat::new(2, Frac::zero()).unwrap(),
        Easing::Linear,
    )
    .unwrap()
}

#[test]
fn test_remove_note_command() {
    let mut world = ChartGraph::new();
    let mut history = History::new();

    let line = world.spawn_line();
    let note = Note::new(NoteKind::Tap, true, Beat::zero(), Frac::from_int(0));
    let entity = world.spawn_child(line, Child::Note(note), None).unwrap();

    assert_eq!(note_count(&world), 1);
    history.edit(&mut world, EditorCommand::RemoveNote(RemoveNote::new(entity)));
    assert_eq!(note_count(&world), 0);
    history.undo(&mut world);
    assert_eq!(note_count(&world), 1);
    history.redo(&mut world);
    assert_eq!(note_count(&world), 0);
}

#[test]
fn test_create_note_command() {
    let mut world = ChartGraph::new();
    let mut history = History::new();
    let line = world.spawn_line();
    let note = Note::new(NoteKind::Tap, true, Beat::zero(), Frac::from_int(0));
    assert_eq!(note_count(&world), 0);
    history.edit(&mut world, EditorCommand::CreateNote(CreateNote::new(line, note)));
    assert_eq!(note_count(&world), 1);
    history.undo(&mut world);
    assert_eq!(note_count(&world), 0);
    history.redo(&mut world);
    assert_eq!(note_count(&world), 1);
}

#[test]
fn create_remove_then_undo_both_leaves_line_empty() {
    let mut world = ChartGraph::new();
    let mut history = History::new();
    let line = world.spawn_line();
    assert!(world.children(line).is_empty());

    let mut create = EditorCommand::CreateNote(CreateNote::new(line, tap(3)));
    create.apply(&mut world);
    let created = match create {
        EditorCommand::CreateNote(c) => c.note_entity.unwrap(),
        _ => unreachable!(),
    };
    history.edit(&mut world, EditorCommand::RemoveNote(RemoveNote::new(created)));
    assert!(world.children(line).is_empty());
    assert!(history.undo(&mut world));
    assert_eq!(world.children(line), vec![created]);
    create.reverse(&mut world);
    assert!(world.children(line).is_empty());
}

#[test]
fn create_then_remove_through_history_undone_twice() {
    let mut world = ChartGraph::new();
    let mut history = History::new();
    let line = world.spawn_line();
    history.edit(&mut world, EditorCommand::CreateNote(CreateNote::new(line, tap(1))));
    let created = world.children(line)[0];
    history.edit(&mut world, EditorCommand::RemoveNote(RemoveNote::new(created)));
    assert!(history.undo(&mut world));
    assert!(history.undo(&mut world));
    assert!(world.children(line).is_empty());
    assert!(!history.undo(&mut world));
}

#[test]
fn removed_note_comes_back_under_same_handle_and_parent() {
    let mut world = ChartGraph::new();
    let mut history = History::new();
    let line = world.spawn_line();
    let other = world.spawn_line();
    let entity = world.spawn_child(other, Child::Note(tap(5)), None).unwrap();
    history.edit(&mut world, EditorCommand::RemoveNote(RemoveNote::new(entity)));
    assert_eq!(world.get(entity), None);
    history.undo(&mut world);
    assert_eq!(
        world.get(entity),
        Some(Node::Child { parent: other, child: Child::Note(tap(5)) })
    );
    assert!(world.children(line).is_empty());
    assert_eq!(world.children(other), vec![entity]);
}

#[test]
fn edit_note_undo_restores_previous_data() {
    let mut world = ChartGraph::new();
    let mut history = History::new();
    let line = world.spawn_line();
    let entity = world.spawn_child(line, Child::Note(tap(1)), None).unwrap();
    history.edit(&mut world, EditorCommand::EditNote(EditNote::new(entity, tap(1), tap(9))));
    assert_eq!(world.child_at(entity, ChildKind::Note), Some((line, Child::Note(tap(9)))));
    history.undo(&mut world);
    assert_eq!(world.child_at(entity, ChildKind::Note), Some((line, Child::Note(tap(1)))));
    history.redo(&mut world);
    assert_eq!(world.child_at(entity, ChildKind::Note), Some((line, Child::Note(tap(9)))));
}

#[test]
fn edit_then_undo_then_redo_reproduces_state() {
    let mut world = ChartGraph::new();
    let mut history = History::new();
    let line = world.spawn_line();
    history.edit(&mut world, EditorCommand::CreateEvent(CreateEvent::new(line, event(0, 4))));
    let after: Vec<_> = (0..world.len()).map(|i| world.get(Entity { index: i })).collect();
    history.undo(&mut world);
    assert!(world.children(line).is_empty());
    history.redo(&mut world);
    let again: Vec<_> = (0..world.len()).map(|i| world.get(Entity { index: i })).collect();
    assert_eq!(after, again);
    assert_eq!(history.undo_len(), 1);
    assert_eq!(history.redo_len(), 0);
}

#[test]
fn many_edits_then_as_many_undos_restore_graph() {
    let mut world = ChartGraph::new();
    let mut history = History::new();
    let line = world.spawn_line();
    let n1 = world.spawn_child(line, Child::Note(tap(1)), None).unwrap();
    let e1 = world.spawn_child(line, Child::Event(event(0, 1)), None).unwrap();
    let before: Vec<_> = (0..world.len()).map(|i| world.get(Entity { index: i })).collect();

    let commands = vec![
        EditorCommand::EditNote(EditNote::new(n1, tap(1), tap(2))),
        EditorCommand::CreateNote(CreateNote::new(line, tap(7))),
        EditorCommand::RemoveEvent(RemoveEvent::new(e1)),
        EditorCommand::RemoveNote(RemoveNote::new(n1)),
        EditorCommand::EditEvent(EditEvent::new(e1, event(0, 1), event(3, 3))),
        EditorCommand::CreateEvent(CreateEvent::new(line, event(5, 6))),
    ];
    let n = commands.len();
    for c in commands {
        history.edit(&mut world, c);
    }
    for _ in 0..n {
        assert!(history.undo(&mut world));
    }
    let after: Vec<_> = (0..before.len()).map(|i| world.get(Entity { index: i })).collect();
    assert_eq!(before, after);
    for i in before.len()..world.len() {
        assert_eq!(world.get(Entity { index: i }), None);
    }
}

#[test]
fn stale_targets_are_ignored() {
    let mut world = ChartGraph::new();
    let line = world.spawn_line();
    let mut remove = EditorCommand::RemoveNote(RemoveNote::new(Entity { index: 7 }));
    remove.apply(&mut world);
    remove.reverse(&mut world);
    assert_eq!(world.len(), 1);
    let mut create = EditorCommand::CreateNote(CreateNote::new(Entity { index: 9 }, tap(1)));
    create.apply(&mut world);
    assert_eq!(world.len(), 1);
    let mut edit = EditorCommand::EditNote(EditNote::new(line, tap(1), tap(2)));
    edit.apply(&mut world);
    assert_eq!(world.get(line), Some(Node::Line));
    let _ = frac(1, 2);
}

#[test]
fn remove_event_does_not_touch_notes() {
    let mut world = ChartGraph::new();
    let line = world.spawn_line();
    let n = world.spawn_child(line, Child::Note(tap(1)), None).unwrap();
    let mut remove = EditorCommand::RemoveEvent(RemoveEvent::new(n));
    remove.apply(&mut world);
    assert_eq!(world.children(line), vec![n]);
}

#[test]
fn create_on_missing_line_keeps_recorded_handle() {
    let mut world = ChartGraph::new();
    let line = world.spawn_line();
    let other = world.spawn_line();
    let kept = world.spawn_child(other, Child::Note(tap(4)), None).unwrap();
    let mut create = EditorCommand::CreateNote(CreateNote {
        line_entity: Entity { index: 42 },
        note: tap(1),
        note_entity: Some(kept),
    });
    create.apply(&mut world);
    match create {
        EditorCommand::CreateNote(c) => assert_eq!(c.note_entity, Some(kept)),
        _ => unreachable!(),
    }
    assert_eq!(world.len(), 3);
    create.reverse(&mut world);
    assert_eq!(world.children(other), vec![kept]);
    assert!(world.children(line).is_empty());
}
