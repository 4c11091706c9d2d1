//! A linear undo/redo history of edit commands.
use vstd::prelude::*;

use crate::command::{
    apply_spec, lemma_apply_wf, lemma_reapply_after_reverse, lemma_reverse_undoes_apply,
    lemma_reverse_wf, reverse_spec, EditorCommand,
};
use crate::graph::{equiv, graph_wf, slot, ChartGraph, Slots};

verus! {

/// Applied commands (oldest first) and undone ones (most recently undone last).
pub type Stacks = (Seq<EditorCommand>, Seq<EditorCommand>);

pub open spec fn edit_spec(h: Stacks, g: Slots, c: EditorCommand) -> (Stacks, Slots) {
    let (c1, g1) = apply_spec(c, g);
    ((h.0.push(c1), Seq::empty()), g1)
}

pub open spec fn undo_spec(h: Stacks, g: Slots) -> (Stacks, Slots) {
    if h.0.len() == 0 {
        (h, g)
    } else {
        let (c1, g1) = reverse_spec(h.0.last(), g);
        ((h.0.drop_last(), h.1.push(c1)), g1)
    }
}

pub open spec fn redo_spec(h: Stacks, g: Slots) -> (Stacks, Slots) {
    if h.1.len() == 0 {
        (h, g)
    } else {
        let (c1, g1) = apply_spec(h.1.last(), g);
        ((h.0.push(c1), h.1.drop_last()), g1)
    }
}

/// `edit` with each command of `cs`, in order.
pub open spec fn edits_spec(h: Stacks, g: Slots, cs: Seq<EditorCommand>) -> (Stacks, Slots)
    decreases cs.len(),
{
    if cs.len() == 0 {
        (h, g)
    } else {
        let (h1, g1) = edit_spec(h, g, cs[0]);
        edits_spec(h1, g1, cs.drop_first())
    }
}

/// `undo`, `n` times.
pub open spec fn undos_spec(h: Stacks, g: Slots, n: nat) -> (Stacks, Slots)
    decreases n,
{
    if n == 0 {
        (h, g)
    } else {
        let (h1, g1) = undo_spec(h, g);
        undos_spec(h1, g1, (n - 1) as nat)
    }
}

/// The undo/redo history. Every change to a chart graph goes through `edit`.
pub struct History {
    done: Vec<EditorCommand>,
    undone: Vec<EditorCommand>,
}

impl View for History {
    type V = Stacks;

    closed spec fn view(&self) -> Stacks {
        (self.done@, self.undone@)
    }
}

impl History {
    pub fn new() -> (r: History)
        ensures
            r@ == (Seq::<EditorCommand>::empty(), Seq::<EditorCommand>::empty()),
    {
        History { done: Vec::new(), undone: Vec::new() }
    }

    /// Applies `c` to `g` and records it; the redo stack is cleared.
    pub fn edit(&mut self, g: &mut ChartGraph, c: EditorCommand)
        ensures
            graph_wf(old(g)@) ==> graph_wf(final(g)@),
            (final(self)@, final(g)@) == edit_spec(old(self)@, old(g)@, c),
    {
        let mut c = c;
        c.apply(g);
        self.done.push(c);
        self.undone = Vec::new();
    }

    /// Reverses the most recent command; `false` when there is none.
    pub fn undo(&mut self, g: &mut ChartGraph) -> (r: bool)
        ensures
            graph_wf(old(g)@) ==> graph_wf(final(g)@),
            (final(self)@, final(g)@) == undo_spec(old(self)@, old(g)@),
            r == (old(self)@.0.len() > 0),
    {
        match self.done.pop() {
            Some(c) => {
                let mut c = c;
                c.reverse(g);
                self.undone.push(c);
                true
            },
            None => false,
        }
    }

    /// Applies again the most recently undone command; `false` when there is none.
    pub fn redo(&mut self, g: &mut ChartGraph) -> (r: bool)
        ensures
            graph_wf(old(g)@) ==> graph_wf(final(g)@),
            (final(self)@, final(g)@) == redo_spec(old(self)@, old(g)@),
            r == (old(self)@.1.len() > 0),
    {
        match self.undone.pop() {
            Some(c) => {
                let mut c = c;
                c.apply(g);
                self.done.push(c);
                true
            },
            None => false,
        }
    }

    /// Number of commands that can be undone.
    pub fn undo_len(&self) -> (r: usize)
        ensures
            r == self@.0.len(),
    {
        self.done.len()
    }

    /// Number of commands that can be redone.
    pub fn redo_len(&self) -> (r: usize)
        ensures
            r == self@.1.len(),
    {
        self.undone.len()
    }
}

proof fn lemma_undos_split(h: Stacks, g: Slots, n: nat)
    requires
        n > 0,
    ensures
        undos_spec(h, g, n) == undo_spec(undos_spec(h, g, (n - 1) as nat).0, undos_spec(h, g, (n - 1) as nat).1),
    decreases n,
{
    let (h1, g1) = undo_spec(h, g);
    assert(undos_spec(h, g, n) == undos_spec(h1, g1, (n - 1) as nat));
    if n > 1 {
        lemma_undos_split(h1, g1, (n - 1) as nat);
        assert(undos_spec(h, g, (n - 1) as nat) == undos_spec(h1, g1, (n - 2) as nat));
    } else {
        assert(undos_spec(h1, g1, 0) == (h1, g1));
        assert(undos_spec(h, g, 0) == (h, g));
    }
}

proof fn lemma_edits_wf(h: Stacks, g: Slots, cs: Seq<EditorCommand>)
    requires
        graph_wf(g),
    ensures
        graph_wf(edits_spec(h, g, cs).1),
        edits_spec(h, g, cs).1.len() >= g.len(),
        edits_spec(h, g, cs).0.0.len() == h.0.len() + cs.len(),
    decreases cs.len(),
{
    if cs.len() > 0 {
        lemma_apply_wf(cs[0], g);
        let (h1, g1) = edit_spec(h, g, cs[0]);
        lemma_edits_wf(h1, g1, cs.drop_first());
    }
}

/// Undoing after edits: a graph equivalent to the state after the edits
/// and no shorter, and the same applied stack, give back after `cs.len()`
/// undos a graph equivalent to the starting one and its applied stack.
proof fn lemma_undo_edits(h: Stacks, g: Slots, cs: Seq<EditorCommand>, hh: Stacks, gg: Slots)
    requires
        graph_wf(g),
        hh.0 == edits_spec(h, g, cs).0.0,
        equiv(gg, edits_spec(h, g, cs).1),
        gg.len() >= edits_spec(h, g, cs).1.len(),
    ensures
        equiv(undos_spec(hh, gg, cs.len()).1, g),
        undos_spec(hh, gg, cs.len()).0.0 == h.0,
        undos_spec(hh, gg, cs.len()).1.len() == gg.len(),
    decreases cs.len(),
{
    if cs.len() == 0 {
        assert forall|i: int| #[trigger] slot(gg, i) == slot(g, i) by {
            assert(slot(gg, i) == slot(edits_spec(h, g, cs).1, i));
        }
    } else {
        let n = cs.len();
        let c = cs[0];
        let (h1, g1) = edit_spec(h, g, c);
        let rest = cs.drop_first();
        lemma_apply_wf(c, g);
        assert(edits_spec(h, g, cs) == edits_spec(h1, g1, rest));
        lemma_undo_edits(h1, g1, rest, hh, gg);
        lemma_undos_split(hh, gg, n);
        let (hm, gm) = undos_spec(hh, gg, (n - 1) as nat);
        assert(hm.0 == h1.0);
        assert(hm.0.last() == apply_spec(c, g).0);
        assert(hm.0.drop_last() =~= h.0);
        lemma_edits_wf(h1, g1, rest);
        lemma_reverse_undoes_apply(c, g, gm);
        lemma_reverse_wf(apply_spec(c, g).0, gm);
    }
}

/// Any sequence of edits followed by as many undos leaves a graph with the
/// same live entities, data and parent links as before, and the same
/// applied stack.
pub proof fn lemma_edits_then_undos(h: Stacks, g: Slots, cs: Seq<EditorCommand>)
    requires
        graph_wf(g),
    ensures
        equiv(undos_spec(edits_spec(h, g, cs).0, edits_spec(h, g, cs).1, cs.len()).1, g),
        undos_spec(edits_spec(h, g, cs).0, edits_spec(h, g, cs).1, cs.len()).0.0 == h.0,
{
    let (he, ge) = edits_spec(h, g, cs);
    lemma_undo_edits(h, g, cs, he, ge);
}

/// `edit`, `undo`, `redo` leaves exactly the graph and history that `edit` left.
pub proof fn lemma_edit_undo_redo(h: Stacks, g: Slots, c: EditorCommand)
    requires
        graph_wf(g),
    ensures
        redo_spec(undo_spec(edit_spec(h, g, c).0, edit_spec(h, g, c).1).0,
            undo_spec(edit_spec(h, g, c).0, edit_spec(h, g, c).1).1) == edit_spec(h, g, c),
{
    let (h1, g1) = edit_spec(h, g, c);
    let (h2, g2) = undo_spec(h1, g1);
    lemma_reapply_after_reverse(c, g);
    assert(h1.0.drop_last() =~= h.0);
    assert(h2.1.drop_last() =~= Seq::<EditorCommand>::empty());
    assert(h2.0.push(apply_spec(h2.1.last(), g2).0) =~= h1.0);
}

} // verus!
