use vstd::prelude::*;
use crate::graph::NodeGraph;
use crate::graph::editor::GraphEditor;
use super::Command;

verus! {

/// Undo and redo stacks of executed commands of type `C` (for instance
/// `Box<dyn Command<F>>`).
pub struct CommandHistory<F: Copy, C: Command<F>> {
    undo_stack: Vec<C>,
    redo_stack: Vec<C>,
    marker: core::marker::PhantomData<F>,
}

impl<F: Copy, C: Command<F>> CommandHistory<F, C> {
    /// The commands that can be undone, oldest first.
    pub closed spec fn undo_seq(&self) -> Seq<C> {
        self.undo_stack@
    }

    /// The commands that can be redone, the next one last.
    pub closed spec fn redo_seq(&self) -> Seq<C> {
        self.redo_stack@
    }

    pub fn new() -> (r: Self)
        ensures
            r.undo_seq().len() == 0,
            r.redo_seq().len() == 0,
    {
        CommandHistory { undo_stack: Vec::new(), redo_stack: Vec::new(), marker: core::marker::PhantomData }
    }

    /// Execute `command` on `graph` and push it on the undo stack; the redo
    /// stack is cleared.
    pub fn execute(&mut self, command: C, graph: &mut NodeGraph<F>)
        requires
            old(graph).wf(),
            old(graph).wd().room() >= 1,
        ensures
            final(graph).wf(),
            command.executes(*old(graph), *final(graph)),
            final(self).undo_seq().len() == old(self).undo_seq().len() + 1,
            final(self).undo_seq().drop_last() == old(self).undo_seq(),
            final(self).redo_seq().len() == 0,
    {
        let mut command = command;
        command.execute(graph);
        self.undo_stack.push(command);
        self.redo_stack.clear();
        proof {
            assert(self.undo_seq().drop_last() =~= old(self).undo_seq());
        }
    }

    /// Undo the last executed command and move it to the redo stack.
    /// Returns false, changing nothing, when there is nothing to undo.
    pub fn undo(&mut self, graph: &mut NodeGraph<F>) -> (r: bool)
        requires
            old(graph).wf(),
            old(self).undo_seq().len() > 0 ==> old(graph).wd().room() >= 1,
        ensures
            final(graph).wf(),
            r == (old(self).undo_seq().len() > 0),
            r ==> old(self).undo_seq().last().undoes(*old(graph), *final(graph)),
            r ==> final(self).undo_seq() == old(self).undo_seq().drop_last(),
            r ==> final(self).redo_seq().len() == old(self).redo_seq().len() + 1,
            r ==> final(self).redo_seq().drop_last() == old(self).redo_seq(),
            !r ==> final(self).undo_seq() == old(self).undo_seq() && final(self).redo_seq() == old(self).redo_seq()
                && *final(graph) == *old(graph),
    {
        match self.undo_stack.pop() {
            Some(command) => {
                let mut command = command;
                command.undo(graph);
                self.redo_stack.push(command);
                proof {
                    assert(self.redo_seq().drop_last() =~= old(self).redo_seq());
                }
                true
            },
            None => false,
        }
    }

    /// Re-execute the last undone command and move it back to the undo
    /// stack. Returns false, changing nothing, when there is nothing to redo.
    pub fn redo(&mut self, graph: &mut NodeGraph<F>) -> (r: bool)
        requires
            old(graph).wf(),
            old(self).redo_seq().len() > 0 ==> old(graph).wd().room() >= 1,
        ensures
            final(graph).wf(),
            r == (old(self).redo_seq().len() > 0),
            r ==> old(self).redo_seq().last().executes(*old(graph), *final(graph)),
            r ==> final(self).redo_seq() == old(self).redo_seq().drop_last(),
            r ==> final(self).undo_seq().len() == old(self).undo_seq().len() + 1,
            r ==> final(self).undo_seq().drop_last() == old(self).undo_seq(),
            !r ==> final(self).undo_seq() == old(self).undo_seq() && final(self).redo_seq() == old(self).redo_seq()
                && *final(graph) == *old(graph),
    {
        match self.redo_stack.pop() {
            Some(command) => {
                let mut command = command;
                command.execute(graph);
                self.undo_stack.push(command);
                proof {
                    assert(self.undo_seq().drop_last() =~= old(self).undo_seq());
                }
                true
            },
            None => false,
        }
    }

    pub fn can_undo(&self) -> (r: bool)
        ensures
            r == (self.undo_seq().len() > 0),
    {
        self.undo_stack.len() > 0
    }

    pub fn can_redo(&self) -> (r: bool)
        ensures
            r == (self.redo_seq().len() > 0),
    {
        self.redo_stack.len() > 0
    }

    /// Record a command whose effect was already applied to the graph; the
    /// redo stack is cleared.
    pub fn push_already_executed(&mut self, command: C)
        ensures
            final(self).undo_seq() == old(self).undo_seq().push(command),
            final(self).redo_seq().len() == 0,
    {
        self.undo_stack.push(command);
        self.redo_stack.clear();
    }

    pub fn undo_count(&self) -> (r: usize)
        ensures
            r == self.undo_seq().len(),
    {
        self.undo_stack.len()
    }

    pub fn redo_count(&self) -> (r: usize)
        ensures
            r == self.redo_seq().len(),
    {
        self.redo_stack.len()
    }
}

impl<F: Copy, C: Command<F>> Default for CommandHistory<F, C> {
    fn default() -> (r: Self)
        ensures
            r.undo_seq().len() == 0,
            r.redo_seq().len() == 0,
    {
        CommandHistory::new()
    }
}

/// Snapshot-based undo: `save` records a copy of the editor before an edit,
/// `undo` brings the last copy back and keeps the current state for `redo`.
pub struct UndoHistory<F: Copy> {
    undo_stack: Vec<GraphEditor<F>>,
    redo_stack: Vec<GraphEditor<F>>,
}

impl<F: Copy + Default> UndoHistory<F> {
    /// The saved states, oldest first.
    pub closed spec fn undo_states(&self) -> Seq<GraphEditor<F>> {
        self.undo_stack@
    }

    /// The states that redo brings back, the next one last.
    pub closed spec fn redo_states(&self) -> Seq<GraphEditor<F>> {
        self.redo_stack@
    }

    /// Every stored state is a well-formed editor.
    pub open spec fn wf(&self) -> bool {
        &&& forall|i: int| 0 <= i < self.undo_states().len() ==> (#[trigger] self.undo_states()[i]).wf()
        &&& forall|i: int| 0 <= i < self.redo_states().len() ==> (#[trigger] self.redo_states()[i]).wf()
    }

    pub fn new() -> (r: Self)
        ensures
            r.wf(),
            r.undo_states().len() == 0,
            r.redo_states().len() == 0,
    {
        UndoHistory { undo_stack: Vec::new(), redo_stack: Vec::new() }
    }

    /// Record the state of `editor` before an edit; the redo stack is
    /// cleared.
    pub fn save(&mut self, editor: &GraphEditor<F>)
        requires
            old(self).wf(),
            editor.wf(),
        ensures
            final(self).wf(),
            final(self).undo_states().len() == old(self).undo_states().len() + 1,
            final(self).undo_states().drop_last() == old(self).undo_states(),
            final(self).undo_states().last().same_content(editor),
            final(self).redo_states().len() == 0,
    {
        self.undo_stack.push(editor.duplicate());
        self.redo_stack.clear();
        proof {
            assert(self.undo_states().drop_last() =~= old(self).undo_states());
        }
    }

    /// Bring back the last saved state, keeping the current one for redo.
    /// Returns false, changing nothing, when nothing was saved.
    pub fn undo(&mut self, editor: &mut GraphEditor<F>) -> (r: bool)
        requires
            old(self).wf(),
            old(editor).wf(),
        ensures
            final(self).wf(),
            final(editor).wf(),
            r == (old(self).undo_states().len() > 0),
            r ==> *final(editor) == old(self).undo_states().last(),
            r ==> final(self).undo_states() == old(self).undo_states().drop_last(),
            r ==> final(self).redo_states() == old(self).redo_states().push(*old(editor)),
            !r ==> *final(self) == *old(self) && *final(editor) == *old(editor),
    {
        if self.undo_stack.len() == 0 {
            return false;
        }
        let ghost a0 = self.undo_stack@;
        let ghost b0 = self.redo_stack@;
        let state = self.undo_stack.pop().unwrap();
        let mut current = state;
        std::mem::swap(editor, &mut current);
        self.redo_stack.push(current);
        proof {
            assert(a0[a0.len() - 1] == old(self).undo_states()[a0.len() - 1] || a0[a0.len() - 1] == old(self).redo_states()[a0.len() - 1]);
            assert forall|i: int| 0 <= i < self.undo_stack@.len() implies (#[trigger] self.undo_stack@[i]).wf() by {
                assert(self.undo_stack@[i] == a0[i]);
                assert(old(self).undo_states()[i].wf());
            }
            assert forall|i: int| 0 <= i < self.redo_stack@.len() implies (#[trigger] self.redo_stack@[i]).wf() by {
                if i < b0.len() {
                    assert(self.redo_stack@[i] == b0[i]);
                    assert(old(self).redo_states()[i].wf());
                } else {
                    assert(self.redo_stack@[i] == *old(editor));
                }
            }
        }
        true
    }

    /// Bring back the last undone state, saving the current one for undo.
    /// Returns false, changing nothing, when nothing was undone.
    pub fn redo(&mut self, editor: &mut GraphEditor<F>) -> (r: bool)
        requires
            old(self).wf(),
            old(editor).wf(),
        ensures
            final(self).wf(),
            final(editor).wf(),
            r == (old(self).redo_states().len() > 0),
            r ==> *final(editor) == old(self).redo_states().last(),
            r ==> final(self).redo_states() == old(self).redo_states().drop_last(),
            r ==> final(self).undo_states() == old(self).undo_states().push(*old(editor)),
            !r ==> *final(self) == *old(self) && *final(editor) == *old(editor),
    {
        if self.redo_stack.len() == 0 {
            return false;
        }
        let ghost a0 = self.redo_stack@;
        let ghost b0 = self.undo_stack@;
        let state = self.redo_stack.pop().unwrap();
        let mut current = state;
        std::mem::swap(editor, &mut current);
        self.undo_stack.push(current);
        proof {
            assert(a0[a0.len() - 1] == old(self).undo_states()[a0.len() - 1] || a0[a0.len() - 1] == old(self).redo_states()[a0.len() - 1]);
            assert forall|i: int| 0 <= i < self.redo_stack@.len() implies (#[trigger] self.redo_stack@[i]).wf() by {
                assert(self.redo_stack@[i] == a0[i]);
                assert(old(self).redo_states()[i].wf());
            }
            assert forall|i: int| 0 <= i < self.undo_stack@.len() implies (#[trigger] self.undo_stack@[i]).wf() by {
                if i < b0.len() {
                    assert(self.undo_stack@[i] == b0[i]);
                    assert(old(self).undo_states()[i].wf());
                } else {
                    assert(self.undo_stack@[i] == *old(editor));
                }
            }
        }
        true
    }

    pub fn can_undo(&self) -> (r: bool)
        ensures
            r == (self.undo_states().len() > 0),
    {
        self.undo_stack.len() > 0
    }

    pub fn can_redo(&self) -> (r: bool)
        ensures
            r == (self.redo_states().len() > 0),
    {
        self.redo_stack.len() > 0
    }
}

} // verus!
