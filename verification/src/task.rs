//! A single to-do item and its ghost form.

use vstd::prelude::*;

verus! {

/// Ghost form of one history entry: the identifier, text and creation time
/// a task had before an update replaced it.
#[verifier::ext_equal]
pub struct SnapshotView {
    pub id: int,
    pub text: Seq<char>,
    pub created_at: int,
}

/// Ghost form of a task: identifier, current text, creation time, and the
/// prior versions, oldest first.
#[verifier::ext_equal]
pub struct TaskView {
    pub id: int,
    pub text: Seq<char>,
    pub created_at: int,
    pub history: Seq<SnapshotView>,
}

/// One to-do item. `history` holds snapshots of the versions an update
/// replaced; a snapshot never carries a history of its own.
pub struct Task {
    pub id: usize,
    pub text: String,
    pub created_at: u64,
    pub history: Vec<Task>,
}

/// The ghost form a task takes when it stands as a history entry: its own
/// (always empty) nested history is dropped.
pub open spec fn snapshot_view(t: Task) -> SnapshotView {
    SnapshotView { id: t.id as int, text: t.text@, created_at: t.created_at as int }
}

impl View for Task {
    type V = TaskView;

    open spec fn view(&self) -> TaskView {
        TaskView {
            id: self.id as int,
            text: self.text@,
            created_at: self.created_at as int,
            history: self.history@.map_values(|h: Task| snapshot_view(h)),
        }
    }
}

impl Task {
    /// Every entry of `history` is itself history-free, so the ghost form
    /// loses nothing by flattening the entries to snapshots.
    pub open spec fn wf(&self) -> bool {
        forall|i: int|
            0 <= i < self.history@.len() ==> (#[trigger] self.history@[i]).history@.len() == 0
    }

    /// Build a fresh task with the given identifier, text and creation
    /// time, and an empty history.
    pub fn new(id: usize, text: String, created_at: u64) -> (t: Task)
        ensures
            t@ == (TaskView {
                id: id as int,
                text: text@,
                created_at: created_at as int,
                history: Seq::<SnapshotView>::empty(),
            }),
            t.wf(),
    {
        let t = Task { id, text, created_at, history: Vec::new() };
        proof {
            assert(t@.history =~= Seq::<SnapshotView>::empty());
        }
        t
    }

    /// Build a second task carrying the same data, so its ghost form is
    /// the same.
    pub fn duplicate(&self) -> (t: Task)
        requires
            self.wf(),
        ensures
            t@ == self@,
            t.wf(),
    {
        let mut history: Vec<Task> = Vec::new();
        let mut i: usize = 0;
        while i < self.history.len()
            invariant
                self.wf(),
                i <= self.history@.len(),
                history@.len() == i,
                forall|j: int|
                    0 <= j < i ==> snapshot_view(#[trigger] history@[j])
                        == snapshot_view(self.history@[j]),
                forall|j: int| 0 <= j < i ==> (#[trigger] history@[j]).history@.len() == 0,
            decreases self.history@.len() - i,
        {
            let h = &self.history[i];
            let copy = Task {
                id: h.id,
                text: h.text.clone(),
                created_at: h.created_at,
                history: Vec::new(),
            };
            history.push(copy);
            i = i + 1;
        }
        let t = Task {
            id: self.id,
            text: self.text.clone(),
            created_at: self.created_at,
            history,
        };
        proof {
            assert(t@.history =~= self@.history);
            assert(t@ =~= self@);
        }
        t
    }
}

/// Flattening to snapshots commutes with appending an entry.
pub proof fn lemma_snapshot_views_push(v: Seq<Task>, t: Task)
    ensures
        v.push(t).map_values(|h: Task| snapshot_view(h))
            == v.map_values(|h: Task| snapshot_view(h)).push(snapshot_view(t)),
{
    assert(v.push(t).map_values(|h: Task| snapshot_view(h))
        =~= v.map_values(|h: Task| snapshot_view(h)).push(snapshot_view(t)));
}

} // verus!
