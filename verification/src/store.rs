//! The task store: live tasks keyed by identifier, together with the
//! identifier generator that feeds it.

use vstd::prelude::*;
use vstd::map::*;
use crate::task::{Task, TaskView, SnapshotView, lemma_snapshot_views_push};

verus! {

/// Ghost form of the whole store: the live tasks keyed by identifier, and
/// the identifier the generator will hand out next.
#[verifier::ext_equal]
pub struct StoreView {
    pub tasks: Map<int, TaskView>,
    pub next_id: int,
}

/// Every live identifier is positive and below the identifier the
/// generator will hand out next.
pub open spec fn store_view_wf(s: StoreView) -> bool {
    &&& 1 <= s.next_id
    &&& forall|id: int| s.tasks.contains_key(id) ==> 1 <= id < s.next_id
}

/// The task a `create` with this text and creation time returns, started
/// from store `s`.
pub open spec fn created_task(s: StoreView, text: Seq<char>, now: int) -> TaskView {
    TaskView { id: s.next_id, text, created_at: now, history: Seq::empty() }
}

/// The store after a `create` with this text and creation time.
pub open spec fn create_step(s: StoreView, text: Seq<char>, now: int) -> StoreView {
    StoreView {
        tasks: s.tasks.insert(s.next_id, created_task(s, text, now)),
        next_id: s.next_id + 1,
    }
}

/// What `get` sees for `id` in store `s`.
pub open spec fn lookup(s: StoreView, id: int) -> Option<TaskView> {
    if s.tasks.contains_key(id) {
        Some(s.tasks[id])
    } else {
        None
    }
}

/// The task that replaces `t` after an update: the same identifier and
/// creation time, the new text, and the replaced version appended to the
/// history.
pub open spec fn updated_task(t: TaskView, text: Seq<char>) -> TaskView {
    TaskView {
        id: t.id,
        text,
        created_at: t.created_at,
        history: t.history.push(
            SnapshotView { id: t.id, text: t.text, created_at: t.created_at },
        ),
    }
}

/// The store after a successful `update` of `id`.
pub open spec fn update_step(s: StoreView, id: int, text: Seq<char>) -> StoreView {
    StoreView { tasks: s.tasks.insert(id, updated_task(s.tasks[id], text)), next_id: s.next_id }
}

/// The store after a successful `remove` of `id`.
pub open spec fn remove_step(s: StoreView, id: int) -> StoreView {
    StoreView { tasks: s.tasks.remove(id), next_id: s.next_id }
}

/// Outcome reported when an operation names an identifier with no live
/// task.
#[derive(Clone, Copy, Debug, PartialEq, Eq, Structural)]
pub enum StoreError {
    NotFound,
}

/// Hands out strictly increasing identifiers, starting at 1, for the life
/// of the store that owns it.
pub struct IdentifierGenerator {
    next: usize,
}

impl IdentifierGenerator {
    /// The identifier the next call of `next_id` will return.
    pub closed spec fn spec_next(&self) -> int {
        self.next as int
    }

    pub fn new() -> (g: IdentifierGenerator)
        ensures
            g.spec_next() == 1,
    {
        IdentifierGenerator { next: 1 }
    }

    /// Whether another identifier can still be handed out on this
    /// machine.
    pub fn can_advance(&self) -> (b: bool)
        ensures
            b == (self.spec_next() < usize::MAX),
    {
        self.next < usize::MAX
    }

    /// Return the current identifier and advance, so no two calls ever
    /// return the same value.
    pub fn next_id(&mut self) -> (id: usize)
        requires
            old(self).spec_next() < usize::MAX,
        ensures
            id == old(self).spec_next(),
            final(self).spec_next() == old(self).spec_next() + 1,
    {
        let id = self.next;
        self.next = self.next + 1;
        id
    }
}

/// The map a sequence of tasks stands for, keyed by identifier; a later
/// entry would win, though a well-formed store never holds two entries
/// with one identifier.
spec fn map_of(s: Seq<Task>) -> Map<int, TaskView>
    decreases s.len(),
{
    if s.len() == 0 {
        Map::empty()
    } else {
        map_of(s.drop_last()).insert(s.last().id as int, s.last()@)
    }
}

/// No two entries share an identifier.
spec fn ids_unique(s: Seq<Task>) -> bool {
    forall|i: int, j: int| 0 <= i < j < s.len() ==> s[i].id != s[j].id
}

/// An identifier is a key of `map_of(s)` exactly when some entry of `s`
/// carries it.
proof fn lemma_map_of_contains(s: Seq<Task>, k: int)
    ensures
        map_of(s).contains_key(k) <==> exists|i: int| 0 <= i < s.len() && s[i].id == k,
    decreases s.len(),
{
    if s.len() > 0 {
        lemma_map_of_contains(s.drop_last(), k);
        if s.last().id == k {
            assert(s[s.len() - 1].id == k);
        } else if map_of(s).contains_key(k) {
            let i = choose|i: int| 0 <= i < s.drop_last().len() && s.drop_last()[i].id == k;
            assert(s[i].id == k);
        } else if exists|i: int| 0 <= i < s.len() && s[i].id == k {
            let i = choose|i: int| 0 <= i < s.len() && s[i].id == k;
            assert(s.drop_last()[i].id == k);
        }
    }
}

/// With unique identifiers, `map_of(s)` maps each entry's identifier to
/// that entry's ghost form.
proof fn lemma_map_of_index(s: Seq<Task>, i: int)
    requires
        ids_unique(s),
        0 <= i < s.len(),
    ensures
        map_of(s).contains_key(s[i].id as int),
        map_of(s)[s[i].id as int] == s[i]@,
    decreases s.len(),
{
    if i < s.len() - 1 {
        assert(ids_unique(s.drop_last())) by {
            assert(forall|a: int, b: int|
                0 <= a < b < s.drop_last().len() ==> s.drop_last()[a].id != s.drop_last()[b].id);
        }
        lemma_map_of_index(s.drop_last(), i);
        assert(s.drop_last()[i] == s[i]);
        assert(s[i].id != s.last().id);
    }
}

/// Appending an entry inserts its ghost form under its identifier.
proof fn lemma_map_of_push(s: Seq<Task>, t: Task)
    ensures
        map_of(s.push(t)) == map_of(s).insert(t.id as int, t@),
{
    assert(s.push(t).drop_last() =~= s);
    assert(s.push(t).last() == t);
}

/// With unique identifiers, dropping the entry at `i` removes exactly its
/// key from the map.
proof fn lemma_map_of_remove(s: Seq<Task>, i: int)
    requires
        ids_unique(s),
        0 <= i < s.len(),
    ensures
        map_of(s.remove(i)) == map_of(s).remove(s[i].id as int),
    decreases s.len(),
{
    s.remove_ensures(i);
    let k = s[i].id as int;
    if i == s.len() - 1 {
        assert(s.remove(i) =~= s.drop_last());
        lemma_map_of_contains(s.drop_last(), k);
        assert(!map_of(s.drop_last()).contains_key(k)) by {
            if map_of(s.drop_last()).contains_key(k) {
                let j = choose|j: int| 0 <= j < s.drop_last().len() && s.drop_last()[j].id == k;
                assert(s[j].id == s[i].id);
            }
        }
        assert(map_of(s.drop_last()) =~= map_of(s).remove(k));
    } else {
        assert(ids_unique(s.drop_last())) by {
            assert forall|a: int, b: int| 0 <= a < b < s.drop_last().len() implies s.drop_last()[a].id
                != s.drop_last()[b].id by {
                assert(s.drop_last()[a] == s[a]);
                assert(s.drop_last()[b] == s[b]);
            }
        }
        s.drop_last().remove_ensures(i);
        assert(s.remove(i).drop_last() =~= s.drop_last().remove(i));
        assert(s.remove(i).last() == s.last());
        lemma_map_of_remove(s.drop_last(), i);
        assert(s.drop_last()[i] == s[i]);
        let lid = s.last().id as int;
        assert(s.last().id != s[i].id);
        assert(map_of(s.drop_last()).remove(k).insert(lid, s.last()@) =~= map_of(
            s.drop_last(),
        ).insert(lid, s.last()@).remove(k));
    }
}

/// The authoritative set of live tasks, keyed by identifier, with the
/// generator that assigns identifiers at creation.
pub struct TaskStore {
    tasks: Vec<Task>,
    gen: IdentifierGenerator,
}

impl View for TaskStore {
    type V = StoreView;

    closed spec fn view(&self) -> StoreView {
        StoreView { tasks: map_of(self.tasks@), next_id: self.gen.spec_next() }
    }
}

impl TaskStore {
    /// Well-formed: identifiers are unique, positive and below the
    /// generator's next value, and every task's history entries are
    /// themselves history-free.
    pub closed spec fn wf(&self) -> bool {
        &&& 1 <= self.gen.spec_next()
        &&& ids_unique(self.tasks@)
        &&& forall|i: int|
            0 <= i < self.tasks@.len() ==> 1 <= (#[trigger] self.tasks@[i]).id < self.gen.spec_next()
        &&& forall|i: int| 0 <= i < self.tasks@.len() ==> (#[trigger] self.tasks@[i]).wf()
    }

    /// An empty store whose generator starts at 1.
    pub fn new() -> (s: TaskStore)
        ensures
            s.wf(),
            s@ == (StoreView { tasks: Map::<int, TaskView>::empty(), next_id: 1 }),
    {
        TaskStore { tasks: Vec::new(), gen: IdentifierGenerator::new() }
    }

    /// The position of the entry carrying `id`, if any entry does.
    fn find_index(&self, id: usize) -> (r: Option<usize>)
        ensures
            (match r {
                Some(i) => i < self.tasks@.len() && self.tasks@[i as int].id == id,
                None => forall|j: int|
                    0 <= j < self.tasks@.len() ==> (#[trigger] self.tasks@[j]).id != id,
            }),
    {
        let n = self.tasks.len();
        let mut i: usize = 0;
        while i < n
            invariant
                n == self.tasks@.len(),
                i <= n,
                forall|j: int| 0 <= j < i ==> (#[trigger] self.tasks@[j]).id != id,
            decreases n - i,
        {
            if self.tasks[i].id == id {
                return Some(i);
            }
            i = i + 1;
        }
        None
    }

    /// A snapshot of every live task: one copy per live identifier, in no
    /// fixed order.
    pub fn list(&self) -> (r: Vec<Task>)
        requires
            self.wf(),
        ensures
            forall|i: int|
                0 <= i < r@.len() ==> self@.tasks.contains_key((#[trigger] r@[i])@.id)
                    && self@.tasks[r@[i]@.id] == r@[i]@ && r@[i].wf(),
            forall|i: int, j: int| 0 <= i < j < r@.len() ==> r@[i]@.id != r@[j]@.id,
            forall|k: int|
                self@.tasks.contains_key(k) ==> exists|i: int|
                    0 <= i < r@.len() && (#[trigger] r@[i])@.id == k,
    {
        let n = self.tasks.len();
        let mut r: Vec<Task> = Vec::new();
        let mut i: usize = 0;
        while i < n
            invariant
                self.wf(),
                n == self.tasks@.len(),
                i <= n,
                r@.len() == i,
                forall|j: int| 0 <= j < i ==> (#[trigger] r@[j])@ == self.tasks@[j]@,
                forall|j: int| 0 <= j < i ==> (#[trigger] r@[j]).wf(),
            decreases n - i,
        {
            let copy = self.tasks[i].duplicate();
            r.push(copy);
            i = i + 1;
        }
        proof {
            assert forall|j: int| 0 <= j < r@.len() implies self@.tasks.contains_key((
            #[trigger] r@[j])@.id) && self@.tasks[r@[j]@.id] == r@[j]@ by {
                lemma_map_of_index(self.tasks@, j);
            }
            assert forall|a: int, b: int| 0 <= a < b < r@.len() implies (#[trigger] r@[a])@.id != (
            #[trigger] r@[b])@.id by {
                assert(self.tasks@[a].id != self.tasks@[b].id);
            }
            assert forall|k: int| self@.tasks.contains_key(k) implies exists|j: int|
                0 <= j < r@.len() && (#[trigger] r@[j])@.id == k by {
                lemma_map_of_contains(self.tasks@, k);
                let j = choose|j: int| 0 <= j < self.tasks@.len() && self.tasks@[j].id == k;
                assert(r@[j]@.id == k);
            }
        }
        r
    }

    /// Read-only lookup of the live task at `id`, if any.
    pub fn get(&self, id: usize) -> (r: Option<&Task>)
        requires
            self.wf(),
        ensures
            (match r {
                Some(t) => lookup(self@, id as int) == Some(t@) && t.wf(),
                None => lookup(self@, id as int) == None::<TaskView>,
            }),
    {
        match self.find_index(id) {
            Some(i) => {
                proof {
                    lemma_map_of_index(self.tasks@, i as int);
                }
                Some(&self.tasks[i])
            },
            None => {
                proof {
                    lemma_map_of_contains(self.tasks@, id as int);
                }
                None
            },
        }
    }

    /// Whether the generator still has an identifier to hand out, so that
    /// a caller outside verified code can guard `create`.
    pub fn can_create(&self) -> (b: bool)
        ensures
            b == (self@.next_id < usize::MAX),
    {
        self.gen.can_advance()
    }

    /// Create a task: allocate the next identifier, record `now` as the
    /// creation time, insert the task with an empty history, and return a
    /// copy of it.
    pub fn create(&mut self, text: String, now: u64) -> (t: Task)
        requires
            old(self).wf(),
            old(self)@.next_id < usize::MAX,
        ensures
            final(self).wf(),
            t@ == created_task(old(self)@, text@, now as int),
            t.wf(),
            final(self)@ == create_step(old(self)@, text@, now as int),
    {
        let ghost old_view = self@;
        let id = self.gen.next_id();
        let new_task = Task::new(id, text, now);
        let t = new_task.duplicate();
        let ghost old_seq = self.tasks@;
        proof {
            lemma_map_of_push(old_seq, new_task);
        }
        self.tasks.push(new_task);
        proof {
            assert(self.tasks@ == old_seq.push(new_task));
            assert(self@.tasks =~= create_step(old_view, text@, now as int).tasks);
            assert(self@ =~= create_step(old_view, text@, now as int));
            assert forall|a: int, b: int| 0 <= a < b < self.tasks@.len() implies
                self.tasks@[a].id != self.tasks@[b].id by {
                if b == self.tasks@.len() - 1 {
                    assert(old_seq[a].id < id);
                }
            }
        }
        t
    }

    /// Delete the task at `id` and hand it back; `NotFound`, and no
    /// change, when no live task carries `id`.
    pub fn remove(&mut self, id: usize) -> (r: Result<Task, StoreError>)
        requires
            old(self).wf(),
        ensures
            final(self).wf(),
            (match r {
                Ok(t) => old(self)@.tasks.contains_key(id as int) && t@ == old(self)@.tasks[id as int]
                    && t.wf() && final(self)@ == remove_step(old(self)@, id as int),
                Err(e) => e == StoreError::NotFound && !old(self)@.tasks.contains_key(id as int)
                    && final(self)@ == old(self)@,
            }),
    {
        let ghost old_view = self@;
        let ghost old_seq = self.tasks@;
        match self.find_index(id) {
            Some(i) => {
                proof {
                    lemma_map_of_index(old_seq, i as int);
                    lemma_map_of_remove(old_seq, i as int);
                    old_seq.remove_ensures(i as int);
                }
                let t = self.tasks.remove(i);
                proof {
                    assert(self@ =~= remove_step(old_view, id as int));
                    assert forall|a: int, b: int| 0 <= a < b < self.tasks@.len() implies self.tasks@[a].id
                        != self.tasks@[b].id by {
                        assert(a < i as int ==> self.tasks@[a] == old_seq[a]);
                        assert(a >= i as int ==> self.tasks@[a] == old_seq[a + 1]);
                        assert(b < i as int ==> self.tasks@[b] == old_seq[b]);
                        assert(b >= i as int ==> self.tasks@[b] == old_seq[b + 1]);
                    }
                    assert forall|j: int| 0 <= j < self.tasks@.len() implies 1 <= (
                    #[trigger] self.tasks@[j]).id < self.gen.spec_next() && self.tasks@[j].wf() by {
                        assert(j < i as int ==> self.tasks@[j] == old_seq[j]);
                        assert(j >= i as int ==> self.tasks@[j] == old_seq[j + 1]);
                    }
                }
                Ok(t)
            },
            None => {
                proof {
                    lemma_map_of_contains(old_seq, id as int);
                }
                Err(StoreError::NotFound)
            },
        }
    }

    /// Replace the text of the task at `id`, keeping its identifier and
    /// creation time, and append the replaced version to its history;
    /// `NotFound`, and no change, when no live task carries `id`.
    pub fn update(&mut self, id: usize, new_text: String) -> (r: Result<(), StoreError>)
        requires
            old(self).wf(),
        ensures
            final(self).wf(),
            (match r {
                Ok(done) => old(self)@.tasks.contains_key(id as int)
                    && final(self)@ == update_step(old(self)@, id as int, new_text@),
                Err(e) => e == StoreError::NotFound && !old(self)@.tasks.contains_key(id as int)
                    && final(self)@ == old(self)@,
            }),
    {
        let ghost old_view = self@;
        let ghost old_seq = self.tasks@;
        match self.find_index(id) {
            Some(i) => {
                proof {
                    lemma_map_of_index(old_seq, i as int);
                    lemma_map_of_remove(old_seq, i as int);
                    old_seq.remove_ensures(i as int);
                }
                let old_task = self.tasks.remove(i);
                let ghost old_task_view = old_task@;
                let Task { id: task_id, text: old_text, created_at, history: mut history } =
                    old_task;
                let snap = Task {
                    id: task_id,
                    text: old_text,
                    created_at,
                    history: Vec::new(),
                };
                let ghost history0 = history@;
                proof {
                    lemma_snapshot_views_push(history0, snap);
                }
                history.push(snap);
                let new_task = Task { id: task_id, text: new_text, created_at, history };
                let ghost mid_seq = self.tasks@;
                proof {
                    lemma_map_of_push(mid_seq, new_task);
                    assert(new_task@.history =~= updated_task(old_task_view, new_text@).history);
                    assert(new_task@ =~= updated_task(old_task_view, new_text@));
                }
                self.tasks.push(new_task);
                proof {
                    assert(self@.tasks =~= update_step(old_view, id as int, new_text@).tasks);
                    assert(self@ =~= update_step(old_view, id as int, new_text@));
                    assert forall|a: int, b: int| 0 <= a < b < self.tasks@.len() implies self.tasks@[a].id
                        != self.tasks@[b].id by {
                        if b < self.tasks@.len() - 1 {
                            assert(a < i as int ==> mid_seq[a] == old_seq[a]);
                            assert(a >= i as int ==> mid_seq[a] == old_seq[a + 1]);
                            assert(b < i as int ==> mid_seq[b] == old_seq[b]);
                            assert(b >= i as int ==> mid_seq[b] == old_seq[b + 1]);
                        } else {
                            assert(a < i as int ==> mid_seq[a] == old_seq[a]);
                            assert(a >= i as int ==> mid_seq[a] == old_seq[a + 1]);
                        }
                    }
                    assert forall|j: int| 0 <= j < self.tasks@.len() implies 1 <= (
                    #[trigger] self.tasks@[j]).id < self.gen.spec_next() && self.tasks@[j].wf() by {
                        if j < self.tasks@.len() - 1 {
                            assert(j < i as int ==> mid_seq[j] == old_seq[j]);
                            assert(j >= i as int ==> mid_seq[j] == old_seq[j + 1]);
                        } else {
                            assert(self.tasks@[j] == new_task);
                            assert(old_seq[i as int].wf());
                            assert forall|m: int| 0 <= m < new_task.history@.len() implies (
                            #[trigger] new_task.history@[m]).history@.len() == 0 by {
                                if m < history0.len() {
                                    assert(new_task.history@[m] == history0[m]);
                                } else {
                                    assert(new_task.history@[m] == snap);
                                }
                            }
                        }
                    }
                }
                Ok(())
            },
            None => {
                proof {
                    lemma_map_of_contains(old_seq, id as int);
                }
                Err(StoreError::NotFound)
            },
        }
    }
}

/// Create a brand-new task from the given text and creation time and add
/// it to the store.
pub fn add_new_task_map(tasks: &mut TaskStore, text: String, now: u64)
    requires
        old(tasks).wf(),
        old(tasks)@.next_id < usize::MAX,
    ensures
        final(tasks).wf(),
        final(tasks)@ == create_step(old(tasks)@, text@, now as int),
{
    let _new_task = tasks.create(text, now);
}

/// Read-only lookup of the live task at `id`, as the menu's retrieve
/// option asks for it.
pub fn get_task_by_id_map(id: usize, tasks: &TaskStore) -> (r: Option<&Task>)
    requires
        tasks.wf(),
    ensures
        (match r {
            Some(t) => lookup(tasks@, id as int) == Some(t@) && t.wf(),
            None => lookup(tasks@, id as int) == None::<TaskView>,
        }),
{
    tasks.get(id)
}

/// A well-formed store's ghost form keeps every live identifier positive
/// and below `next_id`.
pub proof fn lemma_wf_view(s: &TaskStore)
    requires
        s.wf(),
    ensures
        store_view_wf(s@),
{
    assert forall|id: int| s@.tasks.contains_key(id) implies 1 <= id < s@.next_id by {
        lemma_map_of_contains(s.tasks@, id);
        let i = choose|i: int| 0 <= i < s.tasks@.len() && s.tasks@[i].id == id;
        assert(1 <= s.tasks@[i].id < s.gen.spec_next());
    }
}

/// Delete the task at `id`, handing it back if it was live.
pub fn remove_task_map(id: usize, tasks: &mut TaskStore) -> (r: Option<Task>)
    requires
        old(tasks).wf(),
    ensures
        final(tasks).wf(),
        (match r {
            Some(t) => old(tasks)@.tasks.contains_key(id as int) && t@ == old(tasks)@.tasks[id
                as int] && t.wf() && final(tasks)@ == remove_step(old(tasks)@, id as int),
            None => !old(tasks)@.tasks.contains_key(id as int) && final(tasks)@ == old(tasks)@,
        }),
{
    match tasks.remove(id) {
        Ok(t) => Some(t),
        Err(_) => None,
    }
}

} // verus!
