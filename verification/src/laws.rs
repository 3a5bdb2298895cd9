//! Store-wide laws: facts that span several operations, stated over the
//! ghost forms of the store and proved once for every state and input.

use vstd::prelude::*;
use crate::store::{StoreView, create_step, created_task, lookup, remove_step, store_view_wf};
use crate::task::TaskView;

verus! {

/// The store left behind by a sequence of `create` calls performed in
/// order; each input gives one call's text and creation time.
pub open spec fn creates_after(s: StoreView, inputs: Seq<(Seq<char>, int)>) -> StoreView
    decreases inputs.len(),
{
    if inputs.len() == 0 {
        s
    } else {
        creates_after(create_step(s, inputs[0].0, inputs[0].1), inputs.drop_first())
    }
}

/// The identifiers that the same sequence of `create` calls returns, in
/// call order.
pub open spec fn created_ids(s: StoreView, inputs: Seq<(Seq<char>, int)>) -> Seq<int>
    decreases inputs.len(),
{
    if inputs.len() == 0 {
        Seq::empty()
    } else {
        seq![created_task(s, inputs[0].0, inputs[0].1).id] + created_ids(
            create_step(s, inputs[0].0, inputs[0].1),
            inputs.drop_first(),
        )
    }
}

/// The `i`-th `create` of a sequence returns the identifier the store's
/// generator held at the start, advanced by `i`.
proof fn lemma_created_ids_index(s: StoreView, inputs: Seq<(Seq<char>, int)>, i: int)
    requires
        0 <= i < inputs.len(),
    ensures
        created_ids(s, inputs).len() == inputs.len(),
        created_ids(s, inputs)[i] == s.next_id + i,
    decreases inputs.len(),
{
    lemma_created_ids_len(s, inputs);
    if i > 0 {
        lemma_created_ids_index(create_step(s, inputs[0].0, inputs[0].1), inputs.drop_first(), i - 1);
    }
}

/// A sequence of `create` calls returns one identifier per call.
proof fn lemma_created_ids_len(s: StoreView, inputs: Seq<(Seq<char>, int)>)
    ensures
        created_ids(s, inputs).len() == inputs.len(),
    decreases inputs.len(),
{
    if inputs.len() > 0 {
        lemma_created_ids_len(create_step(s, inputs[0].0, inputs[0].1), inputs.drop_first());
    }
}

/// Identifier uniqueness: whatever the starting store, the identifiers a
/// sequence of `create` calls returns are strictly increasing in call
/// order, and so pairwise distinct.
pub proof fn lemma_create_ids_unique(s: StoreView, inputs: Seq<(Seq<char>, int)>)
    ensures
        created_ids(s, inputs).len() == inputs.len(),
        forall|i: int, j: int|
            0 <= i < j < inputs.len() ==> #[trigger] created_ids(s, inputs)[i]
                < #[trigger] created_ids(s, inputs)[j],
        forall|i: int, j: int|
            0 <= i < inputs.len() && 0 <= j < inputs.len() && i != j ==> #[trigger] created_ids(
                s,
                inputs,
            )[i] != #[trigger] created_ids(s, inputs)[j],
{
    lemma_created_ids_len(s, inputs);
    assert forall|i: int, j: int| 0 <= i < j < inputs.len() implies #[trigger] created_ids(
        s,
        inputs,
    )[i] < #[trigger] created_ids(s, inputs)[j] by {
        lemma_created_ids_index(s, inputs, i);
        lemma_created_ids_index(s, inputs, j);
    }
}

/// Round trip: after a `create`, a `get` of the identifier it returned
/// finds exactly the task it returned, whose text is the given text and
/// whose history is empty.
pub proof fn lemma_create_then_get(s: StoreView, text: Seq<char>, now: int)
    ensures
        lookup(create_step(s, text, now), created_task(s, text, now).id) == Some(
            created_task(s, text, now),
        ),
        created_task(s, text, now).text == text,
        created_task(s, text, now).history.len() == 0,
{
}

/// Remove is terminal: after a successful `remove`, a `get` of the removed
/// identifier finds nothing, and no later sequence of `create` calls ever
/// returns that identifier again.
pub proof fn lemma_remove_terminal(s: StoreView, id: int, inputs: Seq<(Seq<char>, int)>)
    requires
        store_view_wf(s),
        s.tasks.contains_key(id),
    ensures
        lookup(remove_step(s, id), id) == None::<TaskView>,
        forall|i: int|
            0 <= i < inputs.len() ==> #[trigger] created_ids(remove_step(s, id), inputs)[i] != id,
{
    let s1 = remove_step(s, id);
    lemma_created_ids_len(s1, inputs);
    assert forall|i: int| 0 <= i < inputs.len() implies #[trigger] created_ids(s1, inputs)[i]
        != id by {
        lemma_created_ids_index(s1, inputs, i);
    }
}

} // verus!
