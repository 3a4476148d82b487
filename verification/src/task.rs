//! The task entity: a free-form description and a completion flag.

use vstd::prelude::*;

verus! {

/// One to-do item. Its view is the pair of the description's characters and
/// the completion flag; two tasks with equal views are indistinguishable.
#[derive(Debug)]
pub struct Todo {
    pub task: String,
    pub completed: bool,
}

impl View for Todo {
    type V = (Seq<char>, bool);

    open spec fn view(&self) -> (Seq<char>, bool) {
        (self.task@, self.completed)
    }
}

impl Todo {
    /// A freshly created task is pending.
    pub fn new(task: String) -> (t: Todo)
        ensures
            t@ == (task@, false),
    {
        Todo { task, completed: false }
    }
}

/// The views of a sequence of tasks, in order.
pub open spec fn tasks_view(ts: Seq<Todo>) -> Seq<(Seq<char>, bool)> {
    ts.map_values(|t: Todo| t@)
}

/// A description that can survive the persisted line format: it contains
/// neither the field delimiter nor a line break.
pub open spec fn description_clean(d: Seq<char>) -> bool {
    !d.contains('|') && !d.contains('\n')
}

/// Every description in the list is clean (see [`description_clean`]).
pub open spec fn all_descriptions_clean(ts: Seq<(Seq<char>, bool)>) -> bool {
    forall|i: int| 0 <= i < ts.len() ==> #[trigger] description_clean(ts[i].0)
}

} // verus!
