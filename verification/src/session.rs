//! The session's decisions: which command a menu input selects, what the
//! listing shows, and how the add, complete and remove operations change
//! the in-memory task list. The caller owns the loop, the console and the
//! file; after every mutating operation it persists the full list (see
//! [`crate::codec::render`]) before prompting again.

use vstd::prelude::*;
use crate::task::{Todo, tasks_view};
use crate::numerals::{numeral_of, dec_digits, parse_index, format_index};

verus! {

/// The five recognized menu commands, and the rejection of anything else.
#[derive(Debug, PartialEq, Eq, Structural, Clone, Copy)]
pub enum Command {
    AddTask,
    ListTasks,
    CompleteTask,
    RemoveTask,
    Exit,
    Unrecognized,
}

/// Which command a trimmed menu input selects: the digits 1 through 5, in
/// menu order; any other input is unrecognized and must leave the session
/// without side effects.
pub open spec fn command_of(s: Seq<char>) -> Command {
    if s.len() != 1 {
        Command::Unrecognized
    } else if s[0] == '1' {
        Command::AddTask
    } else if s[0] == '2' {
        Command::ListTasks
    } else if s[0] == '3' {
        Command::CompleteTask
    } else if s[0] == '4' {
        Command::RemoveTask
    } else if s[0] == '5' {
        Command::Exit
    } else {
        Command::Unrecognized
    }
}

/// Dispatches a trimmed menu input to the command it selects.
pub fn parse_command(s: &str) -> (c: Command)
    ensures
        c == command_of(s@),
{
    let len = s.unicode_len();
    if len != 1 {
        return Command::Unrecognized;
    }
    let c = s.get_char(0);
    if c == '1' {
        Command::AddTask
    } else if c == '2' {
        Command::ListTasks
    } else if c == '3' {
        Command::CompleteTask
    } else if c == '4' {
        Command::RemoveTask
    } else if c == '5' {
        Command::Exit
    } else {
        Command::Unrecognized
    }
}

/// Why an index-based operation aborted without mutating the list.
#[derive(Debug, PartialEq, Eq, Structural, Clone, Copy)]
pub enum IndexError {
    /// The input is not a decimal numeral the index type can hold.
    NotNumeric,
    /// The numeral is 0 or exceeds the current length of the list.
    OutOfRange,
}

/// The status text a listing shows for a task.
pub open spec fn status_text(completed: bool) -> Seq<char> {
    if completed {
        seq!['D', 'o', 'n', 'e']
    } else {
        seq!['P', 'e', 'n', 'd', 'i', 'n', 'g']
    }
}

/// One listing line: the 1-based index, the description, and the status,
/// as `index: description [status]`.
pub open spec fn entry_spec(number: nat, t: (Seq<char>, bool)) -> Seq<char> {
    dec_digits(number) + seq![':', ' '] + t.0 + seq![' ', '['] + status_text(t.1) + seq![']']
}

/// Formats one listing line for the task shown under the given 1-based
/// number.
pub fn format_entry(number: usize, t: &Todo) -> (r: String)
    ensures
        r@ == entry_spec(number as nat, t@),
{
    let mut line = format_index(number);
    line.append(": ");
    line.append(t.task.as_str());
    line.append(" [");
    if t.completed {
        line.append("Done");
    } else {
        line.append("Pending");
    }
    line.append("]");
    proof {
        reveal_strlit(": ");
        reveal_strlit(" [");
        reveal_strlit("Done");
        reveal_strlit("Pending");
        reveal_strlit("]");
        assert(line@ =~= entry_spec(number as nat, t@));
    }
    line
}

/// Formats the whole listing, one line per task in list order, numbering
/// the tasks from 1. The caller prints its fixed empty-list message instead
/// when there is nothing to show; listing never mutates the list.
pub fn listing(todos: &Vec<Todo>) -> (r: Vec<String>)
    ensures
        r@.len() == todos@.len(),
        forall|i: int|
            0 <= i < todos@.len() ==> (#[trigger] r@[i])@ == entry_spec(
                (i + 1) as nat,
                todos@[i]@,
            ),
{
    let mut out: Vec<String> = Vec::new();
    let mut i: usize = 0;
    while i < todos.len()
        invariant
            i <= todos@.len(),
            out@.len() == i,
            forall|k: int|
                0 <= k < i ==> (#[trigger] out@[k])@ == entry_spec((k + 1) as nat, todos@[k]@),
        decreases todos@.len() - i,
    {
        let line = format_entry(i + 1, &todos[i]);
        out.push(line);
        i += 1;
    }
    out
}

/// What adding a task does to the list's view: a pending task with the
/// given description is appended at the end.
pub open spec fn add_spec(ts: Seq<(Seq<char>, bool)>, d: Seq<char>) -> Seq<(Seq<char>, bool)> {
    ts.push((d, false))
}

/// What completing the task at a valid 1-based number does to the list's
/// view: that task's flag becomes true and nothing else changes.
pub open spec fn complete_spec(ts: Seq<(Seq<char>, bool)>, number: nat) -> Seq<
    (Seq<char>, bool),
> {
    ts.update(number - 1, (ts[number - 1].0, true))
}

/// What removing the task at a valid 1-based number does to the list's
/// view: that task disappears and every later task shifts down by one.
pub open spec fn remove_spec(ts: Seq<(Seq<char>, bool)>, number: nat) -> Seq<(Seq<char>, bool)> {
    ts.remove(number - 1)
}

/// Appends a new pending task with the given description. The caller reads
/// the description as one trimmed input line and persists the list
/// afterwards.
pub fn add_task(todos: &mut Vec<Todo>, description: String)
    ensures
        tasks_view(final(todos)@) == add_spec(tasks_view(old(todos)@), description@),
{
    let ghost before = tasks_view(todos@);
    todos.push(Todo::new(description));
    proof {
        assert(tasks_view(todos@) =~~= before.push((description@, false)));
    }
}

/// A 1-based number selects a task exactly when it lies between 1 and the
/// list's length inclusive.
pub open spec fn number_in_range(ts: Seq<(Seq<char>, bool)>, number: nat) -> bool {
    1 <= number <= ts.len()
}

/// Marks the task under a 1-based number completed. Returns whether the
/// number was in range; an out-of-range number leaves the list unchanged.
pub fn complete_task(todos: &mut Vec<Todo>, number: usize) -> (ok: bool)
    ensures
        ok == number_in_range(tasks_view(old(todos)@), number as nat),
        ok ==> tasks_view(final(todos)@) == complete_spec(
            tasks_view(old(todos)@),
            number as nat,
        ),
        !ok ==> final(todos)@ == old(todos)@,
{
    let ghost before = tasks_view(todos@);
    if number >= 1 && number <= todos.len() {
        let i = number - 1;
        let task = todos[i].task.clone();
        todos[i] = Todo { task, completed: true };
        proof {
            assert(tasks_view(todos@) =~~= complete_spec(before, number as nat));
        }
        true
    } else {
        false
    }
}

/// Deletes the task under a 1-based number. Returns whether the number was
/// in range; an out-of-range number leaves the list unchanged.
pub fn remove_task(todos: &mut Vec<Todo>, number: usize) -> (ok: bool)
    ensures
        ok == number_in_range(tasks_view(old(todos)@), number as nat),
        ok ==> tasks_view(final(todos)@) == remove_spec(tasks_view(old(todos)@), number as nat),
        !ok ==> final(todos)@ == old(todos)@,
{
    let ghost before = tasks_view(todos@);
    if number >= 1 && number <= todos.len() {
        todos.remove(number - 1);
        proof {
            assert(tasks_view(todos@) =~~= remove_spec(before, number as nat));
        }
        true
    } else {
        false
    }
}

/// The complete operation's decision on one trimmed index input: rejects
/// text that is not a numeral the index type can hold, rejects a number
/// outside 1 through the list's length, and otherwise marks that task
/// completed. A rejection names its reason and leaves the list unchanged;
/// on success the accepted number is returned and the caller persists.
pub fn handle_complete(todos: &mut Vec<Todo>, raw: &str) -> (r: Result<usize, IndexError>)
    ensures
        match r {
            Ok(number) => {
                &&& numeral_of(raw@) == Some(number as nat)
                &&& number_in_range(tasks_view(old(todos)@), number as nat)
                &&& tasks_view(final(todos)@) == complete_spec(
                    tasks_view(old(todos)@),
                    number as nat,
                )
            },
            Err(e) => {
                &&& final(todos)@ == old(todos)@
                &&& (e == IndexError::NotNumeric <==> (match numeral_of(raw@) {
                    Some(v) => v > usize::MAX,
                    None => true,
                }))
                &&& (e == IndexError::OutOfRange <==> (match numeral_of(raw@) {
                    Some(v) => v <= usize::MAX && !number_in_range(
                        tasks_view(old(todos)@),
                        v,
                    ),
                    None => false,
                }))
            },
        },
{
    match parse_index(raw) {
        Some(number) => {
            if complete_task(todos, number) {
                Ok(number)
            } else {
                Err(IndexError::OutOfRange)
            }
        },
        None => Err(IndexError::NotNumeric),
    }
}

/// The remove operation's decision on one trimmed index input: the same
/// validation as [`handle_complete`], but a valid number deletes the task.
pub fn handle_remove(todos: &mut Vec<Todo>, raw: &str) -> (r: Result<usize, IndexError>)
    ensures
        match r {
            Ok(number) => {
                &&& numeral_of(raw@) == Some(number as nat)
                &&& number_in_range(tasks_view(old(todos)@), number as nat)
                &&& tasks_view(final(todos)@) == remove_spec(
                    tasks_view(old(todos)@),
                    number as nat,
                )
            },
            Err(e) => {
                &&& final(todos)@ == old(todos)@
                &&& (e == IndexError::NotNumeric <==> (match numeral_of(raw@) {
                    Some(v) => v > usize::MAX,
                    None => true,
                }))
                &&& (e == IndexError::OutOfRange <==> (match numeral_of(raw@) {
                    Some(v) => v <= usize::MAX && !number_in_range(
                        tasks_view(old(todos)@),
                        v,
                    ),
                    None => false,
                }))
            },
        },
{
    match parse_index(raw) {
        Some(number) => {
            if remove_task(todos, number) {
                Ok(number)
            } else {
                Err(IndexError::OutOfRange)
            }
        },
        None => Err(IndexError::NotNumeric),
    }
}

/// Once a task is completed, no operation resets its flag: adding keeps
/// every existing task as it is; completing a task keeps every completed
/// flag and sets one more; removing a task keeps every surviving task as it
/// is, the later ones shifted down by one.
pub proof fn lemma_completion_monotonic(
    ts: Seq<(Seq<char>, bool)>,
    d: Seq<char>,
    k: nat,
    j: int,
)
    requires
        0 <= j < ts.len(),
        ts[j].1,
    ensures
        add_spec(ts, d)[j].1,
        number_in_range(ts, k) ==> complete_spec(ts, k)[j].1,
        number_in_range(ts, k) && j < k - 1 ==> remove_spec(ts, k)[j].1,
        number_in_range(ts, k) && j > k - 1 ==> remove_spec(ts, k)[j - 1].1,
{
}

/// Removing the task under number k from a list of length n yields a list
/// of length n - 1 in which every task before position k - 1 stands where
/// it stood and every task from position k onward has shifted down by one.
pub proof fn lemma_remove_shift(ts: Seq<(Seq<char>, bool)>, k: nat)
    requires
        number_in_range(ts, k),
    ensures
        remove_spec(ts, k).len() == ts.len() - 1,
        forall|j: int| 0 <= j < k - 1 ==> #[trigger] remove_spec(ts, k)[j] == ts[j],
        forall|j: int| k - 1 <= j < ts.len() - 1 ==> #[trigger] remove_spec(ts, k)[j] == ts[j
            + 1],
{
}

} // verus!
