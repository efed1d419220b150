//! Validated user intents and the runner logic that applies one intent to the
//! loaded task list.
//!
//! One invocation is a single linear transaction: the outside layer builds a
//! [`Command`], loads the persisted list, calls [`apply`], and then either
//! writes the new list back ([`Action::Save`]), renders the list
//! ([`Action::Render`]), or reports a miss ([`Action::NotFound`]) without
//! touching the file.

use vstd::prelude::*;

use crate::codec::str_eq;
use crate::task::{Task, TaskView, Urgency, views_of};

verus! {

/// The intent a [`Command`] carries, as a mathematical value.
pub ghost enum CommandView {
    /// Append the carried task to the end of the list.
    Add(TaskView),
    /// Remove the first task with exactly this title.
    Remove(Seq<char>),
    /// Show every task in file order.
    List,
}

enum Commands {
    Add(Task),
    Remove(String),
    List,
}

/// A fully validated user intent: the only way outside code tells the runner
/// what to do.
pub struct Command(Commands);

impl View for Command {
    type V = CommandView;

    closed spec fn view(&self) -> CommandView {
        match self.0 {
            Commands::Add(ref t) => CommandView::Add(t@),
            Commands::Remove(ref title) => CommandView::Remove(title@),
            Commands::List => CommandView::List,
        }
    }
}

/// Lowercase command-line urgency tokens: `l`/`low`, `m`/`medium`, `h`/`high`.
/// Everything else, uppercase variants included, is rejected.
pub open spec fn parse_token(s: Seq<char>) -> Option<Urgency> {
    if s == "l"@ || s == "low"@ {
        Some(Urgency::Low)
    } else if s == "m"@ || s == "medium"@ {
        Some(Urgency::Medium)
    } else if s == "h"@ || s == "high"@ {
        Some(Urgency::High)
    } else {
        None
    }
}

impl Command {
    /// Intent to append a task; `None` when the urgency token is not one of
    /// the recognized lowercase tokens.
    pub fn add(title: String, content: String, urgency: String) -> (r: Option<Command>)
        ensures
            match r {
                Some(c) => parse_token(urgency@) matches Some(u) && c@ == CommandView::Add(
                    TaskView { title: title@, content: content@, urgency: u },
                ),
                None => parse_token(urgency@) is None,
            },
    {
        let u = if str_eq(urgency.as_str(), "l") || str_eq(urgency.as_str(), "low") {
            Urgency::Low
        } else if str_eq(urgency.as_str(), "m") || str_eq(urgency.as_str(), "medium") {
            Urgency::Medium
        } else if str_eq(urgency.as_str(), "h") || str_eq(urgency.as_str(), "high") {
            Urgency::High
        } else {
            return None;
        };
        Some(Command(Commands::Add(Task { title, content, urgency: u })))
    }

    /// Intent to remove the first task with exactly this title. Always
    /// succeeds; whether the title exists is decided at apply time.
    pub fn remove(title: String) -> (r: Command)
        ensures
            r@ == CommandView::Remove(title@),
    {
        Command(Commands::Remove(title))
    }

    /// Intent to list every task; the default when nothing else is asked.
    pub fn list() -> (r: Command)
        ensures
            r@ == CommandView::List,
    {
        Command(Commands::List)
    }
}

/// What the runner decides to do with the list, after applying a command.
pub enum Action {
    /// Replace the whole persisted file with this list's encoding.
    Save(Vec<Task>),
    /// Render these tasks in order; the file stays untouched.
    Render(Vec<Task>),
    /// No task carries this title: report it and leave the file untouched.
    NotFound(String),
}

/// Index of the first task whose title is exactly `title`, if any.
pub open spec fn first_match(ts: Seq<TaskView>, title: Seq<char>) -> Option<int>
    decreases ts.len(),
{
    if ts.len() == 0 {
        None
    } else if ts[0].title == title {
        Some(0int)
    } else {
        match first_match(ts.drop_first(), title) {
            Some(i) => Some(i + 1),
            None => None,
        }
    }
}

/// [`first_match`] returns the first index whose title matches, or `None`
/// exactly when no title matches.
pub proof fn lemma_first_match(ts: Seq<TaskView>, title: Seq<char>)
    ensures
        match first_match(ts, title) {
            Some(i) => 0 <= i < ts.len() && ts[i].title == title && (forall|k: int|
                0 <= k < i ==> ts[k].title != title),
            None => forall|k: int| 0 <= k < ts.len() ==> ts[k].title != title,
        },
    decreases ts.len(),
{
    if ts.len() == 0 {
    } else if ts[0].title == title {
    } else {
        lemma_first_match(ts.drop_first(), title);
        assert(forall|k: int| 0 <= k < ts.drop_first().len() ==> ts.drop_first()[k] == ts[k + 1]);
        match first_match(ts.drop_first(), title) {
            Some(j) => {
                assert(ts[j + 1] == ts.drop_first()[j]);
                assert forall|k: int| 0 <= k < j + 1 implies ts[k].title != title by {
                    if k > 0 {
                        assert(ts[k] == ts.drop_first()[k - 1]);
                    }
                }
            },
            None => {
                assert forall|k: int| 0 <= k < ts.len() implies ts[k].title != title by {
                    if k > 0 {
                        assert(ts[k] == ts.drop_first()[k - 1]);
                    }
                }
            },
        }
    }
}

/// Applies one command to the loaded task list and decides what the outside
/// layer must do next. Add always saves the appended list; Remove saves the
/// list without the first matching task, or reports the miss without saving;
/// List renders the list unchanged.
#[verifier::loop_isolation(false)]
pub fn apply(command: Command, tasks: Vec<Task>) -> (r: Action)
    ensures
        match command@ {
            CommandView::Add(tv) => r matches Action::Save(new) && views_of(new@) == views_of(
                tasks@,
            ).push(tv),
            CommandView::Remove(title) => (match first_match(views_of(tasks@), title) {
                Some(i) => r matches Action::Save(new) && views_of(new@) == views_of(
                    tasks@,
                ).remove(i),
                None => r matches Action::NotFound(t) && t@ == title,
            }),
            CommandView::List => r matches Action::Render(kept) && views_of(kept@) == views_of(
                tasks@,
            ),
        },
{
    match command.0 {
        Commands::Add(task) => {
            let ghost tv = task@;
            let ghost before = views_of(tasks@);
            let mut appended = tasks;
            appended.push(task);
            proof {
                assert(views_of(appended@) =~= before.push(tv));
            }
            Action::Save(appended)
        },
        Commands::Remove(title) => {
            let ghost before = views_of(tasks@);
            let n = tasks.len();
            let mut i: usize = 0;
            while i < n
                invariant
                    n == tasks.len(),
                    i <= n,
                    before == views_of(tasks@),
                    forall|k: int| 0 <= k < i ==> before[k].title != title@,
                decreases n - i,
            {
                if str_eq(tasks[i].title.as_str(), title.as_str()) {
                    proof {
                        assert(before[i as int].title == title@);
                        lemma_first_match(before, title@);
                        assert(first_match(before, title@) == Some(i as int));
                    }
                    let mut shortened = tasks;
                    shortened.remove(i);
                    proof {
                        assert(views_of(shortened@) =~= before.remove(i as int));
                    }
                    return Action::Save(shortened);
                }
                i += 1;
            }
            proof {
                lemma_first_match(before, title@);
            }
            Action::NotFound(title)
        },
        Commands::List => Action::Render(tasks),
    }
}

/// Adding a task and then listing shows it as the last entry, after every
/// pre-existing entry in its original position.
pub proof fn lemma_add_then_list(ts: Seq<TaskView>, t: TaskView)
    ensures
        ts.push(t).len() == ts.len() + 1,
        ts.push(t)[ts.len() as int] == t,
        forall|k: int| 0 <= k < ts.len() ==> ts.push(t)[k] == ts[k],
{
}

/// Removing by title takes out exactly one entry, the first whose title
/// matches, and leaves all others in their original relative order.
pub proof fn lemma_remove_first_match(ts: Seq<TaskView>, title: Seq<char>, i: int)
    requires
        first_match(ts, title) == Some(i),
    ensures
        0 <= i < ts.len(),
        ts[i].title == title,
        forall|k: int| 0 <= k < i ==> ts[k].title != title,
        ts.remove(i).len() == ts.len() - 1,
        forall|k: int| 0 <= k < i ==> ts.remove(i)[k] == ts[k],
        forall|k: int| i <= k < ts.len() - 1 ==> ts.remove(i)[k] == ts[k + 1],
{
    lemma_first_match(ts, title);
    ts.remove_ensures(i);
}

/// A title that no entry carries matches nothing: the runner reports the miss
/// instead of producing a list to save, so the persisted file stays as it is.
pub proof fn lemma_remove_no_match(ts: Seq<TaskView>, title: Seq<char>)
    requires
        first_match(ts, title) is None,
    ensures
        forall|k: int| 0 <= k < ts.len() ==> ts[k].title != title,
{
    lemma_first_match(ts, title);
}

} // verus!
