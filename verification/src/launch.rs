//! From a command line to a process, and from the fate of that process to
//! the history: what is launched, and when a launch is rewarded.

use crate::history::{bumped, History};
use crate::text::texts;
use vstd::prelude::*;

verus! {

/// How long after a launch the child is looked at, in seconds.
pub const GRACE_PERIOD_SECS: u64 = 1;

/// The exit status of a child that could not replace its image with the
/// program it was to run.
pub const EXEC_FAILED_STATUS: i32 = 2;

/// Why an item was not launched.
#[derive(Debug, PartialEq, Eq, Structural, Clone, Copy)]
pub enum LaunchError {
    /// The item carries no command line.
    NotExecutable,
    /// The command line has a quote that is never closed.
    Parse,
    /// The command line holds no word.
    Empty,
}

impl LaunchError {
    /// The message for the user.
    pub fn to_string(&self) -> (message: String)
        ensures
            message@ == match *self {
                LaunchError::NotExecutable => "Item is not executable"@,
                LaunchError::Parse => "Mismatched quotes"@,
                LaunchError::Empty => "Empty command"@,
            },
    {
        match self {
            LaunchError::NotExecutable => "Item is not executable".to_owned(),
            LaunchError::Parse => "Mismatched quotes".to_owned(),
            LaunchError::Empty => "Empty command".to_owned(),
        }
    }
}

/// A program and the arguments it is started with.
pub struct Command {
    pub program: String,
    pub arguments: Vec<String>,
}

/// A command as plain values.
pub struct CommandView {
    pub program: Seq<char>,
    pub arguments: Seq<Seq<char>>,
}

impl View for Command {
    type V = CommandView;

    open spec fn view(&self) -> CommandView {
        CommandView { program: self.program@, arguments: texts(self.arguments@) }
    }
}

#[verifier::external_type_specification]
#[verifier::external_body]
pub struct ExMismatchedQuotes(shellwords::MismatchedQuotes);

/// The words into which the Bourne shell's quoting rules split `line`, as
/// `shellwords::split` finds them; `None` for a line with mismatched quotes.
pub uninterp spec fn shell_words(line: Seq<char>) -> Option<Seq<Seq<char>>>;

/// Calls `shellwords::split`.
///
/// Believed, not proved: the outcome depends on the line alone. What the
/// words are is left to the outside crate.
#[verifier::external_body]
fn split_line(line: &str) -> (outcome: Result<Vec<String>, shellwords::MismatchedQuotes>)
    ensures
        match outcome {
            Ok(words) => shell_words(line@) == Some(texts(words@)),
            Err(_) => shell_words(line@) is None,
        },
{
    shellwords::split(line)
}

/// The command that a split command line stands for: the first word is the
/// program, the others are its arguments.
pub open spec fn command_of(words: Option<Seq<Seq<char>>>) -> Result<CommandView, LaunchError> {
    match words {
        None => Err(LaunchError::Parse),
        Some(list) => if list.len() == 0 {
            Err(LaunchError::Empty)
        } else {
            Ok(CommandView { program: list[0], arguments: list.skip(1) })
        },
    }
}

/// What is launched for an item with this command line.
pub open spec fn launch_plan(executable: Option<Seq<char>>) -> Result<CommandView, LaunchError> {
    match executable {
        None => Err(LaunchError::NotExecutable),
        Some(line) => command_of(shell_words(line)),
    }
}

/// The views of a result of `command` or `plan`.
pub open spec fn planned(outcome: Result<Command, LaunchError>) -> Result<
    CommandView,
    LaunchError,
> {
    match outcome {
        Ok(command) => Ok(command@),
        Err(error) => Err(error),
    }
}

/// Turns the words of a command line into a command; `None` stands for a
/// line that could not be split.
pub fn command(words: Option<Vec<String>>) -> (outcome: Result<Command, LaunchError>)
    ensures
        planned(outcome) == command_of(
            match words {
                Some(list) => Some(texts(list@)),
                None => None,
            },
        ),
{
    match words {
        None => Err(LaunchError::Parse),
        Some(list) => {
            if list.len() == 0 {
                Err(LaunchError::Empty)
            } else {
                let mut arguments = list;
                let ghost all = arguments@;
                let program = arguments.remove(0);
                assert(texts(arguments@) =~= texts(all).skip(1));
                Ok(Command { program, arguments })
            }
        },
    }
}

/// Splits a command line as the shell would and names the program and its
/// arguments. Fails on a missing command line, on mismatched quotes, and on
/// a line without a word.
pub fn plan(executable: Option<&String>) -> (outcome: Result<Command, LaunchError>)
    ensures
        planned(outcome) == launch_plan(
            match executable {
                Some(line) => Some(line@),
                None => None,
            },
        ),
{
    match executable {
        None => Err(LaunchError::NotExecutable),
        Some(line) => {
            let words = match split_line(line.as_str()) {
                Ok(list) => Some(list),
                Err(_) => None,
            };
            command(words)
        },
    }
}

/// What a look at the child says, one grace period after the launch.
#[derive(Debug, PartialEq, Eq, Structural, Clone, Copy)]
pub enum ChildStatus {
    /// The child is still running.
    StillAlive,
    /// The child has exited with this status.
    Exited(i32),
    /// The child has ended or stopped in another way, such as by a signal.
    Other,
    /// The look itself failed.
    ProbeFailed,
}

/// Whether a launch counts as a success: the child still runs, or it has
/// exited with status 0.
pub open spec fn succeeded(status: ChildStatus) -> bool {
    status == ChildStatus::StillAlive || status == ChildStatus::Exited(0)
}

/// The history to commit after a look at the child, if there is one: for a
/// success the history with one more launch of `name`, else none.
pub open spec fn settled(
    history: Map<Seq<char>, usize>,
    name: Seq<char>,
    status: ChildStatus,
) -> Option<Map<Seq<char>, usize>> {
    if succeeded(status) {
        Some(history.insert(name, bumped(history, name)))
    } else {
        None
    }
}

/// Only a success is rewarded, and the reward is one launch of one name: a
/// success adds 1 to the count of `name` (an unknown name counts from 0) and
/// changes no other count; anything else, an exit with a status other than
/// 0 among them, leaves nothing to commit.
pub proof fn lemma_reward_only_on_success(
    history: Map<Seq<char>, usize>,
    name: Seq<char>,
    status: ChildStatus,
)
    requires
        history.contains_key(name) ==> history[name] < usize::MAX,
    ensures
        settled(history, name, status) is Some <==> succeeded(status),
        status matches ChildStatus::Exited(code) && code != 0 ==> settled(history, name, status)
            is None,
        succeeded(status) ==> {
            let after = settled(history, name, status)->0;
            &&& after.dom() == history.dom().insert(name)
            &&& after[name] == (if history.contains_key(name) {
                history[name]
            } else {
                0
            }) + 1
            &&& forall|other: Seq<char>|
                other != name && history.contains_key(other) ==> after[other] == history[other]
        },
{
}

/// Whether a launch counts as a success.
pub fn is_success(status: ChildStatus) -> (success: bool)
    ensures
        success == succeeded(status),
{
    match status {
        ChildStatus::StillAlive => true,
        ChildStatus::Exited(code) => code == 0,
        _ => false,
    }
}

/// Decides, one grace period after the launch of `name`, what becomes of
/// the snapshot of the history that was taken for this launch: after a
/// success it comes back with the launch counted, to be committed; after
/// anything else nothing is to be committed.
pub fn confirm(history: History, name: &str, status: ChildStatus) -> (commit: Option<History>)
    requires
        history.wf(),
    ensures
        match commit {
            Some(after) => after.wf() && settled(history@, name@, status) == Some(after@),
            None => settled(history@, name@, status) is None,
        },
{
    if is_success(status) {
        let mut after = history;
        after.reward(name);
        Some(after)
    } else {
        None
    }
}

} // verus!
