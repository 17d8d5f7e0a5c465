//! The consumers: what is done with the item that was finally selected.

use crate::history::History;
use crate::launch::{launch_plan, plan, Command, CommandView, LaunchError};
use crate::providers::{ItemView, ProviderItem};
use crate::text::str_eq;
use vstd::prelude::*;

verus! {

/// What the caller is to do for a consumer.
pub enum Handoff {
    /// Write this line to standard output. Nothing is to be awaited.
    Print(String),
    /// Start this command as a process of its own, look at it after the
    /// grace period, and settle the history.
    Launch(Command),
}

/// A handoff as plain values.
pub enum HandoffView {
    Print(Seq<char>),
    Launch(CommandView),
}

impl View for Handoff {
    type V = HandoffView;

    open spec fn view(&self) -> HandoffView {
        match *self {
            Handoff::Print(line) => HandoffView::Print(line@),
            Handoff::Launch(command) => HandoffView::Launch(command@),
        }
    }
}

/// The views of a result of `run`.
pub open spec fn handed(outcome: Result<Handoff, LaunchError>) -> Result<HandoffView, LaunchError> {
    match outcome {
        Ok(handoff) => Ok(handoff@),
        Err(error) => Err(error),
    }
}

/// The kinds of consumer, one of which is chosen when the program starts.
#[derive(Debug, PartialEq, Eq, Structural, Clone, Copy)]
pub enum ConsumerKind {
    /// Report the choice on standard output.
    Stdout,
    /// Launch the choice.
    Exec,
}

impl ConsumerKind {
    /// The kind that goes by `name`: `stdout` or `exec`. Any other name is
    /// unknown.
    pub fn from_name(name: &str) -> (kind: Option<ConsumerKind>)
        ensures
            kind == if name@ == "stdout"@ {
                Some(ConsumerKind::Stdout)
            } else if name@ == "exec"@ {
                Some(ConsumerKind::Exec)
            } else {
                None::<ConsumerKind>
            },
    {
        if str_eq(name, "stdout") {
            Some(ConsumerKind::Stdout)
        } else if str_eq(name, "exec") {
            Some(ConsumerKind::Exec)
        } else {
            None
        }
    }
}

/// A way of acting on the selected item.
pub trait Consumer {
    /// What holds of the consumer between calls.
    spec fn wf(&self) -> bool;

    /// What the consumer asks for when it is given `item`.
    spec fn decision(&self, item: ItemView) -> Result<HandoffView, LaunchError>;

    /// Consumes the selected item: says what is to be done with it, or why
    /// nothing is done. The consumer itself stays as it was.
    fn run(&mut self, item: &ProviderItem) -> (outcome: Result<Handoff, LaunchError>)
        requires
            old(self).wf(),
        ensures
            final(self).wf(),
            handed(outcome) == old(self).decision(item@),
            forall|other: ItemView| final(self).decision(other) == old(self).decision(other),
    ;
}

/// The consumer that reports the choice to whoever reads standard output.
pub struct StdoutConsumer {}

impl StdoutConsumer {
    pub fn new() -> (consumer: StdoutConsumer)
        ensures
            consumer.wf(),
    {
        StdoutConsumer {  }
    }
}

impl Consumer for StdoutConsumer {
    open spec fn wf(&self) -> bool {
        true
    }

    /// The item's name, as one line.
    open spec fn decision(&self, item: ItemView) -> Result<HandoffView, LaunchError> {
        Ok(HandoffView::Print(item.name))
    }

    fn run(&mut self, item: &ProviderItem) -> (outcome: Result<Handoff, LaunchError>) {
        Ok(Handoff::Print(item.to_string()))
    }
}

/// The consumer that launches the choice as a process and rewards it in the
/// history once the launch has proved a success.
pub struct ExecConsumer {
    history: History,
}

impl ExecConsumer {
    /// A launching consumer with its own snapshot of the history. Without a
    /// history it starts from the empty one.
    pub fn new(history: Option<History>) -> (consumer: ExecConsumer)
        requires
            history matches Some(given) ==> given.wf(),
        ensures
            consumer.wf(),
            consumer.history() == match history {
                Some(given) => given@,
                None => Map::<Seq<char>, usize>::empty(),
            },
    {
        match history {
            Some(given) => ExecConsumer { history: given },
            None => ExecConsumer { history: History::new() },
        }
    }

    /// The counts of the consumer's snapshot.
    pub closed spec fn history(&self) -> Map<Seq<char>, usize> {
        self.history@
    }

    /// A copy of the snapshot for the task that confirms one launch. The
    /// task settles and commits its copy; the consumer's own does not change.
    pub fn snapshot(&self) -> (copy: History)
        requires
            self.wf(),
        ensures
            copy.wf(),
            copy@ == self.history(),
    {
        self.history.clone()
    }
}

impl Consumer for ExecConsumer {
    closed spec fn wf(&self) -> bool {
        self.history.wf()
    }

    /// The launch of the item's command line, or the reason why it cannot
    /// be launched.
    open spec fn decision(&self, item: ItemView) -> Result<HandoffView, LaunchError> {
        match launch_plan(item.executable) {
            Ok(command) => Ok(HandoffView::Launch(command)),
            Err(error) => Err(error),
        }
    }

    fn run(&mut self, item: &ProviderItem) -> (outcome: Result<Handoff, LaunchError>)
        ensures
            final(self).history() == old(self).history(),
    {
        match plan(item.executable.as_ref()) {
            Ok(command) => Ok(Handoff::Launch(command)),
            Err(error) => Err(error),
        }
    }
}

} // verus!
