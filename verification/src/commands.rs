//! Commands for the controller, and what to do where one fails.
use vstd::prelude::*;
use crate::bytes;
use crate::hci::Opcode;

verus! {

/// What happens where a command cannot be carried out.
#[derive(Debug, Clone, PartialEq, Eq)]
pub enum OnFailure {
    /// The whole exchange fails with the command's error.
    Abort,
    /// The exchange goes on as if nothing had happened.
    Ignore,
    /// The exchange goes on; the error is reported behind these words.
    Report(String),
}

/// An [`OnFailure`] with its words as characters.
#[verifier::ext_equal]
pub enum OnFailureView {
    Abort,
    Ignore,
    Report(Seq<char>),
}

impl View for OnFailure {
    type V = OnFailureView;

    open spec fn view(&self) -> OnFailureView {
        match self {
            OnFailure::Abort => OnFailureView::Abort,
            OnFailure::Ignore => OnFailureView::Ignore,
            OnFailure::Report(s) => OnFailureView::Report(s@),
        }
    }
}

/// A command to send.
#[derive(Debug, Clone, PartialEq, Eq)]
pub struct Command {
    pub opcode: Opcode,
    pub params: Vec<u8>,
    /// Whether to wait for the controller to say that the command is complete.
    pub wait: bool,
    pub on_failure: OnFailure,
}

/// A [`Command`] with its parameters as a sequence.
#[verifier::ext_equal]
pub struct CommandView {
    pub opcode: Opcode,
    pub params: Seq<u8>,
    pub wait: bool,
    pub on_failure: OnFailureView,
}

impl View for Command {
    type V = CommandView;

    open spec fn view(&self) -> CommandView {
        CommandView {
            opcode: self.opcode,
            params: self.params@,
            wait: self.wait,
            on_failure: self.on_failure@,
        }
    }
}

/// One thing to do on behalf of an exchange with the controller.
#[derive(Debug, Clone, PartialEq, Eq)]
pub enum Step {
    /// Something worth telling whoever watches.
    Note(String),
    /// A command to carry out.
    Do(Command),
}

/// A [`Step`] by the views of its parts.
#[verifier::ext_equal]
pub enum StepView {
    Note(Seq<char>),
    Do(CommandView),
}

impl View for Step {
    type V = StepView;

    open spec fn view(&self) -> StepView {
        match self {
            Step::Note(s) => StepView::Note(s@),
            Step::Do(c) => StepView::Do(c@),
        }
    }
}

/// The steps of `all`, each by its view.
pub open spec fn step_views(all: Seq<Step>) -> Seq<StepView> {
    all.map_values(|s: Step| s@)
}

/// A command whose completion is waited for.
pub open spec fn awaited(opcode: u16, params: Seq<u8>, on_failure: OnFailureView) -> StepView {
    StepView::Do(CommandView { opcode: Opcode(opcode), params, wait: true, on_failure })
}

/// A command that is sent and left to itself.
pub open spec fn sent(opcode: u16, params: Seq<u8>, on_failure: OnFailureView) -> StepView {
    StepView::Do(CommandView { opcode: Opcode(opcode), params, wait: false, on_failure })
}

/// Make a step of a command.
pub fn make_step(opcode: u16, params: Vec<u8>, wait: bool, on_failure: OnFailure) -> (s: Step)
    ensures
        s@ == StepView::Do(
            CommandView {
                opcode: Opcode(opcode),
                params: params@,
                wait,
                on_failure: on_failure@,
            },
        ),
{
    Step::Do(Command { opcode: Opcode(opcode), params, wait, on_failure })
}

/// The bytes of an address as parameters.
pub fn address_params(addr: &[u8; 6]) -> (v: Vec<u8>)
    ensures
        v@ == addr@,
{
    vstd::slice::slice_to_vec(addr.as_slice())
}

/// Whether two addresses are the same.
pub fn same_address(a: &[u8; 6], b: &[u8; 6]) -> (r: bool)
    ensures
        r == (a@ == b@),
{
    bytes::same(a.as_slice(), b.as_slice())
}

} // verus!
