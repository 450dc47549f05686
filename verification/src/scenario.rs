//! Scenarios: what a test does and expects, as written by its author.
//!
//! Durations are held in nanoseconds.
use vstd::prelude::*;

use crate::json::{Json, JsonValue};
use crate::names::{ActorName, DummyName, EventName, MessageName, SubroutineName};

verus! {

/// Makes the type of a message known to a scenario under an alias.
#[derive(Debug)]
pub struct DefTypeAlias {
    /// The fully qualified name of the message type.
    pub type_fqn: String,
    /// The alias.
    pub type_alias: MessageName,
}

/// Whether an event is required to happen or to not happen.
#[derive(Debug, Clone, Copy, PartialEq, Eq, PartialOrd, Ord, Hash, Structural)]
pub enum RequiredToBe {
    Reached,
    Unreached,
}

/// A definition accepts no fields besides those it names.
#[derive(Debug, Clone, Copy, PartialEq, Eq, PartialOrd, Ord, Hash, Structural)]
pub struct NoExtra;

/// A message as a scenario produces it.
#[derive(Debug)]
pub enum Msg {
    /// This very value.
    Literal(JsonValue),
    /// This template, with the variables in it replaced by their values.
    Bind(JsonValue),
    /// The predefined message stored under this key.
    Inject(String),
}

/// The mathematical content of a [Msg].
pub enum MsgView {
    Literal(Json),
    Bind(Json),
    Inject(Seq<char>),
}

impl View for Msg {
    type V = MsgView;

    open spec fn view(&self) -> MsgView {
        match self {
            Msg::Literal(v) => MsgView::Literal(v@),
            Msg::Bind(v) => MsgView::Bind(v@),
            Msg::Inject(k) => MsgView::Inject(k@),
        }
    }
}

impl Msg {
    /// A message with the same content.
    pub fn duplicate(&self) -> (r: Msg)
        ensures
            r@ == self@,
    {
        match self {
            Msg::Literal(v) => Msg::Literal(v.deep_clone()),
            Msg::Bind(v) => Msg::Bind(v.deep_clone()),
            Msg::Inject(k) => Msg::Inject(k.clone()),
        }
    }
}

/// A message as a scenario produces it.
pub type SrcMsg = Msg;

/// A pattern that values are matched against, binding variables.
#[derive(Debug)]
pub struct DstPattern(pub JsonValue);

impl DstPattern {
    /// A pattern with the same content.
    pub fn duplicate(&self) -> (r: DstPattern)
        ensures
            r.0@ == self.0@,
    {
        DstPattern(self.0.deep_clone())
    }
}

/// A scenario.
#[derive(Debug)]
pub struct Scenario {
    pub types: Vec<DefTypeAlias>,
    /// Actors of the system under test that the scenario refers to.
    pub actors: Vec<ActorName>,
    /// Dummy actors that the scenario plays.
    pub dummies: Vec<DummyName>,
    /// Subroutines that the scenario may call.
    pub subs: Vec<DefDeclareSub>,
    pub events: Vec<DefEvent>,
    pub no_extra: NoExtra,
}

/// An event of a scenario.
#[derive(Debug)]
pub struct DefEvent {
    pub id: EventName,
    pub require: Option<RequiredToBe>,
    /// The events that must have happened before this one.
    pub prerequisites: Vec<EventName>,
    pub kind: DefEventKind,
    pub no_extra: NoExtra,
}

#[derive(Debug)]
pub enum DefEventKind {
    Bind(DefEventBind),
    Recv(DefEventRecv),
    Send(DefEventSend),
    Respond(DefEventRespond),
    Delay(DefEventDelay),
    Call(DefCallSub),
}

/// Matches a value against a pattern.
#[derive(Debug)]
pub struct DefEventBind {
    pub dst: DstPattern,
    pub src: Msg,
    pub no_extra: NoExtra,
}

/// Expects a message to be received.
#[derive(Debug)]
pub struct DefEventRecv {
    pub message_type: MessageName,
    pub message_data: DstPattern,
    /// More patterns that the message must match.
    pub also_match_data: Vec<DstPattern>,
    pub from: Option<ActorName>,
    pub to: Option<DummyName>,
    /// How long after the event becomes ready the message is accepted at the
    /// earliest.
    pub after_duration: u128,
    /// How long after the event becomes ready the message is accepted at the
    /// latest.
    pub before_duration: Option<u128>,
    pub no_extra: NoExtra,
}

/// Sends a message from a dummy.
#[derive(Debug)]
pub struct DefEventSend {
    pub from: DummyName,
    pub to: Option<ActorName>,
    pub message_type: MessageName,
    pub message_data: Msg,
    pub no_extra: NoExtra,
}

/// Responds to a request received earlier.
#[derive(Debug)]
pub struct DefEventRespond {
    pub from: Option<DummyName>,
    /// The receive event that got the request.
    pub to_request: EventName,
    pub data: Msg,
    pub no_extra: NoExtra,
}

/// Lets time pass.
#[derive(Debug)]
pub struct DefEventDelay {
    pub delay_for: u128,
    pub delay_step: u128,
    pub no_extra: NoExtra,
}

/// Declares a subroutine, loaded from a file.
#[derive(Debug)]
pub struct DefDeclareSub {
    pub file_name: String,
    pub subroutine_name: SubroutineName,
    pub no_extra: NoExtra,
}

/// Calls a subroutine.
#[derive(Debug)]
pub struct DefCallSub {
    pub subroutine_name: SubroutineName,
    /// Binds values of the caller into the subroutine.
    pub input: Option<DefSubBind>,
    /// Binds values of the subroutine into the caller.
    pub output: Option<DefSubBind>,
    /// Actors of the caller, each with the name the subroutine knows it by.
    pub actors: Vec<(ActorName, ActorName)>,
    /// Dummies of the caller, each with the name the subroutine knows it by.
    pub dummies: Vec<(DummyName, DummyName)>,
    pub no_extra: NoExtra,
}

/// A binding across the boundary of a subroutine.
#[derive(Debug)]
pub struct DefSubBind {
    pub dst: DstPattern,
    pub src: JsonValue,
    pub no_extra: NoExtra,
}

/// The step of a delay event that names none: 25 milliseconds.
pub fn default_delay_step() -> (r: u128)
    ensures
        r == 25_000_000,
{
    25_000_000
}

} // verus!
