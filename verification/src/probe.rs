//! The exchange between a connection and the client that talks to its node:
//! what the connection asks for, what comes back, and what to do next.

use vstd::prelude::*;
use crate::error::Error;
use crate::error::ErrorView;
use crate::rpc::Caps;
use crate::rpc::CapsView;
use crate::rpc::Connections;

verus! {

/// A call to be made to the node of a connection.
#[derive(Debug, Clone, Copy, PartialEq, Eq, Structural)]
pub enum Request {
    /// A cheap probe of liveness.
    Ping,
    /// Ask what the node is capable of.
    GetCaps,
    /// Ask whether the node is synced.
    GetSync,
    /// Ask how many clients and peers the node serves.
    GetActiveConnections,
}

/// What came back from a call; a call that failed brings nothing.
#[derive(Debug)]
pub enum Reply {
    Ping(bool),
    Caps(Option<Caps>),
    Sync(Option<bool>),
    Metrics(Option<Connections>),
}

/// The mathematical value of a [`Reply`].
pub enum ReplyView {
    Ping(bool),
    Caps(Option<CapsView>),
    Sync(Option<bool>),
    Metrics(Option<Connections>),
}

impl View for Reply {
    type V = ReplyView;

    open spec fn view(&self) -> ReplyView {
        match self {
            Reply::Ping(b) => ReplyView::Ping(*b),
            Reply::Caps(c) => ReplyView::Caps(
                match c {
                    Some(c) => Some(c@),
                    None => None,
                },
            ),
            Reply::Sync(b) => ReplyView::Sync(*b),
            Reply::Metrics(c) => ReplyView::Metrics(*c),
        }
    }
}

impl ReplyView {
    /// Capabilities carried by the reply are consistent.
    pub open spec fn wf(self) -> bool {
        self matches ReplyView::Caps(Some(c)) ==> c.wf()
    }
}

/// How a refresh of the state of a connection goes on.
#[derive(Debug)]
pub enum Step {
    /// The given call is to be made and its reply handed back.
    Call(Request),
    /// The refresh is over; it went well, or failed with the given error.
    Done(Result<(), Error>),
}

/// The mathematical value of a [`Step`].
pub enum StepView {
    Call(Request),
    Done(Option<ErrorView>),
}

impl View for Step {
    type V = StepView;

    open spec fn view(&self) -> StepView {
        match self {
            Step::Call(r) => StepView::Call(*r),
            Step::Done(Ok(_)) => StepView::Done(None),
            Step::Done(Err(e)) => StepView::Done(Some(e@)),
        }
    }
}

/// What the task of a connection does on a poll tick.
#[derive(Debug, Clone, Copy, PartialEq, Eq, Structural)]
pub enum PollAction {
    /// Nothing is to be done.
    Idle,
    /// The epoch is over: disconnect and connect again.
    Reconnect,
    /// The state of the connection is to be refreshed.
    Refresh,
}

} // verus!
