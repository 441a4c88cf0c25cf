//! What a worker does after each job.

use crate::error::{message_of, ScanError};
use vstd::prelude::*;

verus! {

/// What came of a worker's attempt at a job.
#[derive(Debug, Clone)]
pub enum WorkerEvent {
    /// The queue is empty.
    NoJob,
    /// The queue cannot be used any more.
    QueuePoisoned,
    /// The walk could not be done.
    ScanFailed { error: ScanError },
    /// The walk came back with a wrong number of results.
    ResultLength,
    /// The results cannot be recorded any more.
    ResultsPoisoned,
    /// The caller refused a result.
    CallbackFailed { message: String },
    /// The results were recorded.
    Delivered,
}

/// What a worker does next.
#[derive(Debug, Clone, Copy, PartialEq, Eq, Structural)]
pub enum WorkerAction {
    TakeJob,
    Stop,
}

/// What is reported of an event, if anything. A failed walk is reported as Python shows
/// the exception that tells of it.
pub open spec fn report_of(event: WorkerEvent) -> Option<Seq<char>> {
    match event {
        WorkerEvent::NoJob => None,
        WorkerEvent::QueuePoisoned => Some(message_of(ScanError::QueuePoisoned)),
        WorkerEvent::ScanFailed { error } => Some("RuntimeError: "@ + message_of(error)),
        WorkerEvent::ResultLength => Some(message_of(ScanError::ResultLength)),
        WorkerEvent::ResultsPoisoned => Some(message_of(ScanError::ResultsPoisoned)),
        WorkerEvent::CallbackFailed { message } => Some(message@),
        WorkerEvent::Delivered => None,
    }
}

/// A worker goes on after a job that was done or whose walk failed. Where the results
/// are lost it stops once that is reported, and otherwise goes on.
pub open spec fn action_after(event: WorkerEvent, reported: bool) -> WorkerAction {
    match event {
        WorkerEvent::Delivered => WorkerAction::TakeJob,
        WorkerEvent::ScanFailed { .. } => WorkerAction::TakeJob,
        WorkerEvent::ResultsPoisoned => if reported {
            WorkerAction::Stop
        } else {
            WorkerAction::TakeJob
        },
        _ => WorkerAction::Stop,
    }
}

impl WorkerEvent {
    /// What is reported of the event, if anything.
    pub fn report(&self) -> (message: Option<String>)
        ensures
            match message {
                Some(text) => report_of(*self) == Some(text@),
                None => report_of(*self) is None,
            },
    {
        match self {
            WorkerEvent::NoJob => None,
            WorkerEvent::QueuePoisoned => Some(ScanError::QueuePoisoned.message()),
            WorkerEvent::ScanFailed { error } => Some(
                "RuntimeError: ".to_owned().concat(error.message().as_str()),
            ),
            WorkerEvent::ResultLength => Some(ScanError::ResultLength.message()),
            WorkerEvent::ResultsPoisoned => Some(ScanError::ResultsPoisoned.message()),
            WorkerEvent::CallbackFailed { message } => Some(message.clone()),
            WorkerEvent::Delivered => None,
        }
    }

    /// What the worker does next. `reported` tells whether the report could be made.
    pub fn action(&self, reported: bool) -> (action: WorkerAction)
        ensures
            action == action_after(*self, reported),
    {
        match self {
            WorkerEvent::Delivered => WorkerAction::TakeJob,
            WorkerEvent::ScanFailed { .. } => WorkerAction::TakeJob,
            WorkerEvent::ResultsPoisoned => {
                if reported {
                    WorkerAction::Stop
                } else {
                    WorkerAction::TakeJob
                }
            },
            _ => WorkerAction::Stop,
        }
    }
}

/// A worker takes another job just where the last one was delivered, its walk failed, or
/// its results were lost and that could not be reported.
pub proof fn law_worker_goes_on(event: WorkerEvent, reported: bool)
    ensures
        action_after(event, reported) == WorkerAction::TakeJob <==> {
            ||| event is Delivered
            ||| event is ScanFailed
            ||| event is ResultsPoisoned && !reported
        },
{
}

/// An empty queue and a delivered job are not worth a report; everything else is reported,
/// a failed walk with its whole message, and a refusal just as the caller put it.
pub proof fn law_what_goes_wrong_is_reported(event: WorkerEvent)
    ensures
        report_of(event) is None <==> event is NoJob || event is Delivered,
        event matches WorkerEvent::ScanFailed { error } ==> report_of(event) == Some(
            "RuntimeError: "@ + message_of(error),
        ),
        event matches WorkerEvent::CallbackFailed { message } ==> report_of(event) == Some(
            message@,
        ),
        event is QueuePoisoned ==> report_of(event) == Some("queue lock poisoned"@),
        event is ResultLength ==> report_of(event) == Some("scan result length mismatch"@),
        event is ResultsPoisoned ==> report_of(event) == Some("result lock poisoned"@),
{
}

} // verus!
