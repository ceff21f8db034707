//! When endpoints are published.
use vstd::prelude::*;

use crate::publishers::aggregate::{PublishReport, PublishersError};

verus! {

/// How often endpoints are published, in nanoseconds: every twenty seconds.
pub const DEFAULT_PUBLISH_INTERVAL: u128 = 20_000_000_000;

/// How long one attempt may take, in nanoseconds: thirty seconds. It is longer than what a
/// connection may take to find a path.
pub const DEFAULT_PUBLISH_TIMEOUT: u128 = 30_000_000_000;

/// How long changes are gathered before an attempt is made, in nanoseconds: fifty
/// milliseconds.
pub const PUBLISH_CHANGE_DEBOUNCE: u128 = 50_000_000;

/// A change of a local endpoint.
#[derive(Debug, Clone, Copy, PartialEq, Eq, Structural)]
pub enum InterfaceEndpointUpdate {
    Upsert,
    Remove,
    Close,
}

/// Whether a change is published at once. Every change is.
pub fn local_endpoint_update_requires_publish(update: InterfaceEndpointUpdate) -> (r: bool)
    ensures
        r,
{
    match update {
        InterfaceEndpointUpdate::Upsert => true,
        InterfaceEndpointUpdate::Remove => true,
        InterfaceEndpointUpdate::Close => true,
    }
}

/// A publication that is under way.
#[derive(Debug, Clone, Copy, PartialEq, Eq, Structural)]
pub enum ScheduledPublish {
    /// Changes are still gathered.
    Debouncing,
    /// The attempt is made.
    Attempting,
}

/// What happens while endpoints are published.
#[derive(Debug, Clone, Copy, PartialEq, Eq, Structural)]
pub enum LoopEvent {
    /// The publication that is under way stops gathering changes.
    AttemptStarted,
    /// The publication that is under way ended.
    PublishFinished,
    /// The interval is over.
    IntervalElapsed,
    /// A local endpoint changed. `observed` tells whether it is one of those that are
    /// published.
    EndpointChanged { observed: bool, update: InterfaceEndpointUpdate },
    /// No more changes will be told of.
    UpdatesClosed,
}

/// What follows from an event.
#[derive(Debug, Clone, Copy, PartialEq, Eq, Structural)]
pub struct LoopAction {
    /// The interval starts anew.
    pub reset_interval: bool,
    /// A publication starts, in place of the one that is under way.
    pub start_publish: bool,
}

/// The repeated publication of the endpoints of a name. At most one publication is under
/// way.
#[derive(Debug, PartialEq, Eq)]
pub struct EndpointPublicationLoop {
    name: String,
    interval: u128,
    publish_timeout: u128,
    current: Option<ScheduledPublish>,
}

impl EndpointPublicationLoop {
    pub closed spec fn name(self) -> Seq<char> {
        self.name@
    }

    pub closed spec fn every(self) -> u128 {
        self.interval
    }

    pub closed spec fn timeout(self) -> u128 {
        self.publish_timeout
    }

    /// The publication that is under way.
    pub closed spec fn current(self) -> Option<ScheduledPublish> {
        self.current
    }

    /// A publication is under way from the start.
    pub fn new(name: String) -> (r: Self)
        ensures
            r.name() == name@,
            r.every() == DEFAULT_PUBLISH_INTERVAL,
            r.every() == 20_000_000_000,
            r.timeout() == DEFAULT_PUBLISH_TIMEOUT,
            r.timeout() == 30_000_000_000,
            r.current() == Some(ScheduledPublish::Debouncing),
    {
        EndpointPublicationLoop {
            name,
            interval: DEFAULT_PUBLISH_INTERVAL,
            publish_timeout: DEFAULT_PUBLISH_TIMEOUT,
            current: Some(ScheduledPublish::Debouncing),
        }
    }

    pub fn interval(&self) -> (r: u128)
        ensures
            r == self.every(),
    {
        self.interval
    }

    pub fn publish_timeout(&self) -> (r: u128)
        ensures
            r == self.timeout(),
    {
        self.publish_timeout
    }

    pub fn with_interval(self, interval: u128) -> (r: Self)
        ensures
            r.every() == interval,
            r.name() == self.name(),
            r.timeout() == self.timeout(),
            r.current() == self.current(),
    {
        EndpointPublicationLoop { interval, ..self }
    }

    pub fn with_publish_timeout(self, timeout: u128) -> (r: Self)
        ensures
            r.timeout() == timeout,
            r.name() == self.name(),
            r.every() == self.every(),
            r.current() == self.current(),
    {
        EndpointPublicationLoop { publish_timeout: timeout, ..self }
    }

    /// Whether an attempt is being made.
    pub open spec fn attempting(self) -> bool {
        self.current() == Some(ScheduledPublish::Attempting)
    }

    /// Decides what follows from an event. The end of an interval starts a publication,
    /// but for an attempt that is being made; a change of an observed endpoint replaces even
    /// that one.
    pub fn on_event(&mut self, event: LoopEvent) -> (r: LoopAction)
        ensures
            final(self).name() == old(self).name(),
            final(self).every() == old(self).every(),
            final(self).timeout() == old(self).timeout(),
            r.reset_interval == (event is IntervalElapsed),
            r.start_publish == (match event {
                LoopEvent::IntervalElapsed => !old(self).attempting(),
                LoopEvent::EndpointChanged { observed, .. } => observed,
                _ => false,
            }),
            final(self).current() == (if r.start_publish {
                Some(ScheduledPublish::Debouncing)
            } else {
                match event {
                    LoopEvent::AttemptStarted => match old(self).current() {
                        Some(_) => Some(ScheduledPublish::Attempting),
                        None => None,
                    },
                    LoopEvent::PublishFinished => None,
                    _ => old(self).current(),
                }
            }),
    {
        match event {
            LoopEvent::AttemptStarted => {
                if self.current.is_some() {
                    self.current = Some(ScheduledPublish::Attempting);
                }
                LoopAction { reset_interval: false, start_publish: false }
            },
            LoopEvent::PublishFinished => {
                self.current = None;
                LoopAction { reset_interval: false, start_publish: false }
            },
            LoopEvent::IntervalElapsed => {
                let attempting = match self.current {
                    Some(ScheduledPublish::Attempting) => true,
                    _ => false,
                };
                if !attempting {
                    self.current = Some(ScheduledPublish::Debouncing);
                }
                LoopAction { reset_interval: true, start_publish: !attempting }
            },
            LoopEvent::EndpointChanged { observed, update } => {
                let start = observed && local_endpoint_update_requires_publish(update);
                if start {
                    self.current = Some(ScheduledPublish::Debouncing);
                }
                LoopAction { reset_interval: false, start_publish: start }
            },
            LoopEvent::UpdatesClosed => LoopAction { reset_interval: false, start_publish: false },
        }
    }
}

/// How important it is to tell of something.
#[derive(Debug, Clone, Copy, PartialEq, Eq, Structural)]
pub enum LogLevel {
    Debug,
    Warn,
    Error,
}

/// What became of an attempt.
#[derive(Debug, PartialEq, Eq)]
pub enum AttemptResult {
    Finished(Result<PublishReport, PublishersError>),
    TimedOut,
}

/// What is told of an attempt.
#[derive(Debug, PartialEq, Eq)]
pub struct AttemptSummary {
    pub published: bool,
    pub level: LogLevel,
    pub message: &'static str,
}

/// Sums an attempt up: it published where a publisher succeeded.
pub fn summarize_attempt(result: &AttemptResult) -> (r: AttemptSummary)
    ensures
        match *result {
            AttemptResult::Finished(Ok(report)) => r.published && (if report.errors@.len() == 0 {
                r.level is Debug && r.message@ == "published resolver endpoints"@
            } else {
                r.level is Warn && r.message@ == "dns publish partially failed"@
            }),
            AttemptResult::Finished(Err(_)) => !r.published && r.level is Error && r.message@
                == "dns publish failed"@,
            AttemptResult::TimedOut => !r.published && r.level is Warn && r.message@
                == "dns publish timed out"@,
        },
{
    match result {
        AttemptResult::Finished(Ok(report)) => if report.is_complete() {
            AttemptSummary {
                published: true,
                level: LogLevel::Debug,
                message: "published resolver endpoints",
            }
        } else {
            AttemptSummary {
                published: true,
                level: LogLevel::Warn,
                message: "dns publish partially failed",
            }
        },
        AttemptResult::Finished(Err(_)) => AttemptSummary {
            published: false,
            level: LogLevel::Error,
            message: "dns publish failed",
        },
        AttemptResult::TimedOut => AttemptSummary {
            published: false,
            level: LogLevel::Warn,
            message: "dns publish timed out",
        },
    }
}

} // verus!
