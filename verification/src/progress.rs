//! What happens while an archive is packed or unpacked, as its users see it.
use crate::error::Error;
use vstd::prelude::*;
use vstd::string::StringExecFns;

verus! {

/// What is reported while an archive is worked on.
#[derive(Debug, Clone)]
pub enum ProgressEvent {
    Started { total_bytes: u64 },
    FileStarted { path: String, size: u64 },
    Bytes { delta: u64 },
    FileFinished { path: String },
    Finished,
    Error(String),
}

/// What a progress bar does about an event.
#[derive(Debug, Clone)]
pub enum BarAction {
    /// Nothing changes.
    Keep,
    /// Shows the file and counts it.
    NextFile(String),
    /// Stops with a message.
    Finish(String),
    /// Stops where it stands, with a message.
    Abandon(String),
}

impl ProgressEvent {
    /// What a progress bar does about this event. Sizes are coarse for archive
    /// work, so only files are counted.
    pub fn bar_action(&self) -> (r: BarAction)
        ensures
            match *self {
                ProgressEvent::FileStarted { path, size } => r matches BarAction::NextFile(p) && p@
                    == path@,
                ProgressEvent::Finished => r matches BarAction::Finish(m) && m@ == "done"@,
                ProgressEvent::Error(e) => r matches BarAction::Abandon(m) && m@ == "error: "@
                    + e@,
                _ => r is Keep,
            },
    {
        match self {
            ProgressEvent::FileStarted { path, .. } => BarAction::NextFile(path.clone()),
            ProgressEvent::Finished => BarAction::Finish("done".to_owned()),
            ProgressEvent::Error(e) => BarAction::Abandon(
                "error: ".to_owned().concat(e.as_str()),
            ),
            _ => BarAction::Keep,
        }
    }
}

/// The last event of a piece of work: that it is finished, or its error.
pub fn outcome(result: &Result<(), Error>) -> (r: ProgressEvent)
    ensures
        match *result {
            Ok(_) => r is Finished,
            Err(e) => r matches ProgressEvent::Error(m) && m@ == e.message_spec(),
        },
{
    match result {
        Ok(_) => ProgressEvent::Finished,
        Err(e) => ProgressEvent::Error(e.message()),
    }
}

} // verus!
