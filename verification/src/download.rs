//! Download orchestration: the place where peer-to-peer and cloud download
//! paths will be coordinated.  The engine currently drives each torrent on
//! its own, so the orchestrator holds no state yet.

use vstd::prelude::*;

verus! {

/// Coordinates downloads across their sources.
pub struct DownloadOrchestrator {
}

impl DownloadOrchestrator {
    /// An orchestrator with nothing scheduled.
    pub fn new() -> (r: DownloadOrchestrator)
    {
        DownloadOrchestrator {  }
    }
}

} // verus!
