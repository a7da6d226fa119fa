//! The download orchestrator shell.

use seedcore::download::DownloadOrchestrator;

#[test]
fn test_orchestrator_creation() {
    let _orchestrator = DownloadOrchestrator::new();
}
