//! The decisions of the background scanner loop.

use vstd::prelude::*;

use crate::sample::ScanSnapshot;

verus! {

/// What has just happened to the worker.
#[derive(Debug)]
pub enum WorkerEvent {
    /// It has started.
    Started,
    /// A scan has ended, with a snapshot unless it failed.
    Scanned(Option<ScanSnapshot>),
    /// A snapshot has been handed over.
    Delivered,
    /// A snapshot could not be handed over: nobody receives any more.
    Disconnected,
    /// The delay between scans is over.
    Waited,
}

/// What the worker does next.
#[derive(Debug)]
pub enum WorkerAction {
    /// Scan for networks.
    Scan,
    /// Hand a snapshot over.
    Send(ScanSnapshot),
    /// Wait for the delay between scans.
    Wait,
    /// Stop for good.
    Stop,
}

/// Decide what the worker does next. A failed scan is skipped; only a receiver that is
/// gone ends the loop.
pub fn next_action(event: WorkerEvent) -> (action: WorkerAction)
    ensures
        action == match event {
            WorkerEvent::Started => WorkerAction::Scan,
            WorkerEvent::Scanned(Some(snapshot)) => WorkerAction::Send(snapshot),
            WorkerEvent::Scanned(None) => WorkerAction::Wait,
            WorkerEvent::Delivered => WorkerAction::Wait,
            WorkerEvent::Disconnected => WorkerAction::Stop,
            WorkerEvent::Waited => WorkerAction::Scan,
        },
        action is Stop <==> event is Disconnected,
{
    match event {
        WorkerEvent::Started => WorkerAction::Scan,
        WorkerEvent::Scanned(scan) => match scan {
            Some(snapshot) => WorkerAction::Send(snapshot),
            None => WorkerAction::Wait,
        },
        WorkerEvent::Delivered => WorkerAction::Wait,
        WorkerEvent::Disconnected => WorkerAction::Stop,
        WorkerEvent::Waited => WorkerAction::Scan,
    }
}

} // verus!
