//! Disconnect decisions for a client session.
//!
//! The surrounding client tracks, for every connected player, whether its
//! packet-reading task still runs, and disconnects the player when that
//! task ends. The scheduling lives outside this library; here stand the
//! decisions themselves, as pure functions from observed state to action.

use vstd::prelude::*;

verus! {

/// Marker for the disconnect half of a client: the piece that watches the
/// packet-reading task and decides when a player leaves.
pub struct DisconnectPlugin;

/// Per-player component: whether the packet-reading task still runs.
pub struct ReadPacketsTaskRunning(pub bool);

/// An event sent when a player is getting disconnected; the player is
/// named by its plain entity id.
pub struct DisconnectEvent {
    pub entity: u64,
}

/// The component value to record for a player whose packet-reading task
/// reports `task_finished`: it runs exactly while it is not finished.
pub fn read_packets_task_running(task_finished: bool) -> (r: ReadPacketsTaskRunning)
    ensures
        r.0 == !task_finished,
{
    ReadPacketsTaskRunning(!task_finished)
}

/// Whether a player must be disconnected: its tracked component was just
/// written (inserted or changed) and the task no longer runs.
pub fn should_disconnect(written: bool, current: &ReadPacketsTaskRunning) -> (r: bool)
    ensures
        r == (written && !current.0),
{
    written && !current.0
}

/// The event to send for one player, given its observed component: an
/// event exactly when the player must be disconnected, and for no other
/// player state.
pub fn disconnect_event(entity: u64, written: bool, current: &ReadPacketsTaskRunning) -> (r:
    Option<DisconnectEvent>)
    ensures
        r is Some <==> (written && !current.0),
        r is Some ==> r->0.entity == entity,
{
    if should_disconnect(written, current) {
        Some(DisconnectEvent { entity })
    } else {
        None
    }
}

} // verus!
