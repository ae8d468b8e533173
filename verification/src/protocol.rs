//! Decision logic of the real-time protocol.
//!
//! The transport shell parses inbound frames and performs delivery; every
//! decision — what a rig frame means, what a frontend request does to the
//! store, what goes out to the rig channel — is made here, on plain values,
//! and verified.

use vstd::prelude::*;

use crate::entities::{opt_str_model, GpuData, NewFarm, Rig};
use crate::registry::{reg_wf, spec_broadcast, ChannelGroup, Registry, ServerMessage};
use crate::store::{farm_exists, spec_rigs_of_farm, store_wf, FarmRecModel, Store, StoreModel};

verus! {

/// What the rig channel does with one inbound text frame.
pub enum FrameAction {
    /// The frame parsed as a telemetry payload: record it.
    RecordTelemetry(GpuData),
    /// Any other text is treated as a command; the sender is answered with
    /// an echo of it.
    Echo(String),
}

/// The decision for one inbound rig frame: a frame that parses as telemetry
/// is recorded; any other text is echoed back to the sender as a diagnostic,
/// and the connection stays open either way.
pub fn handle_rig_frame(parsed: Option<GpuData>, raw: String) -> (a: FrameAction)
    ensures
        match parsed {
            Some(d) => a matches FrameAction::RecordTelemetry(t) && t@ == d@,
            None => a matches FrameAction::Echo(s) && s@ == raw@,
        },
{
    match parsed {
        Some(d) => FrameAction::RecordTelemetry(d),
        None => FrameAction::Echo(raw),
    }
}

/// One parsed frontend request.
pub enum FrontendCommand {
    CreateFarm(NewFarm),
    EditFarm(i64, NewFarm),
    DeleteFarm(i64),
    ShowRigs(i64),
}

/// The outcome the frontend channel reports for one request. The booleans
/// carry whether a row was affected, as the store reports it.
pub enum FrontendResponse {
    FarmCreated(i64),
    FarmUpdated(bool),
    FarmDeleted(bool),
    Rigs(Vec<Rig>),
}

/// Applies one frontend request to the store and reports the outcome:
/// creating a farm yields its generated id, editing and deleting report
/// whether a row was affected, and listing yields the rigs of the named
/// farm. Every store change is exactly the one the store operation's own
/// contract states.
pub fn apply_frontend_command(store: &mut Store, cmd: FrontendCommand) -> (r: FrontendResponse)
    requires
        store_wf(old(store)@),
        old(store)@.next_farm_id < i64::MAX,
    ensures
        store_wf(final (store)@),
        match cmd {
            FrontendCommand::CreateFarm(nf) => r matches FrontendResponse::FarmCreated(id) && id
                == old(store)@.next_farm_id && final (store)@ == (StoreModel {
                farms: old(store)@.farms.push(
                    FarmRecModel {
                        id: old(store)@.next_farm_id,
                        name: nf.name@,
                        location: opt_str_model(nf.location),
                    },
                ),
                next_farm_id: (old(store)@.next_farm_id + 1) as i64,
                ..old(store)@
            }),
            FrontendCommand::EditFarm(id, nf) => r matches FrontendResponse::FarmUpdated(u) && u
                == farm_exists(old(store)@, id) && final (store)@.rigs == old(store)@.rigs && final (
            store)@.gpus == old(store)@.gpus && final (store)@.farms.len() == old(
                store,
            )@.farms.len() && (forall|j: int|
                0 <= j < old(store)@.farms.len() ==> (#[trigger] final (store)@.farms[j]) == (
                if old(store)@.farms[j].id == id {
                    FarmRecModel { id, name: nf.name@, location: opt_str_model(nf.location) }
                } else {
                    old(store)@.farms[j]
                })),
            FrontendCommand::DeleteFarm(id) => r matches FrontendResponse::FarmDeleted(d) && d
                == farm_exists(old(store)@, id) && (!d ==> final (store)@ == old(store)@) && (d
                ==> final (store)@.farms.len() == old(store)@.farms.len() - 1 && (forall|j: int|
                0 <= j < final (store)@.farms.len() ==> (#[trigger] final (store)@.farms[j]).id
                    != id)),
            FrontendCommand::ShowRigs(fid) => r matches FrontendResponse::Rigs(v)
                && crate::entities::rigs_model(v@) == spec_rigs_of_farm(old(store)@, fid) && final (
            store)@ == old(store)@,
        },
{
    match cmd {
        FrontendCommand::CreateFarm(nf) => {
            let id = store.create_farm(&nf);
            FrontendResponse::FarmCreated(id)
        },
        FrontendCommand::EditFarm(id, nf) => {
            let updated = store.update_farm(id, &nf);
            FrontendResponse::FarmUpdated(updated)
        },
        FrontendCommand::DeleteFarm(id) => {
            let deleted = store.delete_farm(id);
            FrontendResponse::FarmDeleted(deleted)
        },
        FrontendCommand::ShowRigs(fid) => {
            let rigs = store.rigs_of_farm(fid);
            FrontendResponse::Rigs(rigs)
        },
    }
}

/// Fans a command string out to every connected rig agent, never waiting on
/// any recipient.
pub fn send_command_to_rigs(registry: &mut Registry, command: String)
    requires
        reg_wf(old(registry)@),
    ensures
        reg_wf(final (registry)@),
        final (registry)@ == spec_broadcast(old(registry)@, ChannelGroup::Rig, command@),
{
    let message = ServerMessage(command);
    registry.broadcast(ChannelGroup::Rig, &message);
}

} // verus!
