use rigfarm::entities::{GpuData, NewFarm, NewRig};
use rigfarm::protocol::{
    apply_frontend_command, handle_rig_frame, send_command_to_rigs, FrameAction, FrontendCommand,
    FrontendResponse,
};
use rigfarm::registry::{ChannelGroup, Registry};
use rigfarm::store::Store;

#[test]
fn telemetry_frame_is_recorded() {
    let data = GpuData {
        name: "G".to_string(),
        temp_bits: 61.0f64.to_bits(),
        watt_bits: 140.0f64.to_bits(),
        fan_speed_bits: 55.0f64.to_bits(),
    };
    let action = handle_rig_frame(Some(data), "{...}".to_string());
    match action {
        FrameAction::RecordTelemetry(t) => {
            assert_eq!(t.name, "G");
            assert_eq!(f64::from_bits(t.temp_bits), 61.0);
            assert_eq!(f64::from_bits(t.fan_speed_bits), 55.0);
        }
        FrameAction::Echo(_) => panic!("telemetry must be recorded"),
    }
}

#[test]
fn unparsed_frame_is_echoed_back() {
    let action = handle_rig_frame(None, "reboot".to_string());
    match action {
        FrameAction::Echo(text) => assert_eq!(text, "reboot"),
        FrameAction::RecordTelemetry(_) => panic!("plain text must be echoed"),
    }
}

#[test]
fn frontend_create_farm_reports_new_id() {
    let mut store = Store::new();
    let r = apply_frontend_command(
        &mut store,
        FrontendCommand::CreateFarm(NewFarm { name: "F".to_string(), location: None }),
    );
    match r {
        FrontendResponse::FarmCreated(id) => assert_eq!(id, 1),
        _ => panic!("expected a created farm"),
    }
    assert_eq!(store.get_farms().len(), 1);
}

#[test]
fn frontend_edit_farm_reports_whether_a_row_changed() {
    let mut store = Store::new();
    store.create_farm(&NewFarm { name: "F".to_string(), location: None });
    let hit = apply_frontend_command(
        &mut store,
        FrontendCommand::EditFarm(1, NewFarm { name: "F2".to_string(), location: None }),
    );
    assert!(matches!(hit, FrontendResponse::FarmUpdated(true)));
    let miss = apply_frontend_command(
        &mut store,
        FrontendCommand::EditFarm(9, NewFarm { name: "X".to_string(), location: None }),
    );
    assert!(matches!(miss, FrontendResponse::FarmUpdated(false)));
    assert_eq!(store.get_farms()[0].name, "F2");
}

#[test]
fn frontend_delete_farm_removes_the_row() {
    let mut store = Store::new();
    store.create_farm(&NewFarm { name: "F".to_string(), location: None });
    let r = apply_frontend_command(&mut store, FrontendCommand::DeleteFarm(1));
    assert!(matches!(r, FrontendResponse::FarmDeleted(true)));
    assert_eq!(store.get_farms().len(), 0);
    let again = apply_frontend_command(&mut store, FrontendCommand::DeleteFarm(1));
    assert!(matches!(again, FrontendResponse::FarmDeleted(false)));
}

#[test]
fn frontend_show_rigs_lists_the_farms_rigs() {
    let mut store = Store::new();
    let fid = store.create_farm(&NewFarm { name: "F".to_string(), location: None });
    store
        .create_rig(&NewRig {
            name: "R".to_string(),
            mac_address: "aa:bb".to_string(),
            location: None,
            farm_id: Some(fid),
        })
        .unwrap();
    let r = apply_frontend_command(&mut store, FrontendCommand::ShowRigs(fid));
    match r {
        FrontendResponse::Rigs(rigs) => {
            assert_eq!(rigs.len(), 1);
            assert_eq!(rigs[0].name, "R");
        }
        _ => panic!("expected a rig list"),
    }
}

#[test]
fn send_command_reaches_rig_agents_not_frontends() {
    let mut reg = Registry::new();
    let rig = reg.join(ChannelGroup::Rig);
    let front = reg.join(ChannelGroup::Frontend);
    send_command_to_rigs(&mut reg, "restart miner".to_string());
    let rig_messages: Vec<String> = reg.take_outbox(rig).into_iter().map(|m| m.0).collect();
    assert_eq!(rig_messages, vec!["restart miner".to_string()]);
    assert_eq!(reg.take_outbox(front).len(), 0);
}
