use rigfarm::entities::{Gpu, MoveRigRequest, NewFarm, NewRig};
use rigfarm::store::{Store, StoreError};

fn new_farm(name: &str) -> NewFarm {
    NewFarm { name: name.to_string(), location: None }
}

fn new_rig(name: &str, farm_id: Option<i64>) -> NewRig {
    NewRig {
        name: name.to_string(),
        mac_address: "00:11:22:33:44:55".to_string(),
        location: None,
        farm_id,
    }
}

fn gpu_request(name: &str, rig_id: Option<i64>, temp: f64, watt: f64) -> Gpu {
    Gpu {
        id: 0,
        name: name.to_string(),
        temp_bits: temp.to_bits(),
        watt_bits: watt.to_bits(),
        rig_id,
    }
}

#[test]
fn create_farm_assigns_sequential_ids() {
    let mut store = Store::new();
    let a = store.create_farm(&new_farm("A"));
    let b = store.create_farm(&new_farm("B"));
    assert_eq!(a, 1);
    assert_eq!(b, 2);
}

#[test]
fn update_farm_changes_the_row_and_reports_it() {
    let mut store = Store::new();
    let id = store.create_farm(&new_farm("Old"));
    let updated = store.update_farm(
        id,
        &NewFarm { name: "New".to_string(), location: Some("north".to_string()) },
    );
    assert!(updated);
    let farms = store.get_farms();
    assert_eq!(farms[0].name, "New");
    assert_eq!(farms[0].location, Some("north".to_string()));
}

#[test]
fn update_of_unknown_farm_affects_no_row() {
    let mut store = Store::new();
    store.create_farm(&new_farm("A"));
    let updated = store.update_farm(77, &new_farm("B"));
    assert!(!updated);
    assert_eq!(store.get_farms()[0].name, "A");
}

#[test]
fn delete_farm_orphans_its_rigs() {
    let mut store = Store::new();
    let fid = store.create_farm(&new_farm("Doomed"));
    let rid = store.create_rig(&new_rig("R", Some(fid))).unwrap();
    let deleted = store.delete_farm(fid);
    assert!(deleted);
    assert_eq!(store.get_farms().len(), 0);
    let rigs = store.get_rigs();
    assert_eq!(rigs.len(), 1);
    assert_eq!(rigs[0].id, rid);
    assert_eq!(rigs[0].farm_id, None);
}

#[test]
fn delete_of_unknown_farm_is_reported() {
    let mut store = Store::new();
    assert!(!store.delete_farm(9));
}

#[test]
fn create_rig_with_missing_farm_is_rejected() {
    let mut store = Store::new();
    let r = store.create_rig(&new_rig("R", Some(42)));
    assert_eq!(r, Err(StoreError::MissingFarm));
    assert_eq!(store.get_rigs().len(), 0);
}

#[test]
fn add_gpu_without_rig_inserts_placeholder_rig() {
    let mut store = Store::new();
    let gid = store.add_gpu(&gpu_request("G", None, 61.5, 123.0)).unwrap();
    let rigs = store.get_rigs_with_gpus();
    assert_eq!(rigs.len(), 1);
    assert_eq!(rigs[0].name, "New Rig");
    assert_eq!(rigs[0].mac_address, "Unknown MAC");
    assert_eq!(rigs[0].location, Some("Unknown Location".to_string()));
    assert_eq!(rigs[0].gpus.len(), 1);
    assert_eq!(rigs[0].gpus[0].id, gid);
    assert_eq!(f64::from_bits(rigs[0].gpus[0].temp_bits), 61.5);
    assert_eq!(rigs[0].gpus[0].rig_id, Some(rigs[0].id));
}

#[test]
fn add_gpu_with_missing_rig_is_rejected() {
    let mut store = Store::new();
    let r = store.add_gpu(&gpu_request("G", Some(5), 1.0, 2.0));
    assert_eq!(r, Err(StoreError::MissingRig));
}

#[test]
fn move_rig_to_missing_farm_is_rejected_by_the_store() {
    let mut store = Store::new();
    let fid = store.create_farm(&new_farm("Home"));
    let rid = store.create_rig(&new_rig("R", Some(fid))).unwrap();
    let r = store.update_rig_farm(rid, &MoveRigRequest { farm_id: 404 });
    assert_eq!(r, Err(StoreError::MissingFarm));
    // Nothing changed: a later aggregation still shows the rig at home.
    let farms = store.get_farms();
    assert_eq!(farms.len(), 1);
    assert_eq!(farms[0].rigs.len(), 1);
    assert_eq!(farms[0].rigs[0].id, rid);
}

#[test]
fn move_rig_to_existing_farm_shows_in_next_aggregation() {
    let mut store = Store::new();
    let home = store.create_farm(&new_farm("Home"));
    let away = store.create_farm(&new_farm("Away"));
    let rid = store.create_rig(&new_rig("R", Some(home))).unwrap();
    store.add_gpu(&gpu_request("G", Some(rid), 60.0, 150.0)).unwrap();

    let before = store.get_farms();
    assert_eq!(before[0].id, home);
    assert_eq!(before[0].rigs.len(), 1);
    assert_eq!(before[1].id, away);
    assert_eq!(before[1].rigs.len(), 0);

    let moved = store.update_rig_farm(rid, &MoveRigRequest { farm_id: away });
    assert_eq!(moved, Ok(true));

    let after = store.get_farms();
    assert_eq!(after.len(), 2);
    assert_eq!(after[0].id, home);
    assert_eq!(after[0].rigs.len(), 0);
    assert_eq!(after[1].id, away);
    assert_eq!(after[1].rigs.len(), 1);
    assert_eq!(after[1].rigs[0].id, rid);
    assert_eq!(after[1].rigs[0].gpus.len(), 1);
    assert_eq!(after[1].rigs[0].gpus[0].name, "G");
}

#[test]
fn move_of_unknown_rig_affects_zero_rows() {
    let mut store = Store::new();
    let fid = store.create_farm(&new_farm("F"));
    let r = store.update_rig_farm(123, &MoveRigRequest { farm_id: fid });
    assert_eq!(r, Ok(false));
}

#[test]
fn join_rows_for_farm_without_rigs_has_null_rig_columns() {
    let mut store = Store::new();
    store.create_farm(&NewFarm { name: "Lonely".to_string(), location: Some("x".to_string()) });
    let rows = store.join_rows();
    assert_eq!(rows.len(), 1);
    assert_eq!(rows[0].farm_name, "Lonely");
    assert_eq!(rows[0].farm_location, Some("x".to_string()));
    assert_eq!(rows[0].rig_id, None);
    assert_eq!(rows[0].gpu_id, None);
}

#[test]
fn join_rows_for_rig_without_gpus_has_null_gpu_columns() {
    let mut store = Store::new();
    let fid = store.create_farm(&new_farm("F"));
    let rid = store.create_rig(&new_rig("R", Some(fid))).unwrap();
    let rows = store.join_rows();
    assert_eq!(rows.len(), 1);
    assert_eq!(rows[0].rig_id, Some(rid));
    assert_eq!(rows[0].gpu_id, None);
}

#[test]
fn join_rows_emit_one_row_per_gpu() {
    let mut store = Store::new();
    let fid = store.create_farm(&new_farm("F"));
    let rid = store.create_rig(&new_rig("R", Some(fid))).unwrap();
    store.add_gpu(&gpu_request("G1", Some(rid), 1.0, 2.0)).unwrap();
    store.add_gpu(&gpu_request("G2", Some(rid), 3.0, 4.0)).unwrap();
    let rows = store.join_rows();
    assert_eq!(rows.len(), 2);
    assert_eq!(rows[0].gpu_name, Some("G1".to_string()));
    assert_eq!(rows[1].gpu_name, Some("G2".to_string()));
}

#[test]
fn rigs_of_farm_filters_by_owner() {
    let mut store = Store::new();
    let a = store.create_farm(&new_farm("A"));
    let b = store.create_farm(&new_farm("B"));
    let ra = store.create_rig(&new_rig("RA", Some(a))).unwrap();
    store.create_rig(&new_rig("RB", Some(b))).unwrap();
    store.create_rig(&new_rig("Unassigned", None)).unwrap();
    let rigs = store.rigs_of_farm(a);
    assert_eq!(rigs.len(), 1);
    assert_eq!(rigs[0].id, ra);
}

#[test]
fn get_rigs_lists_every_rig_without_gpu_detail() {
    let mut store = Store::new();
    let fid = store.create_farm(&new_farm("F"));
    let rid = store.create_rig(&new_rig("R", Some(fid))).unwrap();
    store.add_gpu(&gpu_request("G", Some(rid), 1.0, 2.0)).unwrap();
    let rigs = store.get_rigs();
    assert_eq!(rigs.len(), 1);
    assert_eq!(rigs[0].gpus.len(), 0);
    let detailed = store.get_rigs_with_gpus();
    assert_eq!(detailed[0].gpus.len(), 1);
}

#[test]
fn get_farms_aggregates_the_scan() {
    let mut store = Store::new();
    let fid = store.create_farm(&new_farm("Site"));
    let r1 = store.create_rig(&new_rig("R1", Some(fid))).unwrap();
    store.create_rig(&new_rig("R2", Some(fid))).unwrap();
    store.add_gpu(&gpu_request("G1", Some(r1), 60.0, 150.0)).unwrap();
    store.add_gpu(&gpu_request("G2", Some(r1), 55.0, 140.0)).unwrap();
    let farms = store.get_farms();
    assert_eq!(farms.len(), 1);
    assert_eq!(farms[0].rigs.len(), 2);
    assert_eq!(farms[0].rigs[0].gpus.len(), 2);
    assert_eq!(farms[0].rigs[1].gpus.len(), 0);
}
