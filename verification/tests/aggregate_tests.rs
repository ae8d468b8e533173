use rigfarm::aggregate::aggregate_farms;
use rigfarm::entities::JoinRow;

fn full_row(
    farm_id: i64,
    farm_name: &str,
    rig_id: i64,
    rig_name: &str,
    gpu_id: i64,
    gpu_name: Option<&str>,
    temp: f64,
    watt: f64,
) -> JoinRow {
    JoinRow {
        farm_id,
        farm_name: farm_name.to_string(),
        farm_location: None,
        rig_id: Some(rig_id),
        rig_name: Some(rig_name.to_string()),
        rig_location: None,
        gpu_id: Some(gpu_id),
        gpu_name: gpu_name.map(|n| n.to_string()),
        gpu_temp_bits: Some(temp.to_bits()),
        gpu_watt_bits: Some(watt.to_bits()),
    }
}

fn rig_only_row(farm_id: i64, farm_name: &str, rig_id: i64, rig_name: &str) -> JoinRow {
    JoinRow {
        farm_id,
        farm_name: farm_name.to_string(),
        farm_location: None,
        rig_id: Some(rig_id),
        rig_name: Some(rig_name.to_string()),
        rig_location: None,
        gpu_id: None,
        gpu_name: None,
        gpu_temp_bits: None,
        gpu_watt_bits: None,
    }
}

fn farm_only_row(farm_id: i64, farm_name: &str) -> JoinRow {
    JoinRow {
        farm_id,
        farm_name: farm_name.to_string(),
        farm_location: None,
        rig_id: None,
        rig_name: None,
        rig_location: None,
        gpu_id: None,
        gpu_name: None,
        gpu_temp_bits: None,
        gpu_watt_bits: None,
    }
}

#[test]
fn aggregation_example_one_farm_two_rigs() {
    let rows = vec![
        full_row(1, "F1", 10, "R1", 100, Some("G1"), 60.0, 150.0),
        full_row(1, "F1", 10, "R1", 101, Some("G2"), 55.0, 140.0),
        rig_only_row(1, "F1", 20, "R2"),
    ];
    let farms = aggregate_farms(&rows);
    assert_eq!(farms.len(), 1);
    let farm = &farms[0];
    assert_eq!(farm.id, 1);
    assert_eq!(farm.name, "F1");
    assert_eq!(farm.location, None);
    assert_eq!(farm.rigs.len(), 2);
    let r1 = &farm.rigs[0];
    assert_eq!(r1.id, 10);
    assert_eq!(r1.name, "R1");
    assert_eq!(r1.farm_id, Some(1));
    assert_eq!(r1.gpus.len(), 2);
    assert_eq!(r1.gpus[0].id, 100);
    assert_eq!(r1.gpus[0].name, "G1");
    assert_eq!(f64::from_bits(r1.gpus[0].temp_bits), 60.0);
    assert_eq!(f64::from_bits(r1.gpus[0].watt_bits), 150.0);
    assert_eq!(r1.gpus[1].id, 101);
    assert_eq!(r1.gpus[1].name, "G2");
    assert_eq!(f64::from_bits(r1.gpus[1].temp_bits), 55.0);
    assert_eq!(f64::from_bits(r1.gpus[1].watt_bits), 140.0);
    let r2 = &farm.rigs[1];
    assert_eq!(r2.id, 20);
    assert_eq!(r2.name, "R2");
    assert_eq!(r2.gpus.len(), 0);
}

#[test]
fn empty_rows_give_empty_tree() {
    let rows: Vec<JoinRow> = Vec::new();
    let farms = aggregate_farms(&rows);
    assert_eq!(farms.len(), 0);
}

#[test]
fn null_gpu_name_defaults_to_empty_string() {
    let mut row = full_row(1, "F", 10, "R", 100, None, 42.0, 99.0);
    row.gpu_name = None;
    let farms = aggregate_farms(&vec![row]);
    assert_eq!(farms.len(), 1);
    let gpu = &farms[0].rigs[0].gpus[0];
    assert_eq!(gpu.id, 100);
    assert_eq!(gpu.name, "");
}

#[test]
fn null_readings_default_to_zero() {
    let mut row = full_row(1, "F", 10, "R", 100, Some("G"), 0.0, 0.0);
    row.gpu_temp_bits = None;
    row.gpu_watt_bits = None;
    let farms = aggregate_farms(&vec![row]);
    let gpu = &farms[0].rigs[0].gpus[0];
    assert_eq!(gpu.temp_bits, 0);
    assert_eq!(gpu.watt_bits, 0);
    assert_eq!(f64::from_bits(gpu.temp_bits), 0.0);
}

#[test]
fn farms_emitted_in_first_occurrence_order() {
    let rows = vec![
        farm_only_row(7, "Seven"),
        farm_only_row(3, "Three"),
        farm_only_row(7, "Seven"),
    ];
    let farms = aggregate_farms(&rows);
    assert_eq!(farms.len(), 2);
    assert_eq!(farms[0].id, 7);
    assert_eq!(farms[1].id, 3);
}

#[test]
fn repeated_farm_and_rig_rows_are_not_duplicated() {
    let rows = vec![
        rig_only_row(1, "F", 10, "R"),
        rig_only_row(1, "F", 10, "R"),
        rig_only_row(1, "F", 11, "S"),
    ];
    let farms = aggregate_farms(&rows);
    assert_eq!(farms.len(), 1);
    assert_eq!(farms[0].rigs.len(), 2);
    assert_eq!(farms[0].rigs[0].id, 10);
    assert_eq!(farms[0].rigs[1].id, 11);
}

#[test]
fn farm_without_rigs_has_empty_rig_list() {
    let farms = aggregate_farms(&vec![farm_only_row(5, "Empty site")]);
    assert_eq!(farms.len(), 1);
    assert_eq!(farms[0].rigs.len(), 0);
}

#[test]
fn each_qualifying_row_appends_one_gpu_entry() {
    // GPU ids are not deduplicated: a join that repeats a GPU id yields one
    // entry per row, an accepted property of the scan.
    let rows = vec![
        full_row(1, "F", 10, "R", 100, Some("G"), 1.0, 2.0),
        full_row(1, "F", 10, "R", 100, Some("G"), 1.0, 2.0),
    ];
    let farms = aggregate_farms(&rows);
    assert_eq!(farms[0].rigs[0].gpus.len(), 2);
}

#[test]
fn farm_name_copied_from_first_row() {
    let rows = vec![farm_only_row(1, "First"), farm_only_row(1, "Second")];
    let farms = aggregate_farms(&rows);
    assert_eq!(farms.len(), 1);
    assert_eq!(farms[0].name, "First");
}
