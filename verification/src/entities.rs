//! The entities of the fleet hierarchy and their mathematical models.
//!
//! GPU readings (temperature, power draw, fan speed) are carried as the raw
//! 64-bit patterns of the readings so that the verified core stays free of
//! floating point; the unverified shell converts to and from `f64` where the
//! readings are produced or displayed. The aggregator and the store never
//! compute on a reading, they only carry it, so the bit pattern is a faithful
//! stand-in.

use vstd::prelude::*;

verus! {

/// A request to create a farm: a name and an optional free-text location.
#[derive(Debug, Clone)]
pub struct NewFarm {
    pub name: String,
    pub location: Option<String>,
}

/// A request to create a rig: name, physical address, optional location and
/// an optional owning farm (a rig may start unassigned).
#[derive(Debug, Clone)]
pub struct NewRig {
    pub name: String,
    pub mac_address: String,
    pub location: Option<String>,
    pub farm_id: Option<i64>,
}

/// A request to move a rig to another farm.
#[derive(Debug, Clone)]
pub struct MoveRigRequest {
    pub farm_id: i64,
}

/// A GPU node of the aggregated tree.
#[derive(Debug, Clone)]
pub struct Gpu {
    pub id: i64,
    pub name: String,
    pub temp_bits: u64,
    pub watt_bits: u64,
    pub rig_id: Option<i64>,
}

/// A rig node of the aggregated tree, carrying its GPUs.
#[derive(Debug, Clone)]
pub struct Rig {
    pub id: i64,
    pub name: String,
    pub mac_address: String,
    pub location: Option<String>,
    pub farm_id: Option<i64>,
    pub gpus: Vec<Gpu>,
}

/// A farm node of the aggregated tree, carrying its rigs.
#[derive(Debug, Clone)]
pub struct Farm {
    pub id: i64,
    pub name: String,
    pub location: Option<String>,
    pub rigs: Vec<Rig>,
}

/// One flat row of the outer-join scan across farm, rig and gpu. The farm
/// columns are always present; every rig and GPU column is nullable, because
/// a farm may own no rigs and a rig may host no GPUs.
#[derive(Debug, Clone)]
pub struct JoinRow {
    pub farm_id: i64,
    pub farm_name: String,
    pub farm_location: Option<String>,
    pub rig_id: Option<i64>,
    pub rig_name: Option<String>,
    pub rig_location: Option<String>,
    pub gpu_id: Option<i64>,
    pub gpu_name: Option<String>,
    pub gpu_temp_bits: Option<u64>,
    pub gpu_watt_bits: Option<u64>,
}

/// A telemetry payload reported by a rig agent over the real-time channel.
#[derive(Debug, Clone)]
pub struct GpuData {
    pub name: String,
    pub temp_bits: u64,
    pub watt_bits: u64,
    pub fan_speed_bits: u64,
}

/// The view of an optional string: its character sequence, if present.
pub open spec fn opt_str_model(o: Option<String>) -> Option<Seq<char>> {
    match o {
        Some(s) => Some(s@),
        None => None,
    }
}

/// Mathematical model of a [`Gpu`].
#[verifier::ext_equal]
pub ghost struct GpuModel {
    pub id: i64,
    pub name: Seq<char>,
    pub temp_bits: u64,
    pub watt_bits: u64,
    pub rig_id: Option<i64>,
}

/// Mathematical model of a [`Rig`].
#[verifier::ext_equal]
pub ghost struct RigModel {
    pub id: i64,
    pub name: Seq<char>,
    pub mac_address: Seq<char>,
    pub location: Option<Seq<char>>,
    pub farm_id: Option<i64>,
    pub gpus: Seq<GpuModel>,
}

/// Mathematical model of a [`Farm`].
#[verifier::ext_equal]
pub ghost struct FarmModel {
    pub id: i64,
    pub name: Seq<char>,
    pub location: Option<Seq<char>>,
    pub rigs: Seq<RigModel>,
}

/// Mathematical model of a [`JoinRow`].
#[verifier::ext_equal]
pub ghost struct RowModel {
    pub farm_id: i64,
    pub farm_name: Seq<char>,
    pub farm_location: Option<Seq<char>>,
    pub rig_id: Option<i64>,
    pub rig_name: Option<Seq<char>>,
    pub rig_location: Option<Seq<char>>,
    pub gpu_id: Option<i64>,
    pub gpu_name: Option<Seq<char>>,
    pub gpu_temp_bits: Option<u64>,
    pub gpu_watt_bits: Option<u64>,
}

/// Mathematical model of a [`GpuData`] telemetry payload.
#[verifier::ext_equal]
pub ghost struct GpuDataModel {
    pub name: Seq<char>,
    pub temp_bits: u64,
    pub watt_bits: u64,
    pub fan_speed_bits: u64,
}

impl View for Gpu {
    type V = GpuModel;

    open spec fn view(&self) -> GpuModel {
        GpuModel {
            id: self.id,
            name: self.name@,
            temp_bits: self.temp_bits,
            watt_bits: self.watt_bits,
            rig_id: self.rig_id,
        }
    }
}

impl View for Rig {
    type V = RigModel;

    open spec fn view(&self) -> RigModel {
        RigModel {
            id: self.id,
            name: self.name@,
            mac_address: self.mac_address@,
            location: opt_str_model(self.location),
            farm_id: self.farm_id,
            gpus: self.gpus@.map_values(|g: Gpu| g@),
        }
    }
}

impl View for Farm {
    type V = FarmModel;

    open spec fn view(&self) -> FarmModel {
        FarmModel {
            id: self.id,
            name: self.name@,
            location: opt_str_model(self.location),
            rigs: self.rigs@.map_values(|r: Rig| r@),
        }
    }
}

impl View for JoinRow {
    type V = RowModel;

    open spec fn view(&self) -> RowModel {
        RowModel {
            farm_id: self.farm_id,
            farm_name: self.farm_name@,
            farm_location: opt_str_model(self.farm_location),
            rig_id: self.rig_id,
            rig_name: opt_str_model(self.rig_name),
            rig_location: opt_str_model(self.rig_location),
            gpu_id: self.gpu_id,
            gpu_name: opt_str_model(self.gpu_name),
            gpu_temp_bits: self.gpu_temp_bits,
            gpu_watt_bits: self.gpu_watt_bits,
        }
    }
}

impl View for GpuData {
    type V = GpuDataModel;

    open spec fn view(&self) -> GpuDataModel {
        GpuDataModel {
            name: self.name@,
            temp_bits: self.temp_bits,
            watt_bits: self.watt_bits,
            fan_speed_bits: self.fan_speed_bits,
        }
    }
}

/// The models of a sequence of farm nodes.
pub open spec fn farms_model(s: Seq<Farm>) -> Seq<FarmModel> {
    s.map_values(|f: Farm| f@)
}

/// The models of a sequence of rig nodes.
pub open spec fn rigs_model(s: Seq<Rig>) -> Seq<RigModel> {
    s.map_values(|r: Rig| r@)
}

/// The models of a sequence of GPU nodes.
pub open spec fn gpus_model(s: Seq<Gpu>) -> Seq<GpuModel> {
    s.map_values(|g: Gpu| g@)
}

/// The models of a sequence of join rows.
pub open spec fn rows_model(s: Seq<JoinRow>) -> Seq<RowModel> {
    s.map_values(|r: JoinRow| r@)
}

/// Clones an optional string; the model is unchanged.
pub fn clone_opt_string(o: &Option<String>) -> (r: Option<String>)
    ensures
        opt_str_model(r) == opt_str_model(*o),
{
    match o {
        Some(s) => Some(s.clone()),
        None => None,
    }
}

/// Mapping to models distributes over push.
pub proof fn lemma_gpus_model_push(s: Seq<Gpu>, g: Gpu)
    ensures
        gpus_model(s.push(g)) == gpus_model(s).push(g@),
{
    assert(gpus_model(s.push(g)) =~= gpus_model(s).push(g@));
}

/// Mapping to models distributes over push.
pub proof fn lemma_rigs_model_push(s: Seq<Rig>, r: Rig)
    ensures
        rigs_model(s.push(r)) == rigs_model(s).push(r@),
{
    assert(rigs_model(s.push(r)) =~= rigs_model(s).push(r@));
}

/// Mapping to models distributes over push.
pub proof fn lemma_rows_model_push(s: Seq<JoinRow>, r: JoinRow)
    ensures
        rows_model(s.push(r)) == rows_model(s).push(r@),
{
    assert(rows_model(s.push(r)) =~= rows_model(s).push(r@));
}

/// Mapping to models distributes over concatenation.
pub proof fn lemma_rows_model_concat(a: Seq<JoinRow>, b: Seq<JoinRow>)
    ensures
        rows_model(a + b) == rows_model(a) + rows_model(b),
{
    assert(rows_model(a + b) =~= rows_model(a) + rows_model(b));
}

/// The model of an empty GPU list is empty.
pub proof fn lemma_gpus_model_empty()
    ensures
        gpus_model(Seq::<Gpu>::empty()) == Seq::<GpuModel>::empty(),
{
    assert(gpus_model(Seq::<Gpu>::empty()) =~= Seq::<GpuModel>::empty());
}

} // verus!
