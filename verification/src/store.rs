//! A model of the relational store boundary.
//!
//! The controller keeps its topology in three tables — farm, rig and gpu —
//! reached through point lookups, inserts returning a generated id, updates
//! and deletes by id, and one outer-join scan for aggregation. This module
//! is the verified semantics of that boundary: an in-memory store with the
//! same referential-integrity rules the relational schema enforces, so that
//! the write-side decisions (which requests succeed, which are refused and
//! why) and the shape of the scan are stated and proved here. The shell that
//! talks to the actual database issues one statement per operation, exactly
//! as specified by these contracts.
//!
//! Reassigning a rig to a farm that does not exist is refused at this
//! boundary ([`Store::update_rig_farm`]): the store is the sole validator,
//! the aggregator never pre-validates.

use vstd::prelude::*;

use crate::aggregate::{
    aggregate, aggregate_farms, has_farm_row, has_rig_row, lemma_aggregate_sound, rigs_sound,
};
use crate::lookup::{has_id, lemma_id_index};
use crate::entities::{
    farms_model, opt_str_model, rigs_model, rows_model, Farm, Gpu, GpuModel, JoinRow, MoveRigRequest,
    NewFarm, NewRig, Rig, RigModel, RowModel,
};

verus! {

/// A row of the farm table.
#[derive(Debug, Clone)]
pub struct FarmRecord {
    pub id: i64,
    pub name: String,
    pub location: Option<String>,
}

/// A row of the rig table.
#[derive(Debug, Clone)]
pub struct RigRecord {
    pub id: i64,
    pub name: String,
    pub mac_address: String,
    pub location: Option<String>,
    pub farm_id: Option<i64>,
}

/// A row of the gpu table.
#[derive(Debug, Clone)]
pub struct GpuRecord {
    pub id: i64,
    pub name: String,
    pub temp_bits: u64,
    pub watt_bits: u64,
    pub rig_id: Option<i64>,
}

/// Mathematical model of a [`FarmRecord`].
#[verifier::ext_equal]
pub ghost struct FarmRecModel {
    pub id: i64,
    pub name: Seq<char>,
    pub location: Option<Seq<char>>,
}

/// Mathematical model of a [`RigRecord`].
#[verifier::ext_equal]
pub ghost struct RigRecModel {
    pub id: i64,
    pub name: Seq<char>,
    pub mac_address: Seq<char>,
    pub location: Option<Seq<char>>,
    pub farm_id: Option<i64>,
}

/// Mathematical model of a [`GpuRecord`].
#[verifier::ext_equal]
pub ghost struct GpuRecModel {
    pub id: i64,
    pub name: Seq<char>,
    pub temp_bits: u64,
    pub watt_bits: u64,
    pub rig_id: Option<i64>,
}

impl View for FarmRecord {
    type V = FarmRecModel;

    open spec fn view(&self) -> FarmRecModel {
        FarmRecModel { id: self.id, name: self.name@, location: opt_str_model(self.location) }
    }
}

impl View for RigRecord {
    type V = RigRecModel;

    open spec fn view(&self) -> RigRecModel {
        RigRecModel {
            id: self.id,
            name: self.name@,
            mac_address: self.mac_address@,
            location: opt_str_model(self.location),
            farm_id: self.farm_id,
        }
    }
}

impl View for GpuRecord {
    type V = GpuRecModel;

    open spec fn view(&self) -> GpuRecModel {
        GpuRecModel {
            id: self.id,
            name: self.name@,
            temp_bits: self.temp_bits,
            watt_bits: self.watt_bits,
            rig_id: self.rig_id,
        }
    }
}

/// Mathematical model of a [`Store`]: the three tables in insertion order
/// and the next id each table will generate.
#[verifier::ext_equal]
pub ghost struct StoreModel {
    pub farms: Seq<FarmRecModel>,
    pub rigs: Seq<RigRecModel>,
    pub gpus: Seq<GpuRecModel>,
    pub next_farm_id: i64,
    pub next_rig_id: i64,
    pub next_gpu_id: i64,
}

/// Whether the farm table holds a row with id `fid`.
pub open spec fn farm_exists(s: StoreModel, fid: i64) -> bool {
    exists|k: int| 0 <= k < s.farms.len() && (#[trigger] s.farms[k]).id == fid
}

/// Whether the rig table holds a row with id `rid`.
pub open spec fn rig_exists(s: StoreModel, rid: i64) -> bool {
    exists|k: int| 0 <= k < s.rigs.len() && (#[trigger] s.rigs[k]).id == rid
}

/// A rig's farm reference, when present, names a live farm.
pub open spec fn rig_fk_ok(s: StoreModel, r: RigRecModel) -> bool {
    match r.farm_id {
        Some(f) => farm_exists(s, f),
        None => true,
    }
}

/// A GPU's rig reference, when present, names a live rig.
pub open spec fn gpu_fk_ok(s: StoreModel, g: GpuRecModel) -> bool {
    match g.rig_id {
        Some(r) => rig_exists(s, r),
        None => true,
    }
}

/// Well-formedness of the store: generated ids are below the next id and
/// unique within their table, and every foreign key names a live row.
pub open spec fn store_wf(s: StoreModel) -> bool {
    &&& forall|i: int| 0 <= i < s.farms.len() ==> (#[trigger] s.farms[i]).id < s.next_farm_id
    &&& forall|i: int, j: int|
        0 <= i < j < s.farms.len() ==> (#[trigger] s.farms[i]).id != (#[trigger] s.farms[j]).id
    &&& forall|i: int| 0 <= i < s.rigs.len() ==> (#[trigger] s.rigs[i]).id < s.next_rig_id
    &&& forall|i: int, j: int|
        0 <= i < j < s.rigs.len() ==> (#[trigger] s.rigs[i]).id != (#[trigger] s.rigs[j]).id
    &&& forall|i: int| 0 <= i < s.gpus.len() ==> (#[trigger] s.gpus[i]).id < s.next_gpu_id
    &&& forall|i: int, j: int|
        0 <= i < j < s.gpus.len() ==> (#[trigger] s.gpus[i]).id != (#[trigger] s.gpus[j]).id
    &&& forall|i: int| 0 <= i < s.rigs.len() ==> rig_fk_ok(s, #[trigger] s.rigs[i])
    &&& forall|i: int| 0 <= i < s.gpus.len() ==> gpu_fk_ok(s, #[trigger] s.gpus[i])
}

/// Why the store refuses an operation: a referential-integrity violation at
/// the boundary.
#[derive(Debug, Clone, Copy, PartialEq, Eq, Structural)]
pub enum StoreError {
    MissingFarm,
    MissingRig,
}

/// The in-memory store: the three tables and their id generators.
pub struct Store {
    farms: Vec<FarmRecord>,
    rigs: Vec<RigRecord>,
    gpus: Vec<GpuRecord>,
    next_farm_id: i64,
    next_rig_id: i64,
    next_gpu_id: i64,
}

impl View for Store {
    type V = StoreModel;

    closed spec fn view(&self) -> StoreModel {
        StoreModel {
            farms: self.farms@.map_values(|f: FarmRecord| f@),
            rigs: self.rigs@.map_values(|r: RigRecord| r@),
            gpus: self.gpus@.map_values(|g: GpuRecord| g@),
            next_farm_id: self.next_farm_id,
            next_rig_id: self.next_rig_id,
            next_gpu_id: self.next_gpu_id,
        }
    }
}

impl Store {
    /// An empty store; ids are generated from 1, as the schema's rowids are.
    pub fn new() -> (s: Store)
        ensures
            store_wf(s@),
            s@.farms == Seq::<FarmRecModel>::empty(),
            s@.rigs == Seq::<RigRecModel>::empty(),
            s@.gpus == Seq::<GpuRecModel>::empty(),
            s@.next_farm_id == 1,
            s@.next_rig_id == 1,
            s@.next_gpu_id == 1,
    {
        let s = Store {
            farms: Vec::new(),
            rigs: Vec::new(),
            gpus: Vec::new(),
            next_farm_id: 1,
            next_rig_id: 1,
            next_gpu_id: 1,
        };
        proof {
            assert(s@.farms =~= Seq::<FarmRecModel>::empty());
            assert(s@.rigs =~= Seq::<RigRecModel>::empty());
            assert(s@.gpus =~= Seq::<GpuRecModel>::empty());
        }
        s
    }

    /// Inserts a farm and returns its generated id.
    pub fn create_farm(&mut self, new: &NewFarm) -> (id: i64)
        requires
            store_wf(old(self)@),
            old(self)@.next_farm_id < i64::MAX,
        ensures
            store_wf(final (self)@),
            id == old(self)@.next_farm_id,
            final (self)@ == (StoreModel {
                farms: old(self)@.farms.push(
                    FarmRecModel {
                        id,
                        name: new.name@,
                        location: opt_str_model(new.location),
                    },
                ),
                next_farm_id: (id + 1) as i64,
                ..old(self)@
            }),
    {
        let ghost s0 = self@;
        let id = self.next_farm_id;
        self.next_farm_id = self.next_farm_id + 1;
        self.farms.push(
            FarmRecord {
                id,
                name: new.name.clone(),
                location: crate::entities::clone_opt_string(&new.location),
            },
        );
        proof {
            let s1 = self@;
            let nf = FarmRecModel { id, name: new.name@, location: opt_str_model(new.location) };
            assert(s1.farms =~= s0.farms.push(nf));
            assert(s1 =~= (StoreModel {
                farms: s0.farms.push(nf),
                next_farm_id: (id + 1) as i64,
                ..s0
            }));
            lemma_tables_wf_after_farm_push(s0, s1, nf);
        }
        id
    }

    /// Updates the farm with this id, leaving every other row untouched; an
    /// unknown id changes nothing. Returns whether a row was changed, as the
    /// statement's affected-row count reports it.
    pub fn update_farm(&mut self, id: i64, data: &NewFarm) -> (updated: bool)
        requires
            store_wf(old(self)@),
        ensures
            store_wf(final (self)@),
            updated == farm_exists(old(self)@, id),
            final (self)@.rigs == old(self)@.rigs,
            final (self)@.gpus == old(self)@.gpus,
            final (self)@.next_farm_id == old(self)@.next_farm_id,
            final (self)@.next_rig_id == old(self)@.next_rig_id,
            final (self)@.next_gpu_id == old(self)@.next_gpu_id,
            final (self)@.farms.len() == old(self)@.farms.len(),
            forall|j: int|
                0 <= j < old(self)@.farms.len() ==> (#[trigger] final (self)@.farms[j]) == (if old(
                    self,
                )@.farms[j].id == id {
                    FarmRecModel {
                        id,
                        name: data.name@,
                        location: opt_str_model(data.location),
                    }
                } else {
                    old(self)@.farms[j]
                }),
    {
        let ghost s0 = self@;
        let mut i: usize = 0;
        while i < self.farms.len()
            invariant
                i <= self.farms.len(),
                s0 == old(self)@,
                store_wf(s0),
                self@ == s0,
                forall|j: int| 0 <= j < i ==> (#[trigger] s0.farms[j]).id != id,
            decreases self.farms.len() - i,
        {
            if self.farms[i].id == id {
                proof {
                    assert(s0.farms[i as int] == self.farms@[i as int]@);
                }
                self.farms.remove(i);
                self.farms.insert(
                    i,
                    FarmRecord {
                        id,
                        name: data.name.clone(),
                        location: crate::entities::clone_opt_string(&data.location),
                    },
                );
                proof {
                    let s1 = self@;
                    let k = i as int;
                    let nf = FarmRecModel {
                        id,
                        name: data.name@,
                        location: opt_str_model(data.location),
                    };
                    assert(s1.farms =~= s0.farms.update(k, nf));
                    assert(farm_exists(s0, id));
                    assert forall|j: int| 0 <= j < s0.farms.len() implies (
                    #[trigger] s1.farms[j]) == (if s0.farms[j].id == id {
                        nf
                    } else {
                        s0.farms[j]
                    }) by {
                        if j != k {
                            assert(s1.farms[j] == s0.farms[j]);
                            if j < k {
                                assert(s0.farms[j].id != s0.farms[k].id);
                            } else {
                                assert(s0.farms[k].id != s0.farms[j].id);
                            }
                        }
                    }
                    lemma_tables_wf_after_farm_update(s0, s1, k, nf);
                }
                return true;
            }
            proof {
                assert(s0.farms[i as int] == self.farms@[i as int]@);
            }
            i += 1;
        }
        proof {
            if farm_exists(s0, id) {
                let k = choose|k: int|
                    0 <= k < s0.farms.len() && (#[trigger] s0.farms[k]).id == id;
            }
        }
        false
    }

    /// Deletes the farm with this id, orphaning its rigs: each rig that
    /// referenced it keeps its row with the farm reference cleared. An
    /// unknown id changes nothing. Returns whether a row was deleted.
    pub fn delete_farm(&mut self, id: i64) -> (deleted: bool)
        requires
            store_wf(old(self)@),
        ensures
            store_wf(final (self)@),
            deleted == farm_exists(old(self)@, id),
            final (self)@.gpus == old(self)@.gpus,
            final (self)@.next_farm_id == old(self)@.next_farm_id,
            final (self)@.next_rig_id == old(self)@.next_rig_id,
            final (self)@.next_gpu_id == old(self)@.next_gpu_id,
            final (self)@.rigs == old(self)@.rigs.map_values(
                |r: RigRecModel| orphan_rig(r, id),
            ),
            !farm_exists(old(self)@, id) ==> final (self)@.farms == old(self)@.farms,
            farm_exists(old(self)@, id) ==> final (self)@.farms.len() == old(
                self,
            )@.farms.len() - 1 && (forall|j: int|
                0 <= j < final (self)@.farms.len() ==> (#[trigger] final (self)@.farms[j]).id
                    != id) && (forall|fid: i64|
                fid != id ==> (farm_exists(final (self)@, fid) <==> farm_exists(
                    old(self)@,
                    fid,
                ))),
    {
        let ghost s0 = self@;
        // Clear the farm reference of every rig that points at the farm.
        let mut i: usize = 0;
        while i < self.rigs.len()
            invariant
                i <= self.rigs.len(),
                s0 == old(self)@,
                store_wf(s0),
                self@.farms == s0.farms,
                self@.gpus == s0.gpus,
                self@.next_farm_id == s0.next_farm_id,
                self@.next_rig_id == s0.next_rig_id,
                self@.next_gpu_id == s0.next_gpu_id,
                self@.rigs.len() == s0.rigs.len(),
                forall|j: int|
                    0 <= j < i ==> (#[trigger] self@.rigs[j]) == orphan_rig(s0.rigs[j], id),
                forall|j: int| i <= j < s0.rigs.len() ==> (#[trigger] self@.rigs[j]) == s0.rigs[j],
            decreases self.rigs.len() - i,
        {
            let ghost before = self@.rigs;
            let points_here = match self.rigs[i].farm_id {
                Some(f) => f == id,
                None => false,
            };
            if points_here {
                let mut r = self.rigs.remove(i);
                let ghost rm = r@;
                r.farm_id = None;
                proof {
                    assert(r@ =~= orphan_rig(rm, id));
                }
                self.rigs.insert(i, r);
                proof {
                    assert(self@.rigs =~= before.update(i as int, orphan_rig(rm, id)));
                }
            } else {
                proof {
                    assert(self@.rigs[i as int] == orphan_rig(before[i as int], id));
                }
            }
            i += 1;
        }
        let ghost s_mid = self@;
        proof {
            assert(s_mid.rigs =~= s0.rigs.map_values(|r: RigRecModel| orphan_rig(r, id)));
        }
        // Delete the farm row itself.
        let mut k: usize = 0;
        while k < self.farms.len()
            invariant
                k <= self.farms.len(),
                s0 == old(self)@,
                store_wf(s0),
                s_mid == self@,
                s_mid.farms == s0.farms,
                s_mid.gpus == s0.gpus,
                s_mid.next_farm_id == s0.next_farm_id,
                s_mid.next_rig_id == s0.next_rig_id,
                s_mid.next_gpu_id == s0.next_gpu_id,
                s_mid.rigs == s0.rigs.map_values(|r: RigRecModel| orphan_rig(r, id)),
                forall|j: int| 0 <= j < k ==> (#[trigger] s0.farms[j]).id != id,
            decreases self.farms.len() - k,
        {
            if self.farms[k].id == id {
                proof {
                    assert(s0.farms[k as int] == self.farms@[k as int]@);
                }
                self.farms.remove(k);
                proof {
                    let s1 = self@;
                    let kk = k as int;
                    assert(s1.farms =~= s0.farms.remove(kk));
                    s0.farms.remove_ensures(kk);
                    assert(farm_exists(s0, id));
                    lemma_wf_after_delete_farm(s0, s1, kk, id);
                }
                return true;
            }
            proof {
                assert(s0.farms[k as int] == self.farms@[k as int]@);
            }
            k += 1;
        }
        proof {
            if farm_exists(s0, id) {
                let w = choose|w: int|
                    0 <= w < s0.farms.len() && (#[trigger] s0.farms[w]).id == id;
            }
            let s1 = self@;
            assert forall|j: int| 0 <= j < s1.rigs.len() implies rig_fk_ok(
                s1,
                #[trigger] s1.rigs[j],
            ) by {
                assert(s1.rigs[j] == orphan_rig(s0.rigs[j], id));
                assert(rig_fk_ok(s0, s0.rigs[j]));
                match s1.rigs[j].farm_id {
                    Some(f) => {
                        let w = choose|w: int|
                            0 <= w < s0.farms.len() && (#[trigger] s0.farms[w]).id == f;
                        assert(s1.farms[w].id == f);
                    },
                    None => {},
                }
            }
            assert forall|j: int| 0 <= j < s1.gpus.len() implies gpu_fk_ok(
                s1,
                #[trigger] s1.gpus[j],
            ) by {
                assert(gpu_fk_ok(s0, s0.gpus[j]));
                match s1.gpus[j].rig_id {
                    Some(r) => {
                        let w = choose|w: int|
                            0 <= w < s0.rigs.len() && (#[trigger] s0.rigs[w]).id == r;
                        assert(s1.rigs[w] == orphan_rig(s0.rigs[w], id));
                        assert(s1.rigs[w].id == r);
                    },
                    None => {},
                }
            }
        }
        false
    }

    /// Inserts a rig and returns its generated id; a farm reference naming
    /// no live farm is refused, exactly as the schema's foreign key refuses
    /// it.
    pub fn create_rig(&mut self, new: &NewRig) -> (r: Result<i64, StoreError>)
        requires
            store_wf(old(self)@),
            old(self)@.next_rig_id < i64::MAX,
        ensures
            store_wf(final (self)@),
            match r {
                Ok(id) => (match new.farm_id {
                    Some(f) => farm_exists(old(self)@, f),
                    None => true,
                }) && id == old(self)@.next_rig_id && final (self)@ == (StoreModel {
                    rigs: old(self)@.rigs.push(
                        RigRecModel {
                            id,
                            name: new.name@,
                            mac_address: new.mac_address@,
                            location: opt_str_model(new.location),
                            farm_id: new.farm_id,
                        },
                    ),
                    next_rig_id: (id + 1) as i64,
                    ..old(self)@
                }),
                Err(e) => e == StoreError::MissingFarm && (new.farm_id matches Some(f)
                    && !farm_exists(old(self)@, f)) && final (self)@ == old(self)@,
            },
    {
        let ghost s0 = self@;
        match new.farm_id {
            Some(f) => {
                if !self.farm_id_exists(f) {
                    return Err(StoreError::MissingFarm);
                }
            },
            None => {},
        }
        let id = self.next_rig_id;
        self.next_rig_id = self.next_rig_id + 1;
        self.rigs.push(
            RigRecord {
                id,
                name: new.name.clone(),
                mac_address: new.mac_address.clone(),
                location: crate::entities::clone_opt_string(&new.location),
                farm_id: new.farm_id,
            },
        );
        proof {
            let s1 = self@;
            let nr = RigRecModel {
                id,
                name: new.name@,
                mac_address: new.mac_address@,
                location: opt_str_model(new.location),
                farm_id: new.farm_id,
            };
            assert(s1.rigs =~= s0.rigs.push(nr));
            assert(s1 =~= (StoreModel {
                rigs: s0.rigs.push(nr),
                next_rig_id: (id + 1) as i64,
                ..s0
            }));
            lemma_tables_wf_after_rig_push(s0, s1, nr);
        }
        Ok(id)
    }

    /// Inserts a GPU. A request without a rig reference first inserts a
    /// fresh placeholder rig and attaches the GPU to it; a request naming a
    /// rig attaches the GPU there, and is refused when no such rig is live.
    /// Returns the GPU's generated id.
    pub fn add_gpu(&mut self, gpu: &Gpu) -> (r: Result<i64, StoreError>)
        requires
            store_wf(old(self)@),
            old(self)@.next_rig_id < i64::MAX,
            old(self)@.next_gpu_id < i64::MAX,
        ensures
            store_wf(final (self)@),
            match r {
                Ok(id) => id == old(self)@.next_gpu_id && (match gpu.rig_id {
                    Some(rid) => rig_exists(old(self)@, rid) && final (self)@ == (StoreModel {
                        gpus: old(self)@.gpus.push(
                            GpuRecModel {
                                id,
                                name: gpu.name@,
                                temp_bits: gpu.temp_bits,
                                watt_bits: gpu.watt_bits,
                                rig_id: Some(rid),
                            },
                        ),
                        next_gpu_id: (id + 1) as i64,
                        ..old(self)@
                    }),
                    None => final (self)@ == (StoreModel {
                        rigs: old(self)@.rigs.push(placeholder_rig(old(self)@.next_rig_id)),
                        gpus: old(self)@.gpus.push(
                            GpuRecModel {
                                id,
                                name: gpu.name@,
                                temp_bits: gpu.temp_bits,
                                watt_bits: gpu.watt_bits,
                                rig_id: Some(old(self)@.next_rig_id),
                            },
                        ),
                        next_rig_id: (old(self)@.next_rig_id + 1) as i64,
                        next_gpu_id: (id + 1) as i64,
                        ..old(self)@
                    }),
                }),
                Err(e) => e == StoreError::MissingRig && (gpu.rig_id matches Some(rid)
                    && !rig_exists(old(self)@, rid)) && final (self)@ == old(self)@,
            },
    {
        let ghost s0 = self@;
        let rid: i64 = match gpu.rig_id {
            Some(rid) => {
                if !self.rig_id_exists(rid) {
                    return Err(StoreError::MissingRig);
                }
                rid
            },
            None => {
                let rid = self.next_rig_id;
                self.next_rig_id = self.next_rig_id + 1;
                self.rigs.push(
                    RigRecord {
                        id: rid,
                        name: "New Rig".to_owned(),
                        mac_address: "Unknown MAC".to_owned(),
                        location: Some("Unknown Location".to_owned()),
                        farm_id: None,
                    },
                );
                proof {
                    assert(self@.rigs =~= s0.rigs.push(placeholder_rig(rid)));
                    lemma_tables_wf_after_rig_push(s0, self@, placeholder_rig(rid));
                }
                rid
            },
        };
        let ghost s_mid = self@;
        let id = self.next_gpu_id;
        self.next_gpu_id = self.next_gpu_id + 1;
        self.gpus.push(
            GpuRecord {
                id,
                name: gpu.name.clone(),
                temp_bits: gpu.temp_bits,
                watt_bits: gpu.watt_bits,
                rig_id: Some(rid),
            },
        );
        proof {
            let s1 = self@;
            let ng = GpuRecModel {
                id,
                name: gpu.name@,
                temp_bits: gpu.temp_bits,
                watt_bits: gpu.watt_bits,
                rig_id: Some(rid),
            };
            assert(s1.gpus =~= s_mid.gpus.push(ng));
            assert(rig_exists(s_mid, rid)) by {
                match gpu.rig_id {
                    Some(_) => {
                        let w = choose|w: int|
                            0 <= w < s0.rigs.len() && (#[trigger] s0.rigs[w]).id == rid;
                        assert(s_mid.rigs[w].id == rid);
                    },
                    None => {
                        assert(s_mid.rigs[s_mid.rigs.len() - 1].id == rid);
                    },
                }
            }
            lemma_tables_wf_after_gpu_push(s_mid, s1, ng);
            match gpu.rig_id {
                Some(_) => {
                    assert(s1 =~= (StoreModel {
                        gpus: s0.gpus.push(ng),
                        next_gpu_id: (id + 1) as i64,
                        ..s0
                    }));
                },
                None => {
                    assert(s1 =~= (StoreModel {
                        rigs: s0.rigs.push(placeholder_rig(rid)),
                        gpus: s0.gpus.push(ng),
                        next_rig_id: (rid + 1) as i64,
                        next_gpu_id: (id + 1) as i64,
                        ..s0
                    }));
                },
            }
        }
        Ok(id)
    }

    /// Reassigns the rig with this id to the farm the request names. The
    /// store is the sole validator: a target farm that does not exist is
    /// refused and nothing changes; a rig id naming no row affects zero rows
    /// and reports so; otherwise exactly that rig's farm reference changes.
    pub fn update_rig_farm(&mut self, rig_id: i64, req: &MoveRigRequest) -> (r: Result<
        bool,
        StoreError,
    >)
        requires
            store_wf(old(self)@),
        ensures
            store_wf(final (self)@),
            match r {
                Ok(true) => rig_exists(old(self)@, rig_id) && farm_exists(
                    old(self)@,
                    req.farm_id,
                ) && final (self)@.farms == old(self)@.farms && final (self)@.gpus == old(
                    self,
                )@.gpus && final (self)@.next_farm_id == old(self)@.next_farm_id && final (
                self)@.next_rig_id == old(self)@.next_rig_id && final (self)@.next_gpu_id == old(
                    self,
                )@.next_gpu_id && final (self)@.rigs.len() == old(self)@.rigs.len() && (forall|
                    j: int,
                |
                    0 <= j < old(self)@.rigs.len() ==> (#[trigger] final (self)@.rigs[j]) == (
                    if old(self)@.rigs[j].id == rig_id {
                        RigRecModel { farm_id: Some(req.farm_id), ..old(self)@.rigs[j] }
                    } else {
                        old(self)@.rigs[j]
                    })),
                Ok(false) => !rig_exists(old(self)@, rig_id) && final (self)@ == old(self)@,
                Err(e) => e == StoreError::MissingFarm && rig_exists(old(self)@, rig_id)
                    && !farm_exists(old(self)@, req.farm_id) && final (self)@ == old(self)@,
            },
    {
        let ghost s0 = self@;
        let mut i: usize = 0;
        while i < self.rigs.len()
            invariant
                i <= self.rigs.len(),
                s0 == old(self)@,
                store_wf(s0),
                self@ == s0,
                forall|j: int| 0 <= j < i ==> (#[trigger] s0.rigs[j]).id != rig_id,
            decreases self.rigs.len() - i,
        {
            if self.rigs[i].id == rig_id {
                proof {
                    assert(s0.rigs[i as int] == self.rigs@[i as int]@);
                }
                if !self.farm_id_exists(req.farm_id) {
                    return Err(StoreError::MissingFarm);
                }
                let ghost before = self@.rigs;
                let mut r = self.rigs.remove(i);
                let ghost rm = r@;
                r.farm_id = Some(req.farm_id);
                proof {
                    assert(r@ =~= (RigRecModel { farm_id: Some(req.farm_id), ..rm }));
                }
                self.rigs.insert(i, r);
                proof {
                    let s1 = self@;
                    let k = i as int;
                    let nr = RigRecModel { farm_id: Some(req.farm_id), ..s0.rigs[k] };
                    assert(s1.rigs =~= s0.rigs.update(k, nr));
                    assert forall|j: int| 0 <= j < s0.rigs.len() implies (
                    #[trigger] s1.rigs[j]) == (if s0.rigs[j].id == rig_id {
                        nr
                    } else {
                        s0.rigs[j]
                    }) by {
                        if j != k {
                            assert(s1.rigs[j] == s0.rigs[j]);
                            if j < k {
                                assert(s0.rigs[j].id != s0.rigs[k].id);
                            } else {
                                assert(s0.rigs[k].id != s0.rigs[j].id);
                            }
                        }
                    }
                    lemma_wf_after_rig_update(s0, s1, k, nr);
                }
                return Ok(true);
            }
            proof {
                assert(s0.rigs[i as int] == self.rigs@[i as int]@);
            }
            i += 1;
        }
        proof {
            if rig_exists(s0, rig_id) {
                let w = choose|w: int| 0 <= w < s0.rigs.len() && (#[trigger] s0.rigs[w]).id
                    == rig_id;
            }
        }
        Ok(false)
    }

    /// Whether the farm table holds a row with this id.
    fn farm_id_exists(&self, fid: i64) -> (b: bool)
        ensures
            b == farm_exists(self@, fid),
    {
        let mut i: usize = 0;
        while i < self.farms.len()
            invariant
                i <= self.farms.len(),
                forall|j: int| 0 <= j < i ==> (#[trigger] self@.farms[j]).id != fid,
            decreases self.farms.len() - i,
        {
            if self.farms[i].id == fid {
                proof {
                    assert(self@.farms[i as int] == self.farms@[i as int]@);
                }
                return true;
            }
            proof {
                assert(self@.farms[i as int] == self.farms@[i as int]@);
            }
            i += 1;
        }
        proof {
            if farm_exists(self@, fid) {
                let w = choose|w: int|
                    0 <= w < self@.farms.len() && (#[trigger] self@.farms[w]).id == fid;
            }
        }
        false
    }

    /// Whether the rig table holds a row with this id.
    fn rig_id_exists(&self, rid: i64) -> (b: bool)
        ensures
            b == rig_exists(self@, rid),
    {
        let mut i: usize = 0;
        while i < self.rigs.len()
            invariant
                i <= self.rigs.len(),
                forall|j: int| 0 <= j < i ==> (#[trigger] self@.rigs[j]).id != rid,
            decreases self.rigs.len() - i,
        {
            if self.rigs[i].id == rid {
                proof {
                    assert(self@.rigs[i as int] == self.rigs@[i as int]@);
                }
                return true;
            }
            proof {
                assert(self@.rigs[i as int] == self.rigs@[i as int]@);
            }
            i += 1;
        }
        proof {
            if rig_exists(self@, rid) {
                let w = choose|w: int|
                    0 <= w < self@.rigs.len() && (#[trigger] self@.rigs[w]).id == rid;
            }
        }
        false
    }
}

/// A rig row after the farm `fid` is deleted: a reference to it is cleared,
/// everything else is kept.
pub open spec fn orphan_rig(r: RigRecModel, fid: i64) -> RigRecModel {
    if r.farm_id == Some(fid) {
        RigRecModel { farm_id: None, ..r }
    } else {
        r
    }
}

/// The placeholder rig inserted for a GPU that arrives without a rig
/// reference.
pub open spec fn placeholder_rig(id: i64) -> RigRecModel {
    RigRecModel {
        id,
        name: "New Rig"@,
        mac_address: "Unknown MAC"@,
        location: Some("Unknown Location"@),
        farm_id: None,
    }
}

/// Pushing a farm row preserves well-formedness: the generated id is fresh
/// and no foreign key is disturbed.
proof fn lemma_tables_wf_after_farm_push(s0: StoreModel, s1: StoreModel, nf: FarmRecModel)
    requires
        store_wf(s0),
        nf.id == s0.next_farm_id,
        s0.next_farm_id < i64::MAX,
        s1 == (StoreModel {
            farms: s0.farms.push(nf),
            next_farm_id: (s0.next_farm_id + 1) as i64,
            ..s0
        }),
    ensures
        store_wf(s1),
{
    let n = s0.farms.len() as int;
    assert forall|i: int| 0 <= i < s1.farms.len() implies (#[trigger] s1.farms[i]).id
        < s1.next_farm_id by {
        if i < n {
            assert(s1.farms[i] == s0.farms[i]);
        }
    }
    assert forall|i: int, j: int| 0 <= i < j < s1.farms.len() implies (#[trigger] s1.farms[i]).id
        != (#[trigger] s1.farms[j]).id by {
        if j < n {
            assert(s1.farms[i] == s0.farms[i] && s1.farms[j] == s0.farms[j]);
        } else {
            assert(s1.farms[i] == s0.farms[i]);
        }
    }
    assert forall|i: int| 0 <= i < s1.rigs.len() implies rig_fk_ok(s1, #[trigger] s1.rigs[i]) by {
        assert(rig_fk_ok(s0, s0.rigs[i]));
        match s1.rigs[i].farm_id {
            Some(f) => {
                let w = choose|w: int| 0 <= w < s0.farms.len() && (#[trigger] s0.farms[w]).id == f;
                assert(s1.farms[w].id == f);
            },
            None => {},
        }
    }
    assert forall|i: int| 0 <= i < s1.gpus.len() implies gpu_fk_ok(s1, #[trigger] s1.gpus[i]) by {
        assert(gpu_fk_ok(s0, s0.gpus[i]));
        match s1.gpus[i].rig_id {
            Some(r) => {
                let w = choose|w: int| 0 <= w < s0.rigs.len() && (#[trigger] s0.rigs[w]).id == r;
                assert(s1.rigs[w].id == r);
            },
            None => {},
        }
    }
}

/// Pushing a rig row with a valid (or absent) farm reference preserves
/// well-formedness.
proof fn lemma_tables_wf_after_rig_push(s0: StoreModel, s1: StoreModel, nr: RigRecModel)
    requires
        store_wf(s0),
        nr.id == s0.next_rig_id,
        s0.next_rig_id < i64::MAX,
        match nr.farm_id {
            Some(f) => farm_exists(s0, f),
            None => true,
        },
        s1 == (StoreModel {
            rigs: s0.rigs.push(nr),
            next_rig_id: (s0.next_rig_id + 1) as i64,
            ..s0
        }),
    ensures
        store_wf(s1),
{
    let n = s0.rigs.len() as int;
    assert forall|i: int| 0 <= i < s1.rigs.len() implies (#[trigger] s1.rigs[i]).id
        < s1.next_rig_id by {
        if i < n {
            assert(s1.rigs[i] == s0.rigs[i]);
        }
    }
    assert forall|i: int, j: int| 0 <= i < j < s1.rigs.len() implies (#[trigger] s1.rigs[i]).id != (
    #[trigger] s1.rigs[j]).id by {
        if j < n {
            assert(s1.rigs[i] == s0.rigs[i] && s1.rigs[j] == s0.rigs[j]);
        } else {
            assert(s1.rigs[i] == s0.rigs[i]);
        }
    }
    assert forall|i: int| 0 <= i < s1.rigs.len() implies rig_fk_ok(s1, #[trigger] s1.rigs[i]) by {
        let r = s1.rigs[i];
        if i < n {
            assert(r == s0.rigs[i]);
            assert(rig_fk_ok(s0, r));
        }
        match r.farm_id {
            Some(f) => {
                let w = choose|w: int| 0 <= w < s0.farms.len() && (#[trigger] s0.farms[w]).id == f;
                assert(s1.farms[w].id == f);
            },
            None => {},
        }
    }
    assert forall|i: int| 0 <= i < s1.gpus.len() implies gpu_fk_ok(s1, #[trigger] s1.gpus[i]) by {
        assert(gpu_fk_ok(s0, s0.gpus[i]));
        match s1.gpus[i].rig_id {
            Some(r) => {
                let w = choose|w: int| 0 <= w < s0.rigs.len() && (#[trigger] s0.rigs[w]).id == r;
                assert(s1.rigs[w] == s0.rigs[w]);
                assert(s1.rigs[w].id == r);
            },
            None => {},
        }
    }
}

/// Pushing a GPU row with a valid rig reference preserves well-formedness.
proof fn lemma_tables_wf_after_gpu_push(s0: StoreModel, s1: StoreModel, ng: GpuRecModel)
    requires
        store_wf(s0),
        ng.id == s0.next_gpu_id,
        s0.next_gpu_id < i64::MAX,
        match ng.rig_id {
            Some(r) => rig_exists(s0, r),
            None => true,
        },
        s1 == (StoreModel {
            gpus: s0.gpus.push(ng),
            next_gpu_id: (s0.next_gpu_id + 1) as i64,
            ..s0
        }),
    ensures
        store_wf(s1),
{
    let n = s0.gpus.len() as int;
    assert forall|i: int| 0 <= i < s1.gpus.len() implies (#[trigger] s1.gpus[i]).id
        < s1.next_gpu_id by {
        if i < n {
            assert(s1.gpus[i] == s0.gpus[i]);
        }
    }
    assert forall|i: int, j: int| 0 <= i < j < s1.gpus.len() implies (#[trigger] s1.gpus[i]).id != (
    #[trigger] s1.gpus[j]).id by {
        if j < n {
            assert(s1.gpus[i] == s0.gpus[i] && s1.gpus[j] == s0.gpus[j]);
        } else {
            assert(s1.gpus[i] == s0.gpus[i]);
        }
    }
    assert forall|i: int| 0 <= i < s1.rigs.len() implies rig_fk_ok(s1, #[trigger] s1.rigs[i]) by {
        assert(rig_fk_ok(s0, s0.rigs[i]));
        match s1.rigs[i].farm_id {
            Some(f) => {
                let w = choose|w: int| 0 <= w < s0.farms.len() && (#[trigger] s0.farms[w]).id == f;
                assert(s1.farms[w].id == f);
            },
            None => {},
        }
    }
    assert forall|i: int| 0 <= i < s1.gpus.len() implies gpu_fk_ok(s1, #[trigger] s1.gpus[i]) by {
        let g = s1.gpus[i];
        if i < n {
            assert(g == s0.gpus[i]);
            assert(gpu_fk_ok(s0, g));
        }
        match g.rig_id {
            Some(r) => {
                let w = choose|w: int| 0 <= w < s0.rigs.len() && (#[trigger] s0.rigs[w]).id == r;
                assert(s1.rigs[w].id == r);
            },
            None => {},
        }
    }
}

/// Updating a farm row in place, keeping its id, preserves well-formedness.
proof fn lemma_tables_wf_after_farm_update(s0: StoreModel, s1: StoreModel, k: int, nf: FarmRecModel)
    requires
        store_wf(s0),
        0 <= k < s0.farms.len(),
        nf.id == s0.farms[k].id,
        s1 == (StoreModel { farms: s0.farms.update(k, nf), ..s0 }),
    ensures
        store_wf(s1),
{
    assert forall|i: int| 0 <= i < s1.farms.len() implies (#[trigger] s1.farms[i]).id
        < s1.next_farm_id by {
        assert(s1.farms[i].id == s0.farms[i].id);
    }
    assert forall|i: int, j: int| 0 <= i < j < s1.farms.len() implies (#[trigger] s1.farms[i]).id
        != (#[trigger] s1.farms[j]).id by {
        assert(s1.farms[i].id == s0.farms[i].id && s1.farms[j].id == s0.farms[j].id);
    }
    assert forall|i: int| 0 <= i < s1.rigs.len() implies rig_fk_ok(s1, #[trigger] s1.rigs[i]) by {
        assert(rig_fk_ok(s0, s0.rigs[i]));
        match s1.rigs[i].farm_id {
            Some(f) => {
                let w = choose|w: int| 0 <= w < s0.farms.len() && (#[trigger] s0.farms[w]).id == f;
                assert(s1.farms[w].id == f);
            },
            None => {},
        }
    }
    assert forall|i: int| 0 <= i < s1.gpus.len() implies gpu_fk_ok(s1, #[trigger] s1.gpus[i]) by {
        assert(gpu_fk_ok(s0, s0.gpus[i]));
        match s1.gpus[i].rig_id {
            Some(r) => {
                let w = choose|w: int| 0 <= w < s0.rigs.len() && (#[trigger] s0.rigs[w]).id == r;
                assert(s1.rigs[w].id == r);
            },
            None => {},
        }
    }
}

/// Updating a rig row in place, keeping its id and pointing it at a live
/// farm, preserves well-formedness.
proof fn lemma_wf_after_rig_update(s0: StoreModel, s1: StoreModel, k: int, nr: RigRecModel)
    requires
        store_wf(s0),
        0 <= k < s0.rigs.len(),
        nr.id == s0.rigs[k].id,
        match nr.farm_id {
            Some(f) => farm_exists(s0, f),
            None => true,
        },
        s1 == (StoreModel { rigs: s0.rigs.update(k, nr), ..s0 }),
    ensures
        store_wf(s1),
{
    assert forall|i: int| 0 <= i < s1.rigs.len() implies (#[trigger] s1.rigs[i]).id
        < s1.next_rig_id by {
        assert(s1.rigs[i].id == s0.rigs[i].id);
    }
    assert forall|i: int, j: int| 0 <= i < j < s1.rigs.len() implies (#[trigger] s1.rigs[i]).id != (
    #[trigger] s1.rigs[j]).id by {
        assert(s1.rigs[i].id == s0.rigs[i].id && s1.rigs[j].id == s0.rigs[j].id);
    }
    assert forall|i: int| 0 <= i < s1.rigs.len() implies rig_fk_ok(s1, #[trigger] s1.rigs[i]) by {
        let r = s1.rigs[i];
        if i != k {
            assert(r == s0.rigs[i]);
            assert(rig_fk_ok(s0, r));
        }
        match r.farm_id {
            Some(f) => {
                let w = choose|w: int| 0 <= w < s0.farms.len() && (#[trigger] s0.farms[w]).id == f;
                assert(s1.farms[w].id == f);
            },
            None => {},
        }
    }
    assert forall|i: int| 0 <= i < s1.gpus.len() implies gpu_fk_ok(s1, #[trigger] s1.gpus[i]) by {
        assert(gpu_fk_ok(s0, s0.gpus[i]));
        match s1.gpus[i].rig_id {
            Some(r) => {
                let w = choose|w: int| 0 <= w < s0.rigs.len() && (#[trigger] s0.rigs[w]).id == r;
                assert(s1.rigs[w].id == s0.rigs[w].id);
            },
            None => {},
        }
    }
}

/// Deleting a farm row and orphaning the rigs that referenced it preserves
/// well-formedness and removes exactly that farm id.
proof fn lemma_wf_after_delete_farm(s0: StoreModel, s1: StoreModel, k: int, fid: i64)
    requires
        store_wf(s0),
        0 <= k < s0.farms.len(),
        s0.farms[k].id == fid,
        forall|j: int| 0 <= j < k ==> (#[trigger] s0.farms[j]).id != fid,
        s1 == (StoreModel {
            farms: s0.farms.remove(k),
            rigs: s0.rigs.map_values(|r: RigRecModel| orphan_rig(r, fid)),
            ..s0
        }),
    ensures
        store_wf(s1),
        s1.farms.len() == s0.farms.len() - 1,
        forall|j: int| 0 <= j < s1.farms.len() ==> (#[trigger] s1.farms[j]).id != fid,
        forall|f2: i64| f2 != fid ==> (farm_exists(s1, f2) <==> farm_exists(s0, f2)),
{
    s0.farms.remove_ensures(k);
    assert forall|i: int| 0 <= i < s1.farms.len() implies (#[trigger] s1.farms[i]).id
        < s1.next_farm_id by {
        if i < k {
            assert(s1.farms[i] == s0.farms[i]);
        } else {
            assert(s1.farms[i] == s0.farms[i + 1]);
        }
    }
    assert forall|i: int, j: int| 0 <= i < j < s1.farms.len() implies (#[trigger] s1.farms[i]).id
        != (#[trigger] s1.farms[j]).id by {
        if j < k {
        } else if i < k {
            assert(s1.farms[i] == s0.farms[i] && s1.farms[j] == s0.farms[j + 1]);
        } else {
            assert(s1.farms[i] == s0.farms[i + 1] && s1.farms[j] == s0.farms[j + 1]);
        }
    }
    assert forall|j: int| 0 <= j < s1.farms.len() implies (#[trigger] s1.farms[j]).id != fid by {
        if j < k {
            assert(s1.farms[j] == s0.farms[j]);
        } else {
            assert(s1.farms[j] == s0.farms[j + 1]);
            assert(s0.farms[k].id != s0.farms[j + 1].id);
        }
    }
    assert forall|f2: i64| f2 != fid implies (farm_exists(s1, f2) <==> farm_exists(s0, f2)) by {
        if farm_exists(s0, f2) {
            let w = choose|w: int| 0 <= w < s0.farms.len() && (#[trigger] s0.farms[w]).id == f2;
            if w < k {
                assert(s1.farms[w].id == f2);
            } else {
                assert(w != k);
                assert(s1.farms[w - 1] == s0.farms[w]);
                assert(s1.farms[w - 1].id == f2);
            }
        }
        if farm_exists(s1, f2) {
            let w = choose|w: int| 0 <= w < s1.farms.len() && (#[trigger] s1.farms[w]).id == f2;
            if w < k {
                assert(s0.farms[w].id == f2);
            } else {
                assert(s0.farms[w + 1].id == f2);
            }
        }
    }
    assert forall|i: int| 0 <= i < s1.rigs.len() implies rig_fk_ok(s1, #[trigger] s1.rigs[i]) by {
        assert(s1.rigs[i] == orphan_rig(s0.rigs[i], fid));
        assert(rig_fk_ok(s0, s0.rigs[i]));
        match s1.rigs[i].farm_id {
            Some(f) => {
                assert(f != fid);
                let w = choose|w: int| 0 <= w < s0.farms.len() && (#[trigger] s0.farms[w]).id == f;
                if w < k {
                    assert(s1.farms[w].id == f);
                } else {
                    assert(w != k);
                    assert(s1.farms[w - 1] == s0.farms[w]);
                }
            },
            None => {},
        }
    }
    assert forall|i: int| 0 <= i < s1.gpus.len() implies gpu_fk_ok(s1, #[trigger] s1.gpus[i]) by {
        assert(gpu_fk_ok(s0, s0.gpus[i]));
        match s1.gpus[i].rig_id {
            Some(r) => {
                let w = choose|w: int| 0 <= w < s0.rigs.len() && (#[trigger] s0.rigs[w]).id == r;
                assert(s1.rigs[w] == orphan_rig(s0.rigs[w], fid));
                assert(s1.rigs[w].id == r);
            },
            None => {},
        }
    }
}

/// The GPU entity of a gpu table row.
pub open spec fn gpu_entity(g: GpuRecModel) -> GpuModel {
    GpuModel {
        id: g.id,
        name: g.name,
        temp_bits: g.temp_bits,
        watt_bits: g.watt_bits,
        rig_id: g.rig_id,
    }
}

/// The rig entity of a rig table row, carrying the given GPU entries.
pub open spec fn rig_entity(r: RigRecModel, gpus: Seq<GpuModel>) -> RigModel {
    RigModel {
        id: r.id,
        name: r.name,
        mac_address: r.mac_address,
        location: r.location,
        farm_id: r.farm_id,
        gpus,
    }
}

/// The gpu rows attached to rig `rid`, in table order.
pub open spec fn gpu_records_of(gpus: Seq<GpuRecModel>, rid: i64) -> Seq<GpuRecModel>
    decreases gpus.len(),
{
    if gpus.len() == 0 {
        Seq::empty()
    } else {
        let pre = gpu_records_of(gpus.drop_last(), rid);
        if gpus.last().rig_id == Some(rid) {
            pre.push(gpus.last())
        } else {
            pre
        }
    }
}

/// The rig rows owned by farm `fid`, in table order.
pub open spec fn rig_records_of(rigs: Seq<RigRecModel>, fid: i64) -> Seq<RigRecModel>
    decreases rigs.len(),
{
    if rigs.len() == 0 {
        Seq::empty()
    } else {
        let pre = rig_records_of(rigs.drop_last(), fid);
        if rigs.last().farm_id == Some(fid) {
            pre.push(rigs.last())
        } else {
            pre
        }
    }
}

/// GPU table rows as GPU entities, elementwise.
pub open spec fn gpu_entities_list(recs: Seq<GpuRecModel>) -> Seq<GpuModel> {
    recs.map_values(|g: GpuRecModel| gpu_entity(g))
}

/// The GPU entities attached to rig `rid`, in table order.
pub open spec fn gpu_entities_of(gpus: Seq<GpuRecModel>, rid: i64) -> Seq<GpuModel> {
    gpu_entities_list(gpu_records_of(gpus, rid))
}

/// Rig rows as entities with no GPU detail attached.
pub open spec fn rig_entities_plain(rigs: Seq<RigRecModel>) -> Seq<RigModel> {
    rigs.map_values(|r: RigRecModel| rig_entity(r, Seq::empty()))
}

/// Rig rows as entities, each carrying the GPUs attached to it.
pub open spec fn rig_entities_full(rigs: Seq<RigRecModel>, gpus: Seq<GpuRecModel>) -> Seq<
    RigModel,
> {
    rigs.map_values(|r: RigRecModel| rig_entity(r, gpu_entities_of(gpus, r.id)))
}

/// Taking one more element appends exactly that element.
pub proof fn lemma_take_succ<T>(s: Seq<T>, i: int)
    requires
        0 <= i < s.len(),
    ensures
        s.take(i + 1) == s.take(i).push(s[i]),
{
    assert(s.take(i + 1) =~= s.take(i).push(s[i]));
}

/// Mapping rows to GPU entities distributes over push.
proof fn lemma_gpu_entities_list_push(recs: Seq<GpuRecModel>, g: GpuRecModel)
    ensures
        gpu_entities_list(recs.push(g)) == gpu_entities_list(recs).push(gpu_entity(g)),
{
    assert(gpu_entities_list(recs.push(g)) =~= gpu_entities_list(recs).push(gpu_entity(g)));
}

/// Mapping rig rows to plain entities distributes over push.
proof fn lemma_rig_entities_plain_push(rigs: Seq<RigRecModel>, r: RigRecModel)
    ensures
        rig_entities_plain(rigs.push(r)) == rig_entities_plain(rigs).push(
            rig_entity(r, Seq::empty()),
        ),
{
    assert(rig_entities_plain(rigs.push(r)) =~= rig_entities_plain(rigs).push(
        rig_entity(r, Seq::empty()),
    ));
}

/// Mapping rig rows to full entities distributes over push.
proof fn lemma_rig_entities_full_push(rigs: Seq<RigRecModel>, gpus: Seq<GpuRecModel>, r: RigRecModel)
    ensures
        rig_entities_full(rigs.push(r), gpus) == rig_entities_full(rigs, gpus).push(
            rig_entity(r, gpu_entities_of(gpus, r.id)),
        ),
{
    assert(rig_entities_full(rigs.push(r), gpus) =~= rig_entities_full(rigs, gpus).push(
        rig_entity(r, gpu_entities_of(gpus, r.id)),
    ));
}

/// The rig list without GPU detail: every rig row as an entity with no GPUs
/// attached.
pub open spec fn spec_get_rigs(s: StoreModel) -> Seq<RigModel> {
    rig_entities_plain(s.rigs)
}

/// The rig list with GPU detail: every rig row as an entity carrying the
/// GPUs attached to it, in table order.
pub open spec fn spec_rigs_with_gpus(s: StoreModel) -> Seq<RigModel> {
    rig_entities_full(s.rigs, s.gpus)
}

/// The rigs of one farm, without GPU detail.
pub open spec fn spec_rigs_of_farm(s: StoreModel, fid: i64) -> Seq<RigModel> {
    rig_entities_plain(rig_records_of(s.rigs, fid))
}

/// One row of the outer-join scan, from a farm row and the nullable rig and
/// gpu rows joined to it.
pub open spec fn row_of(f: FarmRecModel, r: Option<RigRecModel>, g: Option<GpuRecModel>) -> RowModel {
    RowModel {
        farm_id: f.id,
        farm_name: f.name,
        farm_location: f.location,
        rig_id: match r {
            Some(r) => Some(r.id),
            None => None,
        },
        rig_name: match r {
            Some(r) => Some(r.name),
            None => None,
        },
        rig_location: match r {
            Some(r) => r.location,
            None => None,
        },
        gpu_id: match g {
            Some(g) => Some(g.id),
            None => None,
        },
        gpu_name: match g {
            Some(g) => Some(g.name),
            None => None,
        },
        gpu_temp_bits: match g {
            Some(g) => Some(g.temp_bits),
            None => None,
        },
        gpu_watt_bits: match g {
            Some(g) => Some(g.watt_bits),
            None => None,
        },
    }
}

/// Gpu table rows as full scan rows of one rig, elementwise.
pub open spec fn gpu_row_list(
    f: FarmRecModel,
    r: RigRecModel,
    recs: Seq<GpuRecModel>,
) -> Seq<RowModel> {
    recs.map_values(|g: GpuRecModel| row_of(f, Some(r), Some(g)))
}

/// The full scan rows of one rig: one per gpu row attached to it.
pub open spec fn gpu_rows_of(
    f: FarmRecModel,
    r: RigRecModel,
    gpus: Seq<GpuRecModel>,
) -> Seq<RowModel> {
    gpu_row_list(f, r, gpu_records_of(gpus, r.id))
}

/// Mapping gpu rows to scan rows distributes over push.
proof fn lemma_gpu_row_list_push(
    f: FarmRecModel,
    r: RigRecModel,
    recs: Seq<GpuRecModel>,
    g: GpuRecModel,
)
    ensures
        gpu_row_list(f, r, recs.push(g)) == gpu_row_list(f, r, recs).push(
            row_of(f, Some(r), Some(g)),
        ),
{
    assert(gpu_row_list(f, r, recs.push(g)) =~= gpu_row_list(f, r, recs).push(
        row_of(f, Some(r), Some(g)),
    ));
}

/// The scan rows of one rig under its farm: one row per attached gpu row, or
/// a single row with null GPU columns when it has none.
pub open spec fn rows_for_rig(f: FarmRecModel, r: RigRecModel, gpus: Seq<GpuRecModel>) -> Seq<
    RowModel,
> {
    if gpu_records_of(gpus, r.id).len() == 0 {
        seq![row_of(f, Some(r), None)]
    } else {
        gpu_rows_of(f, r, gpus)
    }
}

/// The scan rows of a list of rigs under one farm, in order.
pub open spec fn rows_for_rigs(
    f: FarmRecModel,
    rs: Seq<RigRecModel>,
    gpus: Seq<GpuRecModel>,
) -> Seq<RowModel>
    decreases rs.len(),
{
    if rs.len() == 0 {
        Seq::empty()
    } else {
        rows_for_rigs(f, rs.drop_last(), gpus) + rows_for_rig(f, rs.last(), gpus)
    }
}

/// The scan rows of one farm: its rigs' rows, or a single row with null rig
/// and GPU columns when it owns none.
pub open spec fn rows_for_farm(
    f: FarmRecModel,
    rigs: Seq<RigRecModel>,
    gpus: Seq<GpuRecModel>,
) -> Seq<RowModel> {
    let rs = rig_records_of(rigs, f.id);
    if rs.len() == 0 {
        seq![row_of(f, None, None)]
    } else {
        rows_for_rigs(f, rs, gpus)
    }
}

/// The scan rows of a list of farms, in table order.
pub open spec fn rows_for_farms(
    farms: Seq<FarmRecModel>,
    rigs: Seq<RigRecModel>,
    gpus: Seq<GpuRecModel>,
) -> Seq<RowModel>
    decreases farms.len(),
{
    if farms.len() == 0 {
        Seq::empty()
    } else {
        rows_for_farms(farms.drop_last(), rigs, gpus) + rows_for_farm(farms.last(), rigs, gpus)
    }
}

/// The whole outer-join scan across farm, rig and gpu.
pub open spec fn spec_join_rows(s: StoreModel) -> Seq<RowModel> {
    rows_for_farms(s.farms, s.rigs, s.gpus)
}

/// A GPU entity built from a gpu table row.
fn gpu_record_entity(g: &GpuRecord) -> (out: Gpu)
    ensures
        out@ == gpu_entity(g@),
{
    Gpu {
        id: g.id,
        name: g.name.clone(),
        temp_bits: g.temp_bits,
        watt_bits: g.watt_bits,
        rig_id: g.rig_id,
    }
}

/// A rig entity built from a rig table row and its GPU entries.
fn rig_record_entity(r: &RigRecord, gpus: Vec<Gpu>) -> (out: Rig)
    ensures
        out@ == rig_entity(r@, crate::entities::gpus_model(gpus@)),
{
    Rig {
        id: r.id,
        name: r.name.clone(),
        mac_address: r.mac_address.clone(),
        location: crate::entities::clone_opt_string(&r.location),
        farm_id: r.farm_id,
        gpus,
    }
}

/// The scan row of a farm that owns no rigs.
fn row_farm_only(f: &FarmRecord) -> (row: JoinRow)
    ensures
        row@ == row_of(f@, None, None),
{
    JoinRow {
        farm_id: f.id,
        farm_name: f.name.clone(),
        farm_location: crate::entities::clone_opt_string(&f.location),
        rig_id: None,
        rig_name: None,
        rig_location: None,
        gpu_id: None,
        gpu_name: None,
        gpu_temp_bits: None,
        gpu_watt_bits: None,
    }
}

/// The scan row of a rig that hosts no GPUs.
fn row_no_gpu(f: &FarmRecord, r: &RigRecord) -> (row: JoinRow)
    ensures
        row@ == row_of(f@, Some(r@), None),
{
    JoinRow {
        farm_id: f.id,
        farm_name: f.name.clone(),
        farm_location: crate::entities::clone_opt_string(&f.location),
        rig_id: Some(r.id),
        rig_name: Some(r.name.clone()),
        rig_location: crate::entities::clone_opt_string(&r.location),
        gpu_id: None,
        gpu_name: None,
        gpu_temp_bits: None,
        gpu_watt_bits: None,
    }
}

/// One full scan row: farm, rig and gpu all present.
fn row_full(f: &FarmRecord, r: &RigRecord, g: &GpuRecord) -> (row: JoinRow)
    ensures
        row@ == row_of(f@, Some(r@), Some(g@)),
{
    JoinRow {
        farm_id: f.id,
        farm_name: f.name.clone(),
        farm_location: crate::entities::clone_opt_string(&f.location),
        rig_id: Some(r.id),
        rig_name: Some(r.name.clone()),
        rig_location: crate::entities::clone_opt_string(&r.location),
        gpu_id: Some(g.id),
        gpu_name: Some(g.name.clone()),
        gpu_temp_bits: Some(g.temp_bits),
        gpu_watt_bits: Some(g.watt_bits),
    }
}

impl Store {
    /// The GPU entities attached to rig `rid`, in table order.
    fn gpus_of_rig(&self, rid: i64) -> (out: Vec<Gpu>)
        ensures
            crate::entities::gpus_model(out@) == gpu_entities_of(self@.gpus, rid),
    {
        let mut out: Vec<Gpu> = Vec::new();
        let mut i: usize = 0;
        proof {
            assert(self@.gpus.take(0) =~= Seq::<GpuRecModel>::empty());
            assert(crate::entities::gpus_model(out@) =~= gpu_entities_list(
                gpu_records_of(self@.gpus.take(0), rid),
            ));
        }
        while i < self.gpus.len()
            invariant
                i <= self.gpus.len(),
                crate::entities::gpus_model(out@) == gpu_entities_list(
                    gpu_records_of(self@.gpus.take(i as int), rid),
                ),
            decreases self.gpus.len() - i,
        {
            let ghost pre = self@.gpus.take(i as int);
            let is_mine = match self.gpus[i].rig_id {
                Some(rr) => rr == rid,
                None => false,
            };
            proof {
                assert(self@.gpus[i as int] == self.gpus@[i as int]@);
                lemma_take_succ(self@.gpus, i as int);
                assert(pre.push(self@.gpus[i as int]).drop_last() =~= pre);
            }
            if is_mine {
                let e = gpu_record_entity(&self.gpus[i]);
                let ghost out0 = out@;
                proof {
                    assert(gpu_records_of(self@.gpus.take(i + 1), rid) == gpu_records_of(
                        pre,
                        rid,
                    ).push(self@.gpus[i as int]));
                    lemma_gpu_entities_list_push(gpu_records_of(pre, rid), self@.gpus[i as int]);
                    crate::entities::lemma_gpus_model_push(out0, e);
                }
                out.push(e);
            } else {
                proof {
                    assert(gpu_records_of(self@.gpus.take(i + 1), rid) == gpu_records_of(pre, rid));
                }
            }
            i += 1;
        }
        proof {
            assert(self@.gpus.take(self@.gpus.len() as int) =~= self@.gpus);
        }
        out
    }

    /// The rig list without GPU detail: every rig as an entity with an empty
    /// GPU list.
    pub fn get_rigs(&self) -> (out: Vec<Rig>)
        ensures
            rigs_model(out@) == spec_get_rigs(self@),
    {
        let mut out: Vec<Rig> = Vec::new();
        let mut i: usize = 0;
        proof {
            assert(self@.rigs.take(0) =~= Seq::<RigRecModel>::empty());
            assert(rigs_model(out@) =~= rig_entities_plain(self@.rigs.take(0)));
        }
        while i < self.rigs.len()
            invariant
                i <= self.rigs.len(),
                rigs_model(out@) == rig_entities_plain(self@.rigs.take(i as int)),
            decreases self.rigs.len() - i,
        {
            let r = rig_record_entity(&self.rigs[i], Vec::new());
            let ghost out0 = out@;
            proof {
                assert(self@.rigs[i as int] == self.rigs@[i as int]@);
                lemma_take_succ(self@.rigs, i as int);
                lemma_rig_entities_plain_push(self@.rigs.take(i as int), self@.rigs[i as int]);
                crate::entities::lemma_rigs_model_push(out0, r);
                crate::entities::lemma_gpus_model_empty();
                assert(r@ =~= rig_entity(self@.rigs[i as int], Seq::empty()));
            }
            out.push(r);
            i += 1;
        }
        proof {
            assert(self@.rigs.take(self@.rigs.len() as int) =~= self@.rigs);
        }
        out
    }

    /// The rig list with GPU detail: every rig as an entity carrying the
    /// GPUs attached to it.
    pub fn get_rigs_with_gpus(&self) -> (out: Vec<Rig>)
        ensures
            rigs_model(out@) == spec_rigs_with_gpus(self@),
    {
        let mut out: Vec<Rig> = Vec::new();
        let mut i: usize = 0;
        proof {
            assert(self@.rigs.take(0) =~= Seq::<RigRecModel>::empty());
            assert(rigs_model(out@) =~= rig_entities_full(self@.rigs.take(0), self@.gpus));
        }
        while i < self.rigs.len()
            invariant
                i <= self.rigs.len(),
                rigs_model(out@) == rig_entities_full(self@.rigs.take(i as int), self@.gpus),
            decreases self.rigs.len() - i,
        {
            let gpus = self.gpus_of_rig(self.rigs[i].id);
            let r = rig_record_entity(&self.rigs[i], gpus);
            let ghost out0 = out@;
            proof {
                assert(self@.rigs[i as int] == self.rigs@[i as int]@);
                lemma_take_succ(self@.rigs, i as int);
                lemma_rig_entities_full_push(
                    self@.rigs.take(i as int),
                    self@.gpus,
                    self@.rigs[i as int],
                );
                crate::entities::lemma_rigs_model_push(out0, r);
                assert(r@ =~= rig_entity(
                    self@.rigs[i as int],
                    gpu_entities_of(self@.gpus, self@.rigs[i as int].id),
                ));
            }
            out.push(r);
            i += 1;
        }
        proof {
            assert(self@.rigs.take(self@.rigs.len() as int) =~= self@.rigs);
        }
        out
    }

    /// The rigs of one farm, without GPU detail.
    pub fn rigs_of_farm(&self, farm_id: i64) -> (out: Vec<Rig>)
        ensures
            rigs_model(out@) == spec_rigs_of_farm(self@, farm_id),
    {
        let mut out: Vec<Rig> = Vec::new();
        let mut i: usize = 0;
        proof {
            assert(self@.rigs.take(0) =~= Seq::<RigRecModel>::empty());
            assert(rigs_model(out@) =~= rig_entities_plain(
                rig_records_of(self@.rigs.take(0), farm_id),
            ));
        }
        while i < self.rigs.len()
            invariant
                i <= self.rigs.len(),
                rigs_model(out@) == rig_entities_plain(
                    rig_records_of(self@.rigs.take(i as int), farm_id),
                ),
            decreases self.rigs.len() - i,
        {
            let ghost pre = self@.rigs.take(i as int);
            let is_mine = match self.rigs[i].farm_id {
                Some(ff) => ff == farm_id,
                None => false,
            };
            proof {
                assert(self@.rigs[i as int] == self.rigs@[i as int]@);
                lemma_take_succ(self@.rigs, i as int);
                assert(pre.push(self@.rigs[i as int]).drop_last() =~= pre);
            }
            if is_mine {
                let r = rig_record_entity(&self.rigs[i], Vec::new());
                let ghost out0 = out@;
                proof {
                    assert(rig_records_of(self@.rigs.take(i + 1), farm_id) == rig_records_of(
                        pre,
                        farm_id,
                    ).push(self@.rigs[i as int]));
                    lemma_rig_entities_plain_push(
                        rig_records_of(pre, farm_id),
                        self@.rigs[i as int],
                    );
                    crate::entities::lemma_rigs_model_push(out0, r);
                    crate::entities::lemma_gpus_model_empty();
                    assert(r@ =~= rig_entity(self@.rigs[i as int], Seq::empty()));
                }
                out.push(r);
            } else {
                proof {
                    assert(rig_records_of(self@.rigs.take(i + 1), farm_id) == rig_records_of(
                        pre,
                        farm_id,
                    ));
                }
            }
            i += 1;
        }
        proof {
            assert(self@.rigs.take(self@.rigs.len() as int) =~= self@.rigs);
        }
        out
    }

    /// The scan rows of one rig under its farm.
    fn rig_rows(&self, f: &FarmRecord, ri: usize) -> (out: Vec<JoinRow>)
        requires
            ri < self@.rigs.len(),
        ensures
            rows_model(out@) == rows_for_rig(f@, self@.rigs[ri as int], self@.gpus),
    {
        let ghost rm = self@.rigs[ri as int];
        let mut out: Vec<JoinRow> = Vec::new();
        let mut matched = false;
        let mut i: usize = 0;
        proof {
            assert(self@.rigs[ri as int] == self.rigs@[ri as int]@);
            assert(self@.gpus.take(0) =~= Seq::<GpuRecModel>::empty());
            assert(rows_model(out@) =~= gpu_row_list(
                f@,
                rm,
                gpu_records_of(self@.gpus.take(0), rm.id),
            ));
        }
        while i < self.gpus.len()
            invariant
                i <= self.gpus.len(),
                ri < self@.rigs.len(),
                rm == self@.rigs[ri as int],
                rm == self.rigs@[ri as int]@,
                rows_model(out@) == gpu_row_list(
                    f@,
                    rm,
                    gpu_records_of(self@.gpus.take(i as int), rm.id),
                ),
                matched == (gpu_records_of(self@.gpus.take(i as int), rm.id).len() > 0),
            decreases self.gpus.len() - i,
        {
            let ghost pre = self@.gpus.take(i as int);
            let is_mine = match self.gpus[i].rig_id {
                Some(rr) => rr == self.rigs[ri].id,
                None => false,
            };
            proof {
                assert(self@.gpus[i as int] == self.gpus@[i as int]@);
                lemma_take_succ(self@.gpus, i as int);
                assert(pre.push(self@.gpus[i as int]).drop_last() =~= pre);
            }
            if is_mine {
                matched = true;
                let row = row_full(f, &self.rigs[ri], &self.gpus[i]);
                let ghost out0 = out@;
                proof {
                    assert(gpu_records_of(self@.gpus.take(i + 1), rm.id) == gpu_records_of(
                        pre,
                        rm.id,
                    ).push(self@.gpus[i as int]));
                    lemma_gpu_row_list_push(f@, rm, gpu_records_of(pre, rm.id), self@.gpus[i as int]);
                    crate::entities::lemma_rows_model_push(out0, row);
                }
                out.push(row);
            } else {
                proof {
                    assert(gpu_records_of(self@.gpus.take(i + 1), rm.id) == gpu_records_of(
                        pre,
                        rm.id,
                    ));
                }
            }
            i += 1;
        }
        proof {
            assert(self@.gpus.take(self@.gpus.len() as int) =~= self@.gpus);
        }
        if !matched {
            let row = row_no_gpu(f, &self.rigs[ri]);
            let ghost out0 = out@;
            proof {
                crate::entities::lemma_rows_model_push(out0, row);
                assert(rows_model(out0) =~= Seq::<RowModel>::empty());
                assert(rows_model(out0).push(row@) =~= seq![row_of(f@, Some(rm), None)]);
            }
            out.push(row);
        }
        out
    }

    /// The scan rows of one farm.
    fn farm_rows(&self, fi: usize) -> (out: Vec<JoinRow>)
        requires
            fi < self@.farms.len(),
        ensures
            rows_model(out@) == rows_for_farm(self@.farms[fi as int], self@.rigs, self@.gpus),
    {
        let ghost fm = self@.farms[fi as int];
        let mut out: Vec<JoinRow> = Vec::new();
        let mut matched = false;
        let mut i: usize = 0;
        proof {
            assert(self@.farms[fi as int] == self.farms@[fi as int]@);
            assert(self@.rigs.take(0) =~= Seq::<RigRecModel>::empty());
            assert(rows_model(out@) =~= rows_for_rigs(
                fm,
                rig_records_of(self@.rigs.take(0), fm.id),
                self@.gpus,
            ));
        }
        while i < self.rigs.len()
            invariant
                i <= self.rigs.len(),
                fi < self@.farms.len(),
                fm == self@.farms[fi as int],
                fm == self.farms@[fi as int]@,
                rows_model(out@) == rows_for_rigs(
                    fm,
                    rig_records_of(self@.rigs.take(i as int), fm.id),
                    self@.gpus,
                ),
                matched == (rig_records_of(self@.rigs.take(i as int), fm.id).len() > 0),
            decreases self.rigs.len() - i,
        {
            let ghost pre = rig_records_of(self@.rigs.take(i as int), fm.id);
            let is_mine = match self.rigs[i].farm_id {
                Some(ff) => ff == self.farms[fi].id,
                None => false,
            };
            proof {
                assert(self@.rigs[i as int] == self.rigs@[i as int]@);
                lemma_take_succ(self@.rigs, i as int);
                assert(self@.rigs.take(i as int).push(self@.rigs[i as int]).drop_last()
                    =~= self@.rigs.take(i as int));
            }
            if is_mine {
                matched = true;
                let mut rrows = self.rig_rows(&self.farms[fi], i);
                let ghost rrows0 = rrows@;
                let ghost out0 = out@;
                proof {
                    assert(rig_records_of(self@.rigs.take(i + 1), fm.id) == pre.push(
                        self@.rigs[i as int],
                    ));
                    assert(pre.push(self@.rigs[i as int]).drop_last() =~= pre);
                    assert(rows_for_rigs(fm, pre.push(self@.rigs[i as int]), self@.gpus)
                        == rows_for_rigs(fm, pre, self@.gpus) + rows_for_rig(
                        fm,
                        self@.rigs[i as int],
                        self@.gpus,
                    ));
                    crate::entities::lemma_rows_model_concat(out0, rrows0);
                }
                out.append(&mut rrows);
            } else {
                proof {
                    assert(rig_records_of(self@.rigs.take(i + 1), fm.id) == pre);
                }
            }
            i += 1;
        }
        proof {
            assert(self@.rigs.take(self@.rigs.len() as int) =~= self@.rigs);
        }
        if !matched {
            let row = row_farm_only(&self.farms[fi]);
            let ghost out0 = out@;
            proof {
                crate::entities::lemma_rows_model_push(out0, row);
                assert(rows_model(out0) =~= Seq::<RowModel>::empty());
                assert(rows_model(out0).push(row@) =~= seq![row_of(fm, None, None)]);
            }
            out.push(row);
        }
        out
    }

    /// The outer-join scan across farm, rig and gpu: one row per farm, rig
    /// and GPU combination, with null rig columns for a farm that owns no
    /// rigs and null GPU columns for a rig that hosts none.
    pub fn join_rows(&self) -> (rows: Vec<JoinRow>)
        ensures
            rows_model(rows@) == spec_join_rows(self@),
    {
        let mut rows: Vec<JoinRow> = Vec::new();
        let mut i: usize = 0;
        proof {
            assert(self@.farms.take(0) =~= Seq::<FarmRecModel>::empty());
            assert(rows_model(rows@) =~= rows_for_farms(
                self@.farms.take(0),
                self@.rigs,
                self@.gpus,
            ));
        }
        while i < self.farms.len()
            invariant
                i <= self.farms.len(),
                rows_model(rows@) == rows_for_farms(
                    self@.farms.take(i as int),
                    self@.rigs,
                    self@.gpus,
                ),
            decreases self.farms.len() - i,
        {
            let mut frows = self.farm_rows(i);
            let ghost frows0 = frows@;
            let ghost rows0 = rows@;
            proof {
                assert(self@.farms[i as int] == self.farms@[i as int]@);
                lemma_take_succ(self@.farms, i as int);
                assert(self@.farms.take(i as int).push(self@.farms[i as int]).drop_last()
                    =~= self@.farms.take(i as int));
                crate::entities::lemma_rows_model_concat(rows0, frows0);
            }
            rows.append(&mut frows);
            i += 1;
        }
        proof {
            assert(self@.farms.take(self@.farms.len() as int) =~= self@.farms);
        }
        rows
    }

    /// One read request of the whole topology: the outer-join scan followed
    /// by one aggregation pass, yielding the nested Farm -> Rig -> GPU tree.
    pub fn get_farms(&self) -> (farms: Vec<Farm>)
        ensures
            farms_model(farms@) == aggregate(spec_join_rows(self@)),
    {
        let rows = self.join_rows();
        aggregate_farms(&rows)
    }
}

/// Some farm row carries id `fid`.
pub open spec fn farm_in(farms: Seq<FarmRecModel>, fid: i64) -> bool {
    exists|k: int| 0 <= k < farms.len() && (#[trigger] farms[k]).id == fid
}

/// Some rig row carries id `rid` and is owned by farm `fid`.
pub open spec fn rig_assigned(rigs: Seq<RigRecModel>, fid: i64, rid: i64) -> bool {
    exists|k: int|
        0 <= k < rigs.len() && (#[trigger] rigs[k]).id == rid && rigs[k].farm_id == Some(fid)
}

/// Row membership distributes over concatenation.
proof fn lemma_row_concat_membership(a: Seq<RowModel>, b: Seq<RowModel>)
    ensures
        forall|fid: i64| (#[trigger] has_farm_row(a + b, fid)) <==> (has_farm_row(a, fid)
            || has_farm_row(b, fid)),
        forall|fid: i64, rid: i64| (#[trigger] has_rig_row(a + b, fid, rid)) <==> (has_rig_row(
            a,
            fid,
            rid,
        ) || has_rig_row(b, fid, rid)),
{
    assert forall|fid: i64| (#[trigger] has_farm_row(a + b, fid)) <==> (has_farm_row(a, fid)
        || has_farm_row(b, fid)) by {
        if has_farm_row(a, fid) {
            let i = choose|i: int| 0 <= i < a.len() && (#[trigger] a[i]).farm_id == fid;
            assert((a + b)[i].farm_id == fid);
        }
        if has_farm_row(b, fid) {
            let i = choose|i: int| 0 <= i < b.len() && (#[trigger] b[i]).farm_id == fid;
            assert((a + b)[a.len() + i].farm_id == fid);
        }
        if has_farm_row(a + b, fid) {
            let i = choose|i: int| 0 <= i < (a + b).len() && (#[trigger] (a + b)[i]).farm_id
                == fid;
            if i < a.len() {
                assert(a[i].farm_id == fid);
            } else {
                assert(b[i - a.len()].farm_id == fid);
            }
        }
    }
    assert forall|fid: i64, rid: i64| (#[trigger] has_rig_row(a + b, fid, rid)) <==> (has_rig_row(
        a,
        fid,
        rid,
    ) || has_rig_row(b, fid, rid)) by {
        if has_rig_row(a, fid, rid) {
            let i = choose|i: int|
                0 <= i < a.len() && (#[trigger] a[i]).farm_id == fid && a[i].rig_id == Some(rid);
            assert((a + b)[i].farm_id == fid && (a + b)[i].rig_id == Some(rid));
        }
        if has_rig_row(b, fid, rid) {
            let i = choose|i: int|
                0 <= i < b.len() && (#[trigger] b[i]).farm_id == fid && b[i].rig_id == Some(rid);
            assert((a + b)[a.len() + i].farm_id == fid && (a + b)[a.len() + i].rig_id == Some(
                rid,
            ));
        }
        if has_rig_row(a + b, fid, rid) {
            let i = choose|i: int|
                0 <= i < (a + b).len() && (#[trigger] (a + b)[i]).farm_id == fid && (a
                    + b)[i].rig_id == Some(rid);
            if i < a.len() {
                assert(a[i].farm_id == fid && a[i].rig_id == Some(rid));
            } else {
                assert(b[i - a.len()].farm_id == fid && b[i - a.len()].rig_id == Some(rid));
            }
        }
    }
}

/// Every scan row of one rig names that rig and its farm, and there is at
/// least one.
proof fn lemma_rows_for_rig_membership(f: FarmRecModel, r: RigRecModel, gpus: Seq<GpuRecModel>)
    ensures
        rows_for_rig(f, r, gpus).len() > 0,
        forall|j: int|
            0 <= j < rows_for_rig(f, r, gpus).len() ==> (#[trigger] rows_for_rig(f, r, gpus)[j]).farm_id
                == f.id && rows_for_rig(f, r, gpus)[j].rig_id == Some(r.id),
{
    let rows = rows_for_rig(f, r, gpus);
    let gs = gpu_records_of(gpus, r.id);
    assert forall|j: int| 0 <= j < rows.len() implies (#[trigger] rows[j]).farm_id == f.id
        && rows[j].rig_id == Some(r.id) by {
        if gs.len() == 0 {
            assert(rows[j] == row_of(f, Some(r), None));
        } else {
            assert(rows[j] == row_of(f, Some(r), Some(gs[j])));
        }
    }
}

/// The rig rows of one farm's rig list name exactly the listed rigs.
proof fn lemma_rows_for_rigs_membership(f: FarmRecModel, rs: Seq<RigRecModel>, gpus: Seq<GpuRecModel>)
    ensures
        rs.len() > 0 ==> rows_for_rigs(f, rs, gpus).len() > 0,
        forall|j: int|
            0 <= j < rows_for_rigs(f, rs, gpus).len() ==> (#[trigger] rows_for_rigs(
                f,
                rs,
                gpus,
            )[j]).farm_id == f.id,
        forall|rid: i64| (#[trigger] has_rig_row(rows_for_rigs(f, rs, gpus), f.id, rid)) <==> (
        exists|k: int| 0 <= k < rs.len() && (#[trigger] rs[k]).id == rid),
    decreases rs.len(),
{
    let rows = rows_for_rigs(f, rs, gpus);
    if rs.len() == 0 {
        assert forall|rid: i64| (#[trigger] has_rig_row(rows, f.id, rid)) <==> (exists|k: int|
            0 <= k < rs.len() && (#[trigger] rs[k]).id == rid) by {
            if has_rig_row(rows, f.id, rid) {
                let i = choose|i: int|
                    0 <= i < rows.len() && (#[trigger] rows[i]).farm_id == f.id && rows[i].rig_id
                        == Some(rid);
            }
            if exists|k: int| 0 <= k < rs.len() && (#[trigger] rs[k]).id == rid {
                let k = choose|k: int| 0 <= k < rs.len() && (#[trigger] rs[k]).id == rid;
            }
        }
    } else {
        let dl = rs.drop_last();
        let last = rs.last();
        lemma_rows_for_rigs_membership(f, dl, gpus);
        lemma_rows_for_rig_membership(f, last, gpus);
        let a = rows_for_rigs(f, dl, gpus);
        let b = rows_for_rig(f, last, gpus);
        lemma_row_concat_membership(a, b);
        assert forall|j: int| 0 <= j < rows.len() implies (#[trigger] rows[j]).farm_id == f.id by {
            if j < a.len() {
                assert(rows[j] == a[j]);
            } else {
                assert(rows[j] == b[j - a.len()]);
            }
        }
        assert forall|rid: i64| (#[trigger] has_rig_row(rows, f.id, rid)) <==> (exists|k: int|
            0 <= k < rs.len() && (#[trigger] rs[k]).id == rid) by {
            assert(has_rig_row(b, f.id, rid) <==> rid == last.id) by {
                if has_rig_row(b, f.id, rid) {
                    let i = choose|i: int|
                        0 <= i < b.len() && (#[trigger] b[i]).farm_id == f.id && b[i].rig_id
                            == Some(rid);
                }
                if rid == last.id {
                    assert(b[0].farm_id == f.id && b[0].rig_id == Some(rid));
                }
            }
            if has_rig_row(rows, f.id, rid) {
                if has_rig_row(a, f.id, rid) {
                    let k = choose|k: int| 0 <= k < dl.len() && (#[trigger] dl[k]).id == rid;
                    assert(rs[k].id == rid);
                } else {
                    assert(rs[rs.len() - 1].id == rid);
                }
            }
            if exists|k: int| 0 <= k < rs.len() && (#[trigger] rs[k]).id == rid {
                let k = choose|k: int| 0 <= k < rs.len() && (#[trigger] rs[k]).id == rid;
                if k < dl.len() {
                    assert(dl[k].id == rid);
                }
            }
        }
    }
}

/// The listed rig rows of a farm are exactly the rigs assigned to it.
proof fn lemma_rig_records_membership(rigs: Seq<RigRecModel>, fid: i64)
    ensures
        rig_records_of(rigs, fid).len() > 0 <==> (exists|k: int|
            0 <= k < rigs.len() && (#[trigger] rigs[k]).farm_id == Some(fid)),
        forall|rid: i64| (exists|j: int|
            0 <= j < rig_records_of(rigs, fid).len() && (#[trigger] rig_records_of(
                rigs,
                fid,
            )[j]).id == rid) <==> rig_assigned(rigs, fid, rid),
    decreases rigs.len(),
{
    let recs = rig_records_of(rigs, fid);
    if rigs.len() == 0 {
        assert forall|rid: i64| (exists|j: int|
            0 <= j < recs.len() && (#[trigger] recs[j]).id == rid) <==> rig_assigned(
            rigs,
            fid,
            rid,
        ) by {
            if rig_assigned(rigs, fid, rid) {
                let k = choose|k: int|
                    0 <= k < rigs.len() && (#[trigger] rigs[k]).id == rid && rigs[k].farm_id
                        == Some(fid);
            }
            if exists|j: int| 0 <= j < recs.len() && (#[trigger] recs[j]).id == rid {
                let j = choose|j: int| 0 <= j < recs.len() && (#[trigger] recs[j]).id == rid;
            }
        }
        if exists|k: int| 0 <= k < rigs.len() && (#[trigger] rigs[k]).farm_id == Some(fid) {
            let k = choose|k: int|
                0 <= k < rigs.len() && (#[trigger] rigs[k]).farm_id == Some(fid);
        }
    } else {
        let dl = rigs.drop_last();
        let last = rigs.last();
        lemma_rig_records_membership(dl, fid);
        let pre = rig_records_of(dl, fid);
        assert(rigs[rigs.len() - 1] == last);
        assert forall|k: int| 0 <= k < dl.len() implies #[trigger] dl[k] == rigs[k] by {}
        assert((exists|k: int| 0 <= k < rigs.len() && (#[trigger] rigs[k]).farm_id == Some(fid))
            <==> ((exists|k: int| 0 <= k < dl.len() && (#[trigger] dl[k]).farm_id == Some(fid))
            || last.farm_id == Some(fid))) by {
            if exists|k: int| 0 <= k < rigs.len() && (#[trigger] rigs[k]).farm_id == Some(fid) {
                let k = choose|k: int|
                    0 <= k < rigs.len() && (#[trigger] rigs[k]).farm_id == Some(fid);
                if k < dl.len() {
                    assert(dl[k].farm_id == Some(fid));
                }
            }
            if exists|k: int| 0 <= k < dl.len() && (#[trigger] dl[k]).farm_id == Some(fid) {
                let k = choose|k: int| 0 <= k < dl.len() && (#[trigger] dl[k]).farm_id == Some(fid);
                assert(rigs[k].farm_id == Some(fid));
            }
        }
        assert forall|rid: i64| (exists|j: int|
            0 <= j < recs.len() && (#[trigger] recs[j]).id == rid) <==> rig_assigned(
            rigs,
            fid,
            rid,
        ) by {
            if exists|j: int| 0 <= j < recs.len() && (#[trigger] recs[j]).id == rid {
                let j = choose|j: int| 0 <= j < recs.len() && (#[trigger] recs[j]).id == rid;
                if last.farm_id == Some(fid) && j == recs.len() - 1 {
                    assert(recs[j] == last);
                    assert(rigs[rigs.len() - 1].id == rid && rigs[rigs.len() - 1].farm_id == Some(
                        fid,
                    ));
                } else {
                    assert(pre[j].id == rid);
                    assert(rig_assigned(dl, fid, rid));
                    let k = choose|k: int|
                        0 <= k < dl.len() && (#[trigger] dl[k]).id == rid && dl[k].farm_id == Some(
                            fid,
                        );
                    assert(rigs[k].id == rid && rigs[k].farm_id == Some(fid));
                }
            }
            if rig_assigned(rigs, fid, rid) {
                let k = choose|k: int|
                    0 <= k < rigs.len() && (#[trigger] rigs[k]).id == rid && rigs[k].farm_id
                        == Some(fid);
                if k < dl.len() {
                    assert(dl[k] == rigs[k]);
                    assert(dl[k].id == rid && dl[k].farm_id == Some(fid));
                    assert(rig_assigned(dl, fid, rid));
                    let j = choose|j: int| 0 <= j < pre.len() && (#[trigger] pre[j]).id == rid;
                    assert(recs[j].id == rid);
                } else {
                    assert(recs[recs.len() - 1].id == rid);
                }
            }
        }
    }
}

/// The scan's rows name exactly the stored farms, and join a rig to a farm
/// exactly when a rig row is assigned to it.
proof fn lemma_rows_for_farms_membership(
    farms: Seq<FarmRecModel>,
    rigs: Seq<RigRecModel>,
    gpus: Seq<GpuRecModel>,
)
    ensures
        forall|fid: i64| (#[trigger] has_farm_row(rows_for_farms(farms, rigs, gpus), fid)) <==> farm_in(
            farms,
            fid,
        ),
        forall|fid: i64, rid: i64| (#[trigger] has_rig_row(rows_for_farms(farms, rigs, gpus), fid, rid))
            <==> (farm_in(farms, fid) && rig_assigned(rigs, fid, rid)),
    decreases farms.len(),
{
    let rows = rows_for_farms(farms, rigs, gpus);
    if farms.len() == 0 {
        assert forall|fid: i64| (#[trigger] has_farm_row(rows, fid)) <==> farm_in(farms, fid) by {
            if has_farm_row(rows, fid) {
                let i = choose|i: int| 0 <= i < rows.len() && (#[trigger] rows[i]).farm_id == fid;
            }
            if farm_in(farms, fid) {
                let k = choose|k: int| 0 <= k < farms.len() && (#[trigger] farms[k]).id == fid;
            }
        }
        assert forall|fid: i64, rid: i64| (#[trigger] has_rig_row(rows, fid, rid)) <==> (farm_in(
            farms,
            fid,
        ) && rig_assigned(rigs, fid, rid)) by {
            if has_rig_row(rows, fid, rid) {
                let i = choose|i: int|
                    0 <= i < rows.len() && (#[trigger] rows[i]).farm_id == fid && rows[i].rig_id
                        == Some(rid);
            }
            if farm_in(farms, fid) {
                let k = choose|k: int| 0 <= k < farms.len() && (#[trigger] farms[k]).id == fid;
            }
        }
    } else {
        let dl = farms.drop_last();
        let f = farms.last();
        lemma_rows_for_farms_membership(dl, rigs, gpus);
        let a = rows_for_farms(dl, rigs, gpus);
        let b = rows_for_farm(f, rigs, gpus);
        lemma_row_concat_membership(a, b);
        lemma_rig_records_membership(rigs, f.id);
        let rs = rig_records_of(rigs, f.id);
        lemma_rows_for_rigs_membership(f, rs, gpus);
        // Fields of the farm's own block.
        assert(b.len() > 0 && forall|j: int| 0 <= j < b.len() ==> (#[trigger] b[j]).farm_id
            == f.id) by {
            if rs.len() == 0 {
                assert(b[0] == row_of(f, None, None));
                assert forall|j: int| 0 <= j < b.len() implies (#[trigger] b[j]).farm_id
                    == f.id by {
                    assert(b[j] == row_of(f, None, None));
                }
            }
        }
        assert((exists|k: int| 0 <= k < farms.len() && (#[trigger] farms[k]).id == f.id)) by {
            assert(farms[farms.len() - 1].id == f.id);
        }
        assert forall|fid: i64| (#[trigger] has_farm_row(rows, fid)) <==> farm_in(farms, fid) by {
            assert(has_farm_row(b, fid) <==> fid == f.id) by {
                if has_farm_row(b, fid) {
                    let i = choose|i: int| 0 <= i < b.len() && (#[trigger] b[i]).farm_id == fid;
                }
                if fid == f.id {
                    assert(b[0].farm_id == f.id);
                }
            }
            if has_farm_row(rows, fid) {
                if has_farm_row(a, fid) {
                    let k = choose|k: int| 0 <= k < dl.len() && (#[trigger] dl[k]).id == fid;
                    assert(farms[k].id == fid);
                }
            }
            if farm_in(farms, fid) {
                let k = choose|k: int| 0 <= k < farms.len() && (#[trigger] farms[k]).id == fid;
                if k < dl.len() {
                    assert(dl[k].id == fid);
                    assert(farm_in(dl, fid));
                }
            }
        }
        assert forall|fid: i64, rid: i64| (#[trigger] has_rig_row(rows, fid, rid)) <==> (farm_in(
            farms,
            fid,
        ) && rig_assigned(rigs, fid, rid)) by {
            assert(has_rig_row(b, fid, rid) <==> (fid == f.id && rig_assigned(rigs, f.id, rid)))
                by {
                if has_rig_row(b, fid, rid) {
                    let i = choose|i: int|
                        0 <= i < b.len() && (#[trigger] b[i]).farm_id == fid && b[i].rig_id
                            == Some(rid);
                    assert(fid == f.id);
                    if rs.len() == 0 {
                        assert(b[i] == row_of(f, None, None));
                    } else {
                        assert(has_rig_row(rows_for_rigs(f, rs, gpus), f.id, rid));
                        let j = choose|j: int| 0 <= j < rs.len() && (#[trigger] rs[j]).id == rid;
                    }
                }
                if fid == f.id && rig_assigned(rigs, f.id, rid) {
                    let j = choose|j: int| 0 <= j < rs.len() && (#[trigger] rs[j]).id == rid;
                    assert(rs.len() > 0);
                    assert(has_rig_row(rows_for_rigs(f, rs, gpus), f.id, rid));
                }
            }
            if has_rig_row(rows, fid, rid) {
                if has_rig_row(a, fid, rid) {
                    assert(farm_in(dl, fid) && rig_assigned(rigs, fid, rid));
                    let k = choose|k: int| 0 <= k < dl.len() && (#[trigger] dl[k]).id == fid;
                    assert(farms[k].id == fid);
                }
            }
            if farm_in(farms, fid) && rig_assigned(rigs, fid, rid) {
                let k = choose|k: int| 0 <= k < farms.len() && (#[trigger] farms[k]).id == fid;
                if k < dl.len() {
                    assert(dl[k].id == fid);
                    assert(farm_in(dl, fid));
                }
            }
        }
    }
}

/// Rig reassignment is reflected by the next aggregation: in the tree
/// aggregated from the scan of a well-formed store, every farm on record
/// appears as a node, and a rig appears under a farm's node exactly when its
/// row is assigned to that farm. So after a successful reassignment the rig
/// stands under its new farm, and after a refused or failed one it stands
/// where it stood.
pub proof fn lemma_aggregation_reflects_assignment(s: StoreModel)
    requires
        store_wf(s),
    ensures
        forall|fid: i64| farm_in(s.farms, fid) ==> #[trigger] has_id(
            aggregate(spec_join_rows(s)),
            fid,
        ),
        forall|i: int, rid: i64|
            0 <= i < aggregate(spec_join_rows(s)).len() ==> ((#[trigger] has_id(
                (#[trigger] aggregate(spec_join_rows(s))[i]).rigs,
                rid,
            )) <==> rig_assigned(s.rigs, aggregate(spec_join_rows(s))[i].id, rid)),
{
    let rows = spec_join_rows(s);
    let farms = aggregate(rows);
    lemma_rows_for_farms_membership(s.farms, s.rigs, s.gpus);
    lemma_aggregate_sound(rows);
    assert forall|fid: i64| farm_in(s.farms, fid) implies #[trigger] has_id(farms, fid) by {
        assert(has_farm_row(rows, fid));
    }
    assert forall|i: int, rid: i64|
        0 <= i < farms.len() implies ((#[trigger] has_id((#[trigger] farms[i]).rigs, rid)) <==> rig_assigned(
        s.rigs,
        farms[i].id,
        rid,
    )) by {
        assert(rigs_sound(rows, farms[i].id, farms[i].rigs));
        assert(has_id(farms[i].rigs, rid) <==> has_rig_row(rows, farms[i].id, rid));
        if has_rig_row(rows, farms[i].id, rid) {
            assert(farm_in(s.farms, farms[i].id) && rig_assigned(s.rigs, farms[i].id, rid));
        }
        if rig_assigned(s.rigs, farms[i].id, rid) {
            assert(has_id(farms, farms[i].id)) by {
                lemma_id_index(farms, farms[i].id);
            }
            assert(has_farm_row(rows, farms[i].id));
            assert(farm_in(s.farms, farms[i].id));
        }
    }
}

} // verus!
