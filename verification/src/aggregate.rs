//! The topology aggregator.
//!
//! One aggregation pass turns the flat rows of the outer-join scan across
//! farm, rig and gpu into the nested Farm -> Rig -> GPU tree. Rows are
//! processed in the order the store returned them; a farm or rig node is
//! created on the first row that carries its id and reused on every later
//! one, while every row with a non-null GPU id appends one GPU entry. Null
//! text columns default to the empty string and null readings to zero, since
//! the outer join surfaces placeholder nulls for partial rows.
//!
//! The spec function [`aggregate`] defines the pass as a fold over the rows;
//! [`aggregate_farms`] is the executable single pass, proved to build exactly
//! that tree; [`lemma_aggregate_sound`] states the correctness law: each farm
//! id appears as exactly one node, each rig id as exactly one node under its
//! farm, and each rig node carries one GPU entry per qualifying row.

use vstd::prelude::*;

use crate::entities::{
    clone_opt_string, farms_model, opt_str_model, rigs_model, rows_model, Farm, FarmModel, Gpu,
    GpuModel, JoinRow, Rig, RigModel, RowModel,
};
use crate::lookup::{
    has_id, id_index, lemma_id_index, lemma_id_index_at, lemma_id_index_none, lemma_id_index_push,
    lemma_id_index_update, HasId,
};

verus! {

impl HasId for FarmModel {
    open spec fn sid(&self) -> i64 {
        self.id
    }
}

impl HasId for RigModel {
    open spec fn sid(&self) -> i64 {
        self.id
    }
}

/// A present string column, or the empty string for a null one.
pub open spec fn str_or_empty(o: Option<Seq<char>>) -> Seq<char> {
    match o {
        Some(s) => s,
        None => Seq::empty(),
    }
}

/// A present reading, or zero for a null one.
pub open spec fn bits_or_zero(o: Option<u64>) -> u64 {
    match o {
        Some(b) => b,
        None => 0,
    }
}

/// The GPU entry contributed by a row with a non-null GPU id, attached to
/// the rig `rig_id`.
pub open spec fn gpu_of_row(row: RowModel, rig_id: i64) -> GpuModel
    recommends
        row.gpu_id is Some,
{
    GpuModel {
        id: row.gpu_id.unwrap(),
        name: str_or_empty(row.gpu_name),
        temp_bits: bits_or_zero(row.gpu_temp_bits),
        watt_bits: bits_or_zero(row.gpu_watt_bits),
        rig_id: Some(rig_id),
    }
}

/// The GPU entries a row contributes: one when its GPU id is non-null,
/// none otherwise.
pub open spec fn row_gpus(row: RowModel, rig_id: i64) -> Seq<GpuModel> {
    if row.gpu_id is Some {
        seq![gpu_of_row(row, rig_id)]
    } else {
        Seq::empty()
    }
}

/// The rig node created on the first row carrying rig id `rig_id`. The scan
/// does not select the physical address, so it defaults to empty.
pub open spec fn new_rig_of_row(row: RowModel, rig_id: i64) -> RigModel {
    RigModel {
        id: rig_id,
        name: str_or_empty(row.rig_name),
        mac_address: Seq::empty(),
        location: row.rig_location,
        farm_id: Some(row.farm_id),
        gpus: row_gpus(row, rig_id),
    }
}

/// An existing rig node after a repeat row: only its GPUs may grow.
pub open spec fn rig_with_row_gpus(rig: RigModel, row: RowModel) -> RigModel {
    RigModel { gpus: rig.gpus + row_gpus(row, rig.id), ..rig }
}

/// One row folded into the rig nodes of the farm it belongs to.
pub open spec fn add_row_to_rigs(rigs: Seq<RigModel>, row: RowModel) -> Seq<RigModel> {
    match row.rig_id {
        None => rigs,
        Some(rid) => {
            let k = id_index(rigs, rid);
            if k == -1 {
                rigs.push(new_rig_of_row(row, rid))
            } else {
                rigs.update(k, rig_with_row_gpus(rigs[k], row))
            }
        },
    }
}

/// The farm node created on the first row carrying its farm id; name and
/// location are copied verbatim from that row.
pub open spec fn new_farm_of_row(row: RowModel) -> FarmModel {
    FarmModel {
        id: row.farm_id,
        name: row.farm_name,
        location: row.farm_location,
        rigs: add_row_to_rigs(Seq::empty(), row),
    }
}

/// One row folded into the farm nodes built so far.
pub open spec fn add_row(farms: Seq<FarmModel>, row: RowModel) -> Seq<FarmModel> {
    let k = id_index(farms, row.farm_id);
    if k == -1 {
        farms.push(new_farm_of_row(row))
    } else {
        farms.update(k, FarmModel { rigs: add_row_to_rigs(farms[k].rigs, row), ..farms[k] })
    }
}

/// The nested tree that one aggregation pass builds from flat join rows,
/// processing the rows in order.
pub open spec fn aggregate(rows: Seq<RowModel>) -> Seq<FarmModel>
    decreases rows.len(),
{
    if rows.len() == 0 {
        Seq::empty()
    } else {
        add_row(aggregate(rows.drop_last()), rows.last())
    }
}

/// No two farm nodes carry the same farm id.
pub open spec fn farm_ids_distinct(farms: Seq<FarmModel>) -> bool {
    forall|i: int, j: int|
        0 <= i < j < farms.len() ==> (#[trigger] farms[i]).id != (#[trigger] farms[j]).id
}

/// No two rig nodes carry the same rig id.
pub open spec fn rig_ids_distinct(rigs: Seq<RigModel>) -> bool {
    forall|i: int, j: int|
        0 <= i < j < rigs.len() ==> (#[trigger] rigs[i]).id != (#[trigger] rigs[j]).id
}

/// Some row carries farm id `fid`.
pub open spec fn has_farm_row(rows: Seq<RowModel>, fid: i64) -> bool {
    exists|i: int| 0 <= i < rows.len() && (#[trigger] rows[i]).farm_id == fid
}

/// Some row joins farm id `fid` with rig id `rid`.
pub open spec fn has_rig_row(rows: Seq<RowModel>, fid: i64, rid: i64) -> bool {
    exists|i: int|
        0 <= i < rows.len() && (#[trigger] rows[i]).farm_id == fid && rows[i].rig_id == Some(rid)
}

/// A qualifying row for the rig `rid` of farm `fid`: it joins the two and
/// carries a non-null GPU id.
pub open spec fn is_gpu_row(row: RowModel, fid: i64, rid: i64) -> bool {
    row.farm_id == fid && row.rig_id == Some(rid) && row.gpu_id is Some
}

/// How many rows qualify for the rig `rid` of farm `fid`.
pub open spec fn gpu_row_count(rows: Seq<RowModel>, fid: i64, rid: i64) -> nat
    decreases rows.len(),
{
    if rows.len() == 0 {
        0
    } else {
        gpu_row_count(rows.drop_last(), fid, rid) + (if is_gpu_row(rows.last(), fid, rid) {
            1nat
        } else {
            0nat
        })
    }
}

/// The rig nodes of the farm with id `fid` agree with the rows: rig ids are
/// unique, a rig node exists exactly when some row joins it to the farm, and
/// it carries one GPU entry per qualifying row.
pub open spec fn rigs_sound(rows: Seq<RowModel>, fid: i64, rigs: Seq<RigModel>) -> bool {
    &&& rig_ids_distinct(rigs)
    &&& forall|rid: i64| (#[trigger] has_id(rigs, rid)) <==> has_rig_row(rows, fid, rid)
    &&& forall|j: int|
        0 <= j < rigs.len() ==> (#[trigger] rigs[j]).gpus.len() == gpu_row_count(
            rows,
            fid,
            rigs[j].id,
        )
}

/// Aggregation correctness: each farm id appears as exactly one node, a farm
/// node exists exactly when some row carries its id, and the rig nodes of
/// every farm agree with the rows as [`rigs_sound`] states.
pub open spec fn aggregate_sound(rows: Seq<RowModel>, farms: Seq<FarmModel>) -> bool {
    &&& farm_ids_distinct(farms)
    &&& forall|fid: i64| (#[trigger] has_id(farms, fid)) <==> has_farm_row(rows, fid)
    &&& forall|i: int|
        0 <= i < farms.len() ==> rigs_sound(rows, (#[trigger] farms[i]).id, farms[i].rigs)
}

/// How one appended row changes row membership and qualifying-row counts.
proof fn lemma_row_push_facts(rows: Seq<RowModel>, row: RowModel)
    ensures
        forall|fid: i64| (#[trigger] has_farm_row(rows.push(row), fid)) <==> (has_farm_row(
            rows,
            fid,
        ) || row.farm_id == fid),
        forall|fid: i64, rid: i64| (#[trigger] has_rig_row(rows.push(row), fid, rid)) <==> (
        has_rig_row(rows, fid, rid) || (row.farm_id == fid && row.rig_id == Some(rid))),
        forall|fid: i64, rid: i64| (#[trigger] gpu_row_count(rows.push(row), fid, rid))
            == gpu_row_count(rows, fid, rid) + (if is_gpu_row(row, fid, rid) {
            1nat
        } else {
            0nat
        }),
{
    let rows1 = rows.push(row);
    assert(rows1.drop_last() =~= rows);
    assert forall|fid: i64| (#[trigger] has_farm_row(rows1, fid)) <==> (has_farm_row(rows, fid)
        || row.farm_id == fid) by {
        if has_farm_row(rows, fid) {
            let i = choose|i: int| 0 <= i < rows.len() && (#[trigger] rows[i]).farm_id == fid;
            assert(rows1[i].farm_id == fid);
        }
        if row.farm_id == fid {
            assert(rows1[rows.len() as int].farm_id == fid);
        }
        if has_farm_row(rows1, fid) {
            let i = choose|i: int| 0 <= i < rows1.len() && (#[trigger] rows1[i]).farm_id == fid;
            if i < rows.len() {
                assert(rows[i].farm_id == fid);
            }
        }
    }
    assert forall|fid: i64, rid: i64| (#[trigger] has_rig_row(rows1, fid, rid)) <==> (has_rig_row(
        rows,
        fid,
        rid,
    ) || (row.farm_id == fid && row.rig_id == Some(rid))) by {
        if has_rig_row(rows, fid, rid) {
            let i = choose|i: int|
                0 <= i < rows.len() && (#[trigger] rows[i]).farm_id == fid && rows[i].rig_id
                    == Some(rid);
            assert(rows1[i].farm_id == fid && rows1[i].rig_id == Some(rid));
        }
        if row.farm_id == fid && row.rig_id == Some(rid) {
            assert(rows1[rows.len() as int].farm_id == fid && rows1[rows.len() as int].rig_id
                == Some(rid));
        }
        if has_rig_row(rows1, fid, rid) {
            let i = choose|i: int|
                0 <= i < rows1.len() && (#[trigger] rows1[i]).farm_id == fid && rows1[i].rig_id
                    == Some(rid);
            if i < rows.len() {
                assert(rows[i].farm_id == fid && rows[i].rig_id == Some(rid));
            }
        }
    }
}

/// A rig that no row joins to its farm has no qualifying rows.
proof fn lemma_gpu_count_zero(rows: Seq<RowModel>, fid: i64, rid: i64)
    requires
        !has_rig_row(rows, fid, rid),
    ensures
        gpu_row_count(rows, fid, rid) == 0,
    decreases rows.len(),
{
    if rows.len() > 0 {
        let prev = rows.drop_last();
        assert(!has_rig_row(prev, fid, rid)) by {
            if has_rig_row(prev, fid, rid) {
                let i = choose|i: int|
                    0 <= i < prev.len() && (#[trigger] prev[i]).farm_id == fid && prev[i].rig_id
                        == Some(rid);
                assert(rows[i] == prev[i]);
                assert(has_rig_row(rows, fid, rid));
            }
        }
        lemma_gpu_count_zero(prev, fid, rid);
        if is_gpu_row(rows.last(), fid, rid) {
            let n = rows.len() - 1;
            assert(rows[n].farm_id == fid && rows[n].rig_id == Some(rid));
            assert(has_rig_row(rows, fid, rid));
        }
    }
}

/// Folding a row of this farm into its rig nodes keeps them agreeing with
/// the rows.
proof fn lemma_add_rigs_sound(rows: Seq<RowModel>, fid: i64, rigs: Seq<RigModel>, row: RowModel)
    requires
        rigs_sound(rows, fid, rigs),
        row.farm_id == fid,
    ensures
        rigs_sound(rows.push(row), fid, add_row_to_rigs(rigs, row)),
{
    lemma_row_push_facts(rows, row);
    let rows1 = rows.push(row);
    match row.rig_id {
        None => {
            assert forall|j: int| 0 <= j < rigs.len() implies (#[trigger] rigs[j]).gpus.len()
                == gpu_row_count(rows1, fid, rigs[j].id) by {
                assert(!is_gpu_row(row, fid, rigs[j].id));
            }
        },
        Some(rid) => {
            lemma_id_index(rigs, rid);
            let kr = id_index(rigs, rid);
            if kr == -1 {
                let nr = new_rig_of_row(row, rid);
                let rigs1 = rigs.push(nr);
                assert(rigs1 == add_row_to_rigs(rigs, row));
                assert forall|i: int, j: int| 0 <= i < j < rigs1.len() implies (
                #[trigger] rigs1[i]).id != (#[trigger] rigs1[j]).id by {
                    if j == rigs.len() {
                        assert(rigs[i].sid() != rid);
                    } else {
                        assert(rigs1[i] == rigs[i] && rigs1[j] == rigs[j]);
                    }
                }
                assert forall|rid2: i64| (#[trigger] has_id(rigs1, rid2)) <==> has_rig_row(
                    rows1,
                    fid,
                    rid2,
                ) by {
                    assert(has_id(rigs, rid2) <==> has_rig_row(rows, fid, rid2));
                    lemma_id_index_push(rigs, nr, rid2);
                }
                assert(!has_id(rigs, rid));
                assert(!has_rig_row(rows, fid, rid));
                lemma_gpu_count_zero(rows, fid, rid);
                assert forall|j: int| 0 <= j < rigs1.len() implies (#[trigger] rigs1[j]).gpus.len()
                    == gpu_row_count(rows1, fid, rigs1[j].id) by {
                    if j < rigs.len() {
                        assert(rigs1[j] == rigs[j]);
                        assert(rigs[j].sid() != rid);
                        assert(!is_gpu_row(row, fid, rigs[j].id));
                    } else {
                        assert(rigs1[j] == nr);
                    }
                }
            } else {
                let r1 = rig_with_row_gpus(rigs[kr], row);
                let rigs1 = rigs.update(kr, r1);
                assert(rigs1 == add_row_to_rigs(rigs, row));
                assert(r1.id == rid);
                assert forall|i: int, j: int| 0 <= i < j < rigs1.len() implies (
                #[trigger] rigs1[i]).id != (#[trigger] rigs1[j]).id by {
                    assert(rigs1[i].id == rigs[i].id && rigs1[j].id == rigs[j].id);
                }
                assert forall|rid2: i64| (#[trigger] has_id(rigs1, rid2)) <==> has_rig_row(
                    rows1,
                    fid,
                    rid2,
                ) by {
                    assert(has_id(rigs, rid2) <==> has_rig_row(rows, fid, rid2));
                    lemma_id_index_update(rigs, kr, r1, rid2);
                }
                assert forall|j: int| 0 <= j < rigs1.len() implies (#[trigger] rigs1[j]).gpus.len()
                    == gpu_row_count(rows1, fid, rigs1[j].id) by {
                    if j != kr {
                        assert(rigs1[j] == rigs[j]);
                        assert(rigs[j].id != rid) by {
                            if j < kr {
                                assert(rigs[j].id != rigs[kr].id);
                            } else {
                                assert(rigs[kr].id != rigs[j].id);
                            }
                        }
                        assert(!is_gpu_row(row, fid, rigs[j].id));
                    } else {
                        assert(r1.gpus.len() == rigs[kr].gpus.len() + row_gpus(row, rid).len());
                    }
                }
            }
        },
    }
}

/// A row of another farm leaves this farm's rig nodes agreeing with the rows.
proof fn lemma_rigs_sound_other(rows: Seq<RowModel>, fid: i64, rigs: Seq<RigModel>, row: RowModel)
    requires
        rigs_sound(rows, fid, rigs),
        row.farm_id != fid,
    ensures
        rigs_sound(rows.push(row), fid, rigs),
{
    lemma_row_push_facts(rows, row);
    assert forall|j: int| 0 <= j < rigs.len() implies (#[trigger] rigs[j]).gpus.len()
        == gpu_row_count(rows.push(row), fid, rigs[j].id) by {
        assert(!is_gpu_row(row, fid, rigs[j].id));
    }
}

/// Folding one row in keeps the whole tree agreeing with the rows.
proof fn lemma_add_row_sound(rows: Seq<RowModel>, farms: Seq<FarmModel>, row: RowModel)
    requires
        aggregate_sound(rows, farms),
    ensures
        aggregate_sound(rows.push(row), add_row(farms, row)),
{
    lemma_row_push_facts(rows, row);
    lemma_id_index(farms, row.farm_id);
    let rows1 = rows.push(row);
    let k = id_index(farms, row.farm_id);
    if k == -1 {
        let nf = new_farm_of_row(row);
        let farms1 = farms.push(nf);
        assert(farms1 == add_row(farms, row));
        assert(rigs_sound(rows, row.farm_id, Seq::<RigModel>::empty())) by {
            assert forall|rid: i64| (#[trigger] has_id(Seq::<RigModel>::empty(), rid))
                <==> has_rig_row(rows, row.farm_id, rid) by {
                if has_rig_row(rows, row.farm_id, rid) {
                    let i = choose|i: int|
                        0 <= i < rows.len() && (#[trigger] rows[i]).farm_id == row.farm_id
                            && rows[i].rig_id == Some(rid);
                    assert(has_farm_row(rows, row.farm_id));
                    assert(has_id(farms, row.farm_id));
                }
            }
        }
        lemma_add_rigs_sound(rows, row.farm_id, Seq::<RigModel>::empty(), row);
        assert(nf.rigs == add_row_to_rigs(Seq::<RigModel>::empty(), row));
        assert forall|i: int, j: int| 0 <= i < j < farms1.len() implies (#[trigger] farms1[i]).id
            != (#[trigger] farms1[j]).id by {
            if j == farms.len() {
                assert(farms[i].sid() != row.farm_id);
            } else {
                assert(farms1[i] == farms[i] && farms1[j] == farms[j]);
            }
        }
        assert forall|fid: i64| (#[trigger] has_id(farms1, fid)) <==> has_farm_row(rows1, fid) by {
            assert(has_id(farms, fid) <==> has_farm_row(rows, fid));
            lemma_id_index_push(farms, nf, fid);
        }
        assert forall|i: int| 0 <= i < farms1.len() implies rigs_sound(
            rows1,
            (#[trigger] farms1[i]).id,
            farms1[i].rigs,
        ) by {
            if i < farms.len() {
                assert(farms1[i] == farms[i]);
                assert(farms[i].sid() != row.farm_id);
                lemma_rigs_sound_other(rows, farms[i].id, farms[i].rigs, row);
            } else {
                assert(farms1[i] == nf);
            }
        }
    } else {
        let f1 = FarmModel { rigs: add_row_to_rigs(farms[k].rigs, row), ..farms[k] };
        let farms1 = farms.update(k, f1);
        assert(farms1 == add_row(farms, row));
        assert(farms[k].id == row.farm_id);
        lemma_add_rigs_sound(rows, farms[k].id, farms[k].rigs, row);
        assert forall|i: int, j: int| 0 <= i < j < farms1.len() implies (#[trigger] farms1[i]).id
            != (#[trigger] farms1[j]).id by {
            assert(farms1[i].id == farms[i].id && farms1[j].id == farms[j].id);
        }
        assert forall|fid: i64| (#[trigger] has_id(farms1, fid)) <==> has_farm_row(rows1, fid) by {
            assert(has_id(farms, fid) <==> has_farm_row(rows, fid));
            lemma_id_index_update(farms, k, f1, fid);
        }
        assert forall|i: int| 0 <= i < farms1.len() implies rigs_sound(
            rows1,
            (#[trigger] farms1[i]).id,
            farms1[i].rigs,
        ) by {
            if i == k {
                assert(farms1[i] == f1);
            } else {
                assert(farms1[i] == farms[i]);
                assert(farms[i].id != farms[k].id) by {
                    if i < k {
                        assert(farms[i].id != farms[k].id);
                    } else {
                        assert(farms[k].id != farms[i].id);
                    }
                }
                lemma_rigs_sound_other(rows, farms[i].id, farms[i].rigs, row);
            }
        }
    }
}

/// Aggregation correctness: for any join rows, the tree of one aggregation
/// pass carries each farm id as exactly one node, each rig id as exactly one
/// node under the farm its rows join it to, and one GPU entry per qualifying
/// row under that rig.
pub proof fn lemma_aggregate_sound(rows: Seq<RowModel>)
    ensures
        aggregate_sound(rows, aggregate(rows)),
    decreases rows.len(),
{
    if rows.len() == 0 {
        assert forall|fid: i64| (#[trigger] has_id(aggregate(rows), fid)) <==> has_farm_row(
            rows,
            fid,
        ) by {
            if has_farm_row(rows, fid) {
                let i = choose|i: int| 0 <= i < rows.len() && (#[trigger] rows[i]).farm_id == fid;
            }
        }
    } else {
        let prev = rows.drop_last();
        lemma_aggregate_sound(prev);
        lemma_add_row_sound(prev, aggregate(prev), rows.last());
        assert(prev.push(rows.last()) =~= rows);
    }
}

/// A present string column cloned, or a fresh empty string for a null one.
fn string_or_empty(o: &Option<String>) -> (s: String)
    ensures
        s@ == str_or_empty(opt_str_model(*o)),
{
    match o {
        Some(s) => s.clone(),
        None => String::new(),
    }
}

/// The position of the first farm node carrying `id`, if any.
fn find_farm(farms: &Vec<Farm>, id: i64) -> (r: Option<usize>)
    ensures
        match r {
            Some(k) => k < farms@.len() && id_index(farms_model(farms@), id) == k as int,
            None => id_index(farms_model(farms@), id) == -1,
        },
{
    let ghost m = farms_model(farms@);
    let mut i: usize = 0;
    while i < farms.len()
        invariant
            i <= farms.len(),
            m == farms_model(farms@),
            forall|j: int| 0 <= j < i ==> (#[trigger] m[j]).sid() != id,
        decreases farms.len() - i,
    {
        if farms[i].id == id {
            proof {
                assert(m[i as int] == farms@[i as int]@);
                lemma_id_index_at(m, id, i as int);
            }
            return Some(i);
        }
        proof {
            assert(m[i as int] == farms@[i as int]@);
        }
        i += 1;
    }
    proof {
        lemma_id_index_none(m, id);
    }
    None
}

/// The position of the first rig node carrying `id`, if any.
fn find_rig(rigs: &Vec<Rig>, id: i64) -> (r: Option<usize>)
    ensures
        match r {
            Some(k) => k < rigs@.len() && id_index(rigs_model(rigs@), id) == k as int,
            None => id_index(rigs_model(rigs@), id) == -1,
        },
{
    let ghost m = rigs_model(rigs@);
    let mut i: usize = 0;
    while i < rigs.len()
        invariant
            i <= rigs.len(),
            m == rigs_model(rigs@),
            forall|j: int| 0 <= j < i ==> (#[trigger] m[j]).sid() != id,
        decreases rigs.len() - i,
    {
        if rigs[i].id == id {
            proof {
                assert(m[i as int] == rigs@[i as int]@);
                lemma_id_index_at(m, id, i as int);
            }
            return Some(i);
        }
        proof {
            assert(m[i as int] == rigs@[i as int]@);
        }
        i += 1;
    }
    proof {
        lemma_id_index_none(m, id);
    }
    None
}

/// The GPU entry of a row with a non-null GPU id.
fn gpu_from_row(row: &JoinRow, rig_id: i64) -> (g: Gpu)
    requires
        row.gpu_id is Some,
    ensures
        g@ == gpu_of_row(row@, rig_id),
{
    let g = Gpu {
        id: row.gpu_id.unwrap(),
        name: string_or_empty(&row.gpu_name),
        temp_bits: row.gpu_temp_bits.unwrap_or(0),
        watt_bits: row.gpu_watt_bits.unwrap_or(0),
        rig_id: Some(rig_id),
    };
    proof {
        assert(g@ =~= gpu_of_row(row@, rig_id));
    }
    g
}

/// The rig node created for the first row carrying `rig_id`.
fn rig_from_row(row: &JoinRow, rig_id: i64) -> (r: Rig)
    requires
        row.rig_id == Some(rig_id),
    ensures
        r@ == new_rig_of_row(row@, rig_id),
{
    let mut gpus: Vec<Gpu> = Vec::new();
    if row.gpu_id.is_some() {
        gpus.push(gpu_from_row(row, rig_id));
    }
    let r = Rig {
        id: rig_id,
        name: string_or_empty(&row.rig_name),
        mac_address: String::new(),
        location: clone_opt_string(&row.rig_location),
        farm_id: Some(row.farm_id),
        gpus,
    };
    proof {
        assert(r@.gpus =~= row_gpus(row@, rig_id));
        assert(r@ =~= new_rig_of_row(row@, rig_id));
    }
    r
}

/// The farm node created for the first row carrying its farm id.
fn farm_from_row(row: &JoinRow) -> (f: Farm)
    ensures
        f@ == new_farm_of_row(row@),
{
    let mut rigs: Vec<Rig> = Vec::new();
    match row.rig_id {
        Some(rid) => {
            rigs.push(rig_from_row(row, rid));
        },
        None => {},
    }
    let f = Farm {
        id: row.farm_id,
        name: row.farm_name.clone(),
        location: clone_opt_string(&row.farm_location),
        rigs,
    };
    proof {
        assert(rigs_model(f.rigs@) =~= add_row_to_rigs(Seq::empty(), row@));
        assert(f@ =~= new_farm_of_row(row@));
    }
    f
}

/// One row folded into a farm node already created for its farm id.
fn add_row_to_farm(farm: &mut Farm, row: &JoinRow)
    ensures
        final (farm)@ == (FarmModel {
            rigs: add_row_to_rigs(old(farm)@.rigs, row@),
            ..old(farm)@
        }),
{
    let ghost m0 = old(farm)@.rigs;
    let rid = match row.rig_id {
        Some(rid) => rid,
        None => {
            proof {
                assert(farm@ =~= (FarmModel { rigs: add_row_to_rigs(m0, row@), ..old(farm)@ }));
            }
            return ;
        },
    };
    match find_rig(&farm.rigs, rid) {
        None => {
            let r = rig_from_row(row, rid);
            farm.rigs.push(r);
            proof {
                assert(rigs_model(farm.rigs@) =~= m0.push(r@));
                assert(farm@ =~= (FarmModel { rigs: add_row_to_rigs(m0, row@), ..old(farm)@ }));
            }
        },
        Some(k) => {
            proof {
                lemma_id_index(m0, rid);
            }
            if row.gpu_id.is_some() {
                let mut rig = farm.rigs.remove(k);
                let ghost rigm = rig@;
                let g = gpu_from_row(row, rid);
                rig.gpus.push(g);
                proof {
                    assert(rig@.gpus =~= rigm.gpus + row_gpus(row@, rigm.id));
                    assert(rig@ =~= rig_with_row_gpus(rigm, row@));
                }
                farm.rigs.insert(k, rig);
                proof {
                    assert(rigs_model(farm.rigs@) =~= m0.update(
                        k as int,
                        rig_with_row_gpus(m0[k as int], row@),
                    ));
                    assert(farm@ =~= (FarmModel { rigs: add_row_to_rigs(m0, row@), ..old(farm)@ }));
                }
            } else {
                proof {
                    assert(rig_with_row_gpus(m0[k as int], row@).gpus =~= m0[k as int].gpus);
                    assert(rig_with_row_gpus(m0[k as int], row@) =~= m0[k as int]);
                    assert(add_row_to_rigs(m0, row@) =~= m0);
                    assert(farm@ =~= (FarmModel { rigs: add_row_to_rigs(m0, row@), ..old(farm)@ }));
                }
            }
        },
    }
}

/// One row folded into the farm nodes built so far.
fn insert_row(farms: &mut Vec<Farm>, row: &JoinRow)
    ensures
        farms_model(final (farms)@) == add_row(farms_model(old(farms)@), row@),
{
    let ghost m0 = farms_model(old(farms)@);
    match find_farm(farms, row.farm_id) {
        None => {
            let f = farm_from_row(row);
            farms.push(f);
            proof {
                assert(farms_model(farms@) =~= m0.push(f@));
            }
        },
        Some(k) => {
            proof {
                lemma_id_index(m0, row@.farm_id);
            }
            let mut farm = farms.remove(k);
            let ghost fm = farm@;
            add_row_to_farm(&mut farm, row);
            farms.insert(k, farm);
            proof {
                assert(farms_model(farms@) =~= m0.update(
                    k as int,
                    FarmModel { rigs: add_row_to_rigs(m0[k as int].rigs, row@), ..m0[k as int] },
                ));
            }
        },
    }
}

/// One aggregation pass: the nested Farm -> Rig -> GPU tree built from the
/// flat rows of the outer-join scan, processing rows in the order given.
pub fn aggregate_farms(rows: &Vec<JoinRow>) -> (farms: Vec<Farm>)
    ensures
        farms_model(farms@) == aggregate(rows_model(rows@)),
{
    let mut farms: Vec<Farm> = Vec::new();
    let mut i: usize = 0;
    proof {
        assert(rows_model(rows@).take(0) =~= Seq::empty());
        assert(farms_model(farms@) =~= Seq::empty());
    }
    while i < rows.len()
        invariant
            i <= rows.len(),
            farms_model(farms@) == aggregate(rows_model(rows@).take(i as int)),
        decreases rows.len() - i,
    {
        insert_row(&mut farms, &rows[i]);
        proof {
            let rm = rows_model(rows@);
            assert(rm[i as int] == rows@[i as int]@);
            assert(rm.take(i + 1).drop_last() =~= rm.take(i as int));
            assert(rm.take(i + 1).last() == rm[i as int]);
        }
        i += 1;
    }
    proof {
        assert(rows_model(rows@).take(rows@.len() as int) =~= rows_model(rows@));
    }
    farms
}

/// Null columns of a qualifying row default rather than fail: a row with a
/// non-null GPU id and a null GPU name yields a GPU entry named by the empty
/// string, and null readings yield zero.
pub proof fn lemma_gpu_defaults(row: RowModel, rig_id: i64)
    requires
        row.gpu_id is Some,
    ensures
        row.gpu_name is None ==> gpu_of_row(row, rig_id).name == Seq::<char>::empty(),
        row.gpu_temp_bits is None ==> gpu_of_row(row, rig_id).temp_bits == 0,
        row.gpu_watt_bits is None ==> gpu_of_row(row, rig_id).watt_bits == 0,
        gpu_of_row(row, rig_id).id == row.gpu_id.unwrap(),
{
}

} // verus!
