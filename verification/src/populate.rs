//! The compute side of the bulk population interface: for every sample
//! of a generated field, the core wires one per-entity value graph with
//! the sample leaves and the derived nodes attached to them.  The
//! caller performs the store insertion; this module fixes what each
//! inserted graph holds.

use vstd::prelude::*;

verus! {

use crate::graph::ValueManager;
use crate::ops::{Operator, sat64, div_trunc};

/// Node id of the height leaf in a per-pixel graph.
pub const HEIGHT_ID: usize = 5;

/// Node id of the heat leaf.
pub const HEAT_ID: usize = 6;

/// Node id of the river leaf.
pub const RIVER_ID: usize = 7;

/// Node id of the rain leaf.
pub const RAIN_ID: usize = 8;

/// Node id of the vegetation leaf.
pub const VEGET_ID: usize = 9;

/// Node id of the derived water node.
pub const WATER_ID: usize = 10;

/// Wire the value graph of one pixel entity: after the five constant
/// nodes, the five sample leaves, then a derived water node that
/// averages river and rain — assign river, add rain, divide by the
/// constant-2 node.  Its initial value is computed eagerly.
pub fn build_pixel_manager(height: i64, heat: i64, river: i64, rain: i64, veget: i64) -> (r:
    ValueManager)
    ensures
        r.inv(),
        r.values@.len() == 11,
        r.values@[HEIGHT_ID as int].value == height,
        r.values@[HEAT_ID as int].value == heat,
        r.values@[RIVER_ID as int].value == river,
        r.values@[RAIN_ID as int].value == rain,
        r.values@[VEGET_ID as int].value == veget,
        r.values@[WATER_ID as int].value as int == sat64(div_trunc(sat64(river + rain), 2)),
        forall|i: int| 5 <= i < 10 ==> (#[trigger] r.values@[i]).paras@.len() == 0,
        forall|i: int| 0 <= i < 11 ==> (#[trigger] r.values@[i]).change == 0,
{
    let mut m = ValueManager::new();
    let r1 = m.add_value(height, Vec::new());
    let r2 = m.add_value(heat, Vec::new());
    let r3 = m.add_value(river, Vec::new());
    let r4 = m.add_value(rain, Vec::new());
    let r5 = m.add_value(veget, Vec::new());
    let mut paras: Vec<(Operator, u16)> = Vec::new();
    paras.push((Operator::Assign, RIVER_ID as u16));
    paras.push((Operator::Add, RAIN_ID as u16));
    paras.push((Operator::Div, 3));
    let ghost ops = paras@;
    let ghost vals_before = crate::graph::node_values(m.values@);
    let r6 = m.add_value(0, paras);
    proof {
        assert(ops.drop_last() =~= ops.take(2));
        assert(ops.take(2).drop_last() =~= ops.take(1));
        assert(ops.take(1).drop_last() =~= Seq::<(Operator, u16)>::empty());
        assert(ops.take(1).last() == ops[0]);
        assert(ops.take(2).last() == ops[1]);
        assert(crate::graph::fold_ops(0, ops.take(1), vals_before) == river as int);
        assert(crate::graph::fold_ops(0, ops.take(2), vals_before) == sat64(river + rain));
    }
    m
}

} // verus!
