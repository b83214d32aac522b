//! The root history: for every cell of the plane, the least cost at which a
//! root in that cell was reached.

use crate::helpers::Point;
use vstd::prelude::*;

verus! {

/// Side of a cell of the root history: a ten-thousandth of a world unit.
pub const ROOT_CELL: i64 = 100;

/// Cell of a coordinate: the coordinate in ten-thousandths of a world unit,
/// rounded toward zero and held within 32 bits.
pub open spec fn cell(c: i64) -> i32 {
    let q = if c >= 0 {
        c as int / ROOT_CELL as int
    } else {
        -((-c) / ROOT_CELL as int)
    };
    if q > i32::MAX {
        i32::MAX
    } else if q < i32::MIN {
        i32::MIN
    } else {
        q as i32
    }
}

/// Cell of a root.  Two roots are one root to the search when their cells
/// are equal.
pub open spec fn root_key(p: Point) -> (i32, i32) {
    (cell(p.x), cell(p.y))
}

fn cell_of(c: i64) -> (k: i32)
    ensures
        k == cell(c),
{
    let q = c / ROOT_CELL;
    if q > i32::MAX as i64 {
        i32::MAX
    } else if q < i32::MIN as i64 {
        i32::MIN
    } else {
        q as i32
    }
}

/// Cell of a root.
pub fn key_of(p: Point) -> (k: (i32, i32))
    ensures
        k == root_key(p),
{
    (cell_of(p.x), cell_of(p.y))
}

/// A hash map from cells to costs.  Its contents are known to the verifier
/// only as [`history_entries`]; what the operations below do to them is
/// taken from the documentation of `hashbrown::HashMap` and not proved.
#[verifier::external_body]
pub struct RootHistory {
    map: hashbrown::HashMap<(i32, i32), i64>,
}

/// The cells that the history holds, each with its cost.
pub uninterp spec fn history_entries(h: RootHistory) -> Map<(i32, i32), i64>;

/// `hashbrown::HashMap::with_capacity`: a map that holds nothing.  The
/// capacity is kept small, far from the sizes at which the call gives up.
#[verifier::external_body]
pub(crate) fn history_with_capacity(capacity: usize) -> (history: RootHistory)
    requires
        capacity <= 0xffff,
    ensures
        history_entries(history) == (Map::<(i32, i32), i64>::empty()),
{
    RootHistory { map: hashbrown::HashMap::with_capacity(capacity) }
}

/// `hashbrown::HashMap::get`: the cost held for the cell, if the map holds
/// the cell.
#[verifier::external_body]
pub(crate) fn history_get(history: &RootHistory, key: (i32, i32)) -> (cost: Option<i64>)
    ensures
        cost == (if history_entries(*history).contains_key(key) {
            Some(history_entries(*history)[key])
        } else {
            None
        }),
{
    history.map.get(&key).copied()
}

/// `hashbrown::HashMap::insert`: afterwards the map holds the cost for the
/// cell, in place of any earlier one, and every other cell as before.
#[verifier::external_body]
pub(crate) fn history_insert(history: &mut RootHistory, key: (i32, i32), cost: i64)
    ensures
        history_entries(*final(history)) == history_entries(*old(history)).insert(key, cost),
{
    history.map.insert(key, cost);
}

} // verus!
