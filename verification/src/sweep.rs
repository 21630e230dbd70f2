//! The saturation sweep for one laser.
//!
//! For one laser the sweep walks the shared input-power list (outer,
//! in list order) and the fixed saturation grid (inner, ascending) and
//! plans one result row per pair; the integrator then fills in the
//! output power for each planned cell. An input power of zero is
//! rejected here, before any integration, since its row's logarithm
//! would be undefined.

use vstd::prelude::*;

use crate::grid::grid_value;
use crate::grid::GRID_LEN;
use crate::grid::GRID_MIN;
use crate::grid::GRID_STEP;

verus! {

/// One planned cell of the result table: the pair the integrator is
/// run on. Rows derived from it carry the integrated output power.
#[derive(Debug, Clone, Copy, PartialEq, Eq, Structural)]
pub struct SweepCell {
    pub input_power: u32,
    pub saturation_intensity: u32,
}

/// An input the numeric model cannot take: the input power at
/// `power_index` of the list is zero, so `ln(output/input)` would be
/// undefined.
#[derive(Debug, Clone, Copy, PartialEq, Eq, Structural)]
pub struct NumericDomainError {
    pub power_index: usize,
    pub input_power: u32,
}

/// Flat index of grid column `j` in input-power row `i` of the table.
pub open spec fn cell_index(i: int, j: int) -> int {
    GRID_LEN * i + j
}

/// The sixteen cells planned for one input power, saturation intensity
/// ascending along the grid.
pub open spec fn group_cells(p: u32) -> Seq<SweepCell> {
    Seq::new(
        GRID_LEN as nat,
        |j: int|
            SweepCell { input_power: p, saturation_intensity: grid_value(j) as u32 },
    )
}

/// The full table planned for one laser: one sixteen-cell group per
/// input power, groups in list order.
pub open spec fn sweep_table(powers: Seq<u32>) -> Seq<SweepCell>
    decreases powers.len(),
{
    if powers.len() == 0 {
        Seq::<SweepCell>::empty()
    } else {
        sweep_table(powers.drop_last()) + group_cells(powers.last())
    }
}

/// Shape of the planned table: exactly sixteen rows per input power,
/// grouped by input power in list order, and within a group the
/// saturation intensities follow the fixed ascending grid.
pub proof fn lemma_sweep_table_shape(powers: Seq<u32>)
    ensures
        sweep_table(powers).len() == GRID_LEN * powers.len(),
        forall|i: int, j: int|
            0 <= i < powers.len() && 0 <= j < GRID_LEN ==> sweep_table(powers)[#[trigger] cell_index(i, j)]
                == (SweepCell { input_power: powers[i], saturation_intensity: grid_value(j) as u32 }),
        forall|i: int, j1: int, j2: int|
            0 <= i < powers.len() && 0 <= j1 < j2 < GRID_LEN ==> sweep_table(
                powers,
            )[#[trigger] cell_index(i, j1)].saturation_intensity < sweep_table(
                powers,
            )[#[trigger] cell_index(i, j2)].saturation_intensity,
    decreases powers.len(),
{
    if powers.len() > 0 {
        let prefix = powers.drop_last();
        lemma_sweep_table_shape(prefix);
        assert forall|i: int, j: int|
            0 <= i < powers.len() && 0 <= j < GRID_LEN implies sweep_table(powers)[#[trigger] cell_index(i, j)]
            == (SweepCell {
            input_power: powers[i],
            saturation_intensity: grid_value(j) as u32,
        }) by {
            if i < powers.len() - 1 {
                assert(sweep_table(powers)[cell_index(i, j)] == sweep_table(prefix)[cell_index(
                    i,
                    j,
                )]);
            } else {
                assert(sweep_table(powers)[cell_index(i, j)] == group_cells(powers.last())[j]);
            }
        }
    }
}

/// Plans the sweep for one laser over the shared input-power list.
/// Succeeds exactly when every input power is positive and returns the
/// table [`sweep_table`] describes; a zero input power is rejected
/// before any cell of its row is planned, naming the first offending
/// list position.
pub fn sweep_cells(powers: &Vec<u32>) -> (r: Result<Vec<SweepCell>, NumericDomainError>)
    ensures
        r is Ok <==> (forall|i: int| 0 <= i < powers@.len() ==> powers@[i] != 0),
        r matches Ok(t) ==> t@ == sweep_table(powers@),
        r matches Err(e) ==> {
            &&& e.power_index < powers@.len()
            &&& powers@[e.power_index as int] == 0
            &&& e.input_power == 0
            &&& forall|i: int| 0 <= i < e.power_index ==> powers@[i] != 0
        },
{
    let mut cells: Vec<SweepCell> = Vec::new();
    let mut i: usize = 0;
    proof {
        assert(powers@.take(0) =~= Seq::<u32>::empty());
    }
    while i < powers.len()
        invariant
            i <= powers@.len(),
            cells@ == sweep_table(powers@.take(i as int)),
            forall|k: int| 0 <= k < i ==> powers@[k] != 0,
        decreases powers@.len() - i,
    {
        let p = powers[i];
        if p == 0 {
            return Err(NumericDomainError { power_index: i, input_power: p });
        }
        let mut j: usize = 0;
        proof {
            assert(group_cells(p).take(0) =~= Seq::<SweepCell>::empty());
            assert(cells@ + group_cells(p).take(0) =~= cells@);
        }
        while j < GRID_LEN
            invariant
                j <= GRID_LEN,
                i < powers@.len(),
                p == powers@[i as int],
                cells@ == sweep_table(powers@.take(i as int)) + group_cells(p).take(j as int),
            decreases GRID_LEN - j,
        {
            let cell = SweepCell {
                input_power: p,
                saturation_intensity: GRID_MIN + GRID_STEP * (j as u32),
            };
            cells.push(cell);
            proof {
                assert(group_cells(p)[j as int] == cell);
                assert(group_cells(p).take(j as int + 1) =~= group_cells(p).take(j as int).push(
                    cell,
                ));
                assert(sweep_table(powers@.take(i as int)) + group_cells(p).take(j as int + 1)
                    =~= (sweep_table(powers@.take(i as int)) + group_cells(p).take(
                    j as int,
                )).push(cell));
            }
            j = j + 1;
        }
        proof {
            let next = powers@.take(i as int + 1);
            assert(group_cells(p).take(GRID_LEN as int) =~= group_cells(p));
            assert(next.drop_last() =~= powers@.take(i as int));
            assert(next.last() == powers@[i as int]);
            assert(sweep_table(next) == sweep_table(powers@.take(i as int)) + group_cells(p));
        }
        i = i + 1;
    }
    proof {
        assert(powers@.take(powers@.len() as int) =~= powers@);
    }
    Ok(cells)
}

} // verus!
