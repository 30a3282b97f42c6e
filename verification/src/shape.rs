//! The shape of a table of values.

use vstd::prelude::*;

verus! {

/// Whether every row has `width` entries.
pub open spec fn has_width<T>(rows: Seq<Vec<T>>, width: int) -> bool {
    forall|i: int| 0 <= i < rows.len() ==> (#[trigger] rows[i]).len() == width
}

/// The number of columns of a table that has at least one row and as many
/// entries in every row; `None` for any other table.
pub fn uniform_width<T>(rows: &[Vec<T>]) -> (width: Option<usize>)
    ensures
        width is Some <==> rows.len() > 0 && has_width(rows@, rows[0].len() as int),
        width is Some ==> width->0 == rows[0].len(),
{
    if rows.len() == 0 {
        return None;
    }
    let width = rows[0].len();
    let mut i: usize = 1;
    while i < rows.len()
        invariant
            1 <= i <= rows.len(),
            width == rows[0].len(),
            forall|j: int| 0 <= j < i ==> (#[trigger] rows[j]).len() == width,
        decreases rows.len() - i,
    {
        if rows[i].len() != width {
            return None;
        }
        i += 1;
    }
    Some(width)
}

} // verus!
