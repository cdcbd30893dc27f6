//! Painting rectangles into a square frame that is stored row after row.
//!
//! A rectangle is given by the first row and column it covers and by the
//! number of rows and columns: `top_left.0` and `shape.0` count rows,
//! `top_left.1` and `shape.1` count columns.

use vstd::prelude::*;

verus! {

/// The number of pixels in a row of the frame.
pub const WINDOW_W: usize = 1500;

/// The number of rows of the frame.
pub const WINDOW_H: usize = 1500;

/// The place in the frame of the pixel in column `pxl.0` of row `pxl.1`.
pub fn pxl2idx(pxl: (usize, usize)) -> (idx: usize)
    requires
        pxl.1 * WINDOW_W + pxl.0 <= usize::MAX,
    ensures
        idx == pxl.1 * WINDOW_W + pxl.0,
{
    pxl.1 * WINDOW_W + pxl.0
}

/// Whether place `i` is the first or the last place of the rectangle in
/// row `row`.
pub open spec fn side_hit(i: int, row: int, top_left: (usize, usize), shape: (usize, usize)) -> bool {
    i == row * WINDOW_W + top_left.1 || i == row * WINDOW_W + top_left.1 + shape.1 - 1
}

/// Whether place `i` is the place of the rectangle's first or last row in
/// column `column`.
pub open spec fn end_hit(i: int, column: int, top_left: (usize, usize), shape: (usize, usize)) -> bool {
    i == top_left.0 * WINDOW_W + column || i == (top_left.0 + shape.0 - 1) * WINDOW_W + column
}

/// Whether place `i` is on a side of the rectangle in one of its rows
/// before `row`.
pub open spec fn on_sides(i: int, top_left: (usize, usize), shape: (usize, usize), row: int) -> bool {
    exists|r: int| top_left.0 <= r < row && #[trigger] side_hit(i, r, top_left, shape)
}

/// Whether place `i` is on the first or last row of the rectangle in one of
/// its columns before `column`.
pub open spec fn on_ends(i: int, top_left: (usize, usize), shape: (usize, usize), column: int) -> bool {
    exists|c: int| top_left.1 <= c < column && #[trigger] end_hit(i, c, top_left, shape)
}

/// Whether place `i` is on the outline of the rectangle.
pub open spec fn on_outline(i: int, top_left: (usize, usize), shape: (usize, usize)) -> bool {
    on_sides(i, top_left, shape, top_left.0 + shape.0) || on_ends(i, top_left, shape, top_left.1 + shape.1)
}

/// Whether the outline of the rectangle can be painted into a frame of `len`
/// places: the counts fit the machine's integers and the last place painted
/// lies in the frame.
pub open spec fn outline_fits(len: int, top_left: (usize, usize), shape: (usize, usize)) -> bool {
    &&& top_left.0 + shape.0 <= usize::MAX
    &&& top_left.1 + shape.1 <= usize::MAX
    &&& shape.0 > 0 ==> top_left.1 + shape.1 >= 1 && (top_left.0 + shape.0 - 1) * WINDOW_W + top_left.1 + (
    if shape.1 > 0 {
        shape.1 - 1
    } else {
        0
    }) < len
    &&& shape.1 > 0 ==> top_left.0 + shape.0 >= 1 && (top_left.0 + (if shape.0 > 0 {
        shape.0 - 1
    } else {
        0
    })) * WINDOW_W + top_left.1 + shape.1 - 1 < len
}

/// Decides whether the outline of the rectangle fits a frame of `len`
/// places.
pub fn can_outline(len: usize, top_left: (usize, usize), shape: (usize, usize)) -> (r: bool)
    ensures
        r == outline_fits(len as int, top_left, shape),
{
    let limit: u128 = usize::MAX as u128;
    let width: u128 = 1500;
    let rows_end: u128 = top_left.0 as u128 + shape.0 as u128;
    let columns_end: u128 = top_left.1 as u128 + shape.1 as u128;
    if rows_end > limit || columns_end > limit {
        return false;
    }
    assert(limit <= 0xffff_ffff_ffff_ffff);
    if shape.0 > 0 {
        let last_column: u128 = top_left.1 as u128 + (if shape.1 > 0 { shape.1 as u128 - 1 } else { 0 });
        if columns_end < 1 || (rows_end - 1) * width + last_column >= len as u128 {
            return false;
        }
    }
    if shape.1 > 0 {
        let last_row: u128 = top_left.0 as u128 + (if shape.0 > 0 { shape.0 as u128 - 1 } else { 0 });
        if rows_end < 1 || last_row * width + columns_end - 1 >= len as u128 {
            return false;
        }
    }
    true
}

/// Paints the outline of the rectangle: in each of its rows the first and
/// the last place, and in each of its columns the place in the first and in
/// the last row. Every other place keeps its colour.
pub fn outline(buffer: &mut Vec<u32>, top_left: (usize, usize), shape: (usize, usize), color: u32)
    requires
        outline_fits(old(buffer)@.len() as int, top_left, shape),
    ensures
        final(buffer)@.len() == old(buffer)@.len(),
        forall|i: int|
            0 <= i < old(buffer)@.len() ==> #[trigger] final(buffer)@[i] == (if on_outline(i, top_left, shape) {
                color
            } else {
                old(buffer)@[i]
            }),
{
    let ghost before = buffer@;
    let len: usize = buffer.len();
    let rows_end: usize = top_left.0 + shape.0;
    let columns_end: usize = top_left.1 + shape.1;
    let mut row: usize = top_left.0;
    while row < rows_end
        invariant
            outline_fits(before.len() as int, top_left, shape),
            rows_end == top_left.0 + shape.0,
            columns_end == top_left.1 + shape.1,
            top_left.0 <= row <= rows_end,
            buffer@.len() == before.len(),
            before.len() == len,
            forall|i: int|
                0 <= i < before.len() ==> #[trigger] buffer@[i] == (if on_sides(i, top_left, shape, row as int) {
                    color
                } else {
                    before[i]
                }),
        decreases rows_end - row,
    {
        let ghost painted = buffer@;
        assert(row * WINDOW_W <= (top_left.0 + shape.0 - 1) * WINDOW_W) by (nonlinear_arith)
            requires
                row <= top_left.0 + shape.0 - 1,
        ;
        let first: usize = pxl2idx((top_left.1, row));
        let last: usize = pxl2idx((columns_end - 1, row));
        buffer[first] = color;
        buffer[last] = color;
        proof {
            assert forall|i: int| 0 <= i < before.len() implies #[trigger] buffer@[i] == (if on_sides(
                i,
                top_left,
                shape,
                row + 1,
            ) {
                color
            } else {
                before[i]
            }) by {
                if side_hit(i, row as int, top_left, shape) {
                    assert(on_sides(i, top_left, shape, row + 1));
                } else {
                    assert(buffer@[i] == painted[i]);
                    if on_sides(i, top_left, shape, row + 1) {
                        let r = choose|r: int| top_left.0 <= r < row + 1 && #[trigger] side_hit(i, r, top_left, shape);
                        assert(r < row);
                        assert(on_sides(i, top_left, shape, row as int));
                    }
                    if on_sides(i, top_left, shape, row as int) {
                        let r = choose|r: int| top_left.0 <= r < row && #[trigger] side_hit(i, r, top_left, shape);
                        assert(top_left.0 <= r < row + 1 && side_hit(i, r, top_left, shape));
                    }
                }
            }
        }
        row = row + 1;
    }
    let mut column: usize = top_left.1;
    while column < columns_end
        invariant
            outline_fits(before.len() as int, top_left, shape),
            rows_end == top_left.0 + shape.0,
            columns_end == top_left.1 + shape.1,
            top_left.1 <= column <= columns_end,
            buffer@.len() == before.len(),
            before.len() == len,
            forall|i: int|
                0 <= i < before.len() ==> #[trigger] buffer@[i] == (if on_sides(i, top_left, shape, rows_end as int)
                    || on_ends(i, top_left, shape, column as int) {
                    color
                } else {
                    before[i]
                }),
        decreases columns_end - column,
    {
        let ghost painted = buffer@;
        assert(top_left.0 * WINDOW_W <= (top_left.0 + (if shape.0 > 0 {
            shape.0 - 1
        } else {
            0
        })) * WINDOW_W && (rows_end - 1) * WINDOW_W <= (top_left.0 + (if shape.0 > 0 {
            shape.0 - 1
        } else {
            0
        })) * WINDOW_W) by (nonlinear_arith)
            requires
                rows_end == top_left.0 + shape.0,
                rows_end >= 1,
        ;
        let first: usize = pxl2idx((column, top_left.0));
        let last: usize = pxl2idx((column, rows_end - 1));
        buffer[first] = color;
        buffer[last] = color;
        proof {
            assert forall|i: int| 0 <= i < before.len() implies #[trigger] buffer@[i] == (if on_sides(
                i,
                top_left,
                shape,
                rows_end as int,
            ) || on_ends(i, top_left, shape, column + 1) {
                color
            } else {
                before[i]
            }) by {
                if end_hit(i, column as int, top_left, shape) {
                    assert(on_ends(i, top_left, shape, column + 1));
                } else {
                    assert(buffer@[i] == painted[i]);
                    if on_ends(i, top_left, shape, column + 1) {
                        let c = choose|c: int|
                            top_left.1 <= c < column + 1 && #[trigger] end_hit(i, c, top_left, shape);
                        assert(c < column);
                        assert(on_ends(i, top_left, shape, column as int));
                    }
                    if on_ends(i, top_left, shape, column as int) {
                        let c = choose|c: int| top_left.1 <= c < column && #[trigger] end_hit(i, c, top_left, shape);
                        assert(top_left.1 <= c < column + 1 && end_hit(i, c, top_left, shape));
                    }
                }
            }
        }
        column = column + 1;
    }
}

/// Whether place `i` is the place in column `column` of row `row`.
pub open spec fn cell_hit(i: int, row: int, column: int) -> bool {
    i == row * WINDOW_W + column
}

/// Whether place `i` is a place of row `row` in one of the rectangle's
/// columns before `column`.
pub open spec fn in_row(i: int, top_left: (usize, usize), row: int, column: int) -> bool {
    exists|c: int| top_left.1 <= c < column && #[trigger] cell_hit(i, row, c)
}

/// Whether place `i` is a place of the rectangle in one of its rows before
/// `row`.
pub open spec fn in_rows(i: int, top_left: (usize, usize), shape: (usize, usize), row: int) -> bool {
    exists|r: int| top_left.0 <= r < row && #[trigger] in_row(i, top_left, r, top_left.1 + shape.1)
}

/// Whether place `i` is a place of the rectangle.
pub open spec fn in_rectangle(i: int, top_left: (usize, usize), shape: (usize, usize)) -> bool {
    in_rows(i, top_left, shape, top_left.0 + shape.0)
}

/// Whether the rectangle can be painted into a frame of `len` places: the
/// counts fit the machine's integers and the last place painted lies in the
/// frame.
pub open spec fn fill_fits(len: int, top_left: (usize, usize), shape: (usize, usize)) -> bool {
    &&& top_left.0 + shape.0 <= usize::MAX
    &&& shape.0 > 0 ==> top_left.1 + shape.1 <= usize::MAX
    &&& shape.0 > 0 && shape.1 > 0 ==> (top_left.0 + shape.0 - 1) * WINDOW_W + top_left.1 + shape.1 - 1 < len
}

/// Decides whether the rectangle fits a frame of `len` places.
pub fn can_fill(len: usize, top_left: (usize, usize), shape: (usize, usize)) -> (r: bool)
    ensures
        r == fill_fits(len as int, top_left, shape),
{
    let limit: u128 = usize::MAX as u128;
    let width: u128 = 1500;
    let rows_end: u128 = top_left.0 as u128 + shape.0 as u128;
    let columns_end: u128 = top_left.1 as u128 + shape.1 as u128;
    assert(limit <= 0xffff_ffff_ffff_ffff);
    if rows_end > limit {
        return false;
    }
    if shape.0 > 0 {
        if columns_end > limit {
            return false;
        }
        if shape.1 > 0 && (rows_end - 1) * width + columns_end - 1 >= len as u128 {
            return false;
        }
    }
    true
}

/// Paints every place of the rectangle. Every other place keeps its colour.
pub fn fill(buffer: &mut Vec<u32>, top_left: (usize, usize), shape: (usize, usize), color: u32)
    requires
        fill_fits(old(buffer)@.len() as int, top_left, shape),
    ensures
        final(buffer)@.len() == old(buffer)@.len(),
        forall|i: int|
            0 <= i < old(buffer)@.len() ==> #[trigger] final(buffer)@[i] == (if in_rectangle(i, top_left, shape) {
                color
            } else {
                old(buffer)@[i]
            }),
{
    let ghost before = buffer@;
    let len: usize = buffer.len();
    let rows_end: usize = top_left.0 + shape.0;
    let mut row: usize = top_left.0;
    while row < rows_end
        invariant
            fill_fits(before.len() as int, top_left, shape),
            rows_end == top_left.0 + shape.0,
            top_left.0 <= row <= rows_end,
            buffer@.len() == before.len(),
            before.len() == len,
            forall|i: int|
                0 <= i < before.len() ==> #[trigger] buffer@[i] == (if in_rows(i, top_left, shape, row as int) {
                    color
                } else {
                    before[i]
                }),
        decreases rows_end - row,
    {
        let columns_end: usize = top_left.1 + shape.1;
        let mut column: usize = top_left.1;
        while column < columns_end
            invariant
                fill_fits(before.len() as int, top_left, shape),
                rows_end == top_left.0 + shape.0,
                columns_end == top_left.1 + shape.1,
                top_left.0 <= row < rows_end,
                top_left.1 <= column <= columns_end,
                buffer@.len() == before.len(),
                before.len() == len,
                forall|i: int|
                    0 <= i < before.len() ==> #[trigger] buffer@[i] == (if in_rows(i, top_left, shape, row as int)
                        || in_row(i, top_left, row as int, column as int) {
                        color
                    } else {
                        before[i]
                    }),
            decreases columns_end - column,
        {
            let ghost painted = buffer@;
            assert(row * WINDOW_W <= (top_left.0 + shape.0 - 1) * WINDOW_W) by (nonlinear_arith)
                requires
                    row <= top_left.0 + shape.0 - 1,
            ;
            let place: usize = pxl2idx((column, row));
            buffer[place] = color;
            proof {
                assert forall|i: int| 0 <= i < before.len() implies #[trigger] buffer@[i] == (if in_rows(
                    i,
                    top_left,
                    shape,
                    row as int,
                ) || in_row(i, top_left, row as int, column + 1) {
                    color
                } else {
                    before[i]
                }) by {
                    if cell_hit(i, row as int, column as int) {
                        assert(in_row(i, top_left, row as int, column + 1));
                    } else {
                        assert(buffer@[i] == painted[i]);
                        if in_row(i, top_left, row as int, column + 1) {
                            let c = choose|c: int| top_left.1 <= c < column + 1 && #[trigger] cell_hit(i, row as int, c);
                            assert(c < column);
                            assert(in_row(i, top_left, row as int, column as int));
                        }
                        if in_row(i, top_left, row as int, column as int) {
                            let c = choose|c: int| top_left.1 <= c < column && #[trigger] cell_hit(i, row as int, c);
                            assert(top_left.1 <= c < column + 1 && cell_hit(i, row as int, c));
                        }
                    }
                }
            }
            column = column + 1;
        }
        proof {
            assert forall|i: int| 0 <= i < before.len() implies #[trigger] buffer@[i] == (if in_rows(
                i,
                top_left,
                shape,
                row + 1,
            ) {
                color
            } else {
                before[i]
            }) by {
                if in_row(i, top_left, row as int, columns_end as int) {
                    assert(in_rows(i, top_left, shape, row + 1));
                }
                if in_rows(i, top_left, shape, row as int) {
                    let r = choose|r: int|
                        top_left.0 <= r < row && #[trigger] in_row(i, top_left, r, top_left.1 + shape.1);
                    assert(top_left.0 <= r < row + 1 && in_row(i, top_left, r, top_left.1 + shape.1));
                }
                if in_rows(i, top_left, shape, row + 1) {
                    let r = choose|r: int|
                        top_left.0 <= r < row + 1 && #[trigger] in_row(i, top_left, r, top_left.1 + shape.1);
                    if r < row {
                        assert(in_rows(i, top_left, shape, row as int));
                    }
                }
            }
        }
        row = row + 1;
    }
}

} // verus!
