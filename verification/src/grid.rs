//! The shapes of the grids that levels place actors on, and the ids of their cells.

use vstd::prelude::*;
use crate::keyed::KeyedRows;

verus! {

/// The cells a grid has: those set in a bit mask (one row per vector), or a full
/// rectangle.
#[derive(Clone, Debug, PartialEq)]
pub enum GridShape {
    BitGrid(Vec<Vec<u8>>),
    Rect { rows: usize, columns: usize },
}

/// A cell of a grid: in the current grid, or in a named grid of a named room.
#[derive(Clone, Debug, PartialEq, Eq)]
pub enum CellID {
    Local { x: usize, y: usize },
    Global { x: usize, y: usize, room: String, grid: String },
}

/// A grid as placed in a room: its rotations (of whatever type the caller uses),
/// and its cells, row by row.
pub struct Grid<R, C> {
    pub rotation: R,
    pub actor_rotation: R,
    pub cells: Vec<Vec<C>>,
}

/// The grids of every room, by room name and then grid name.
pub struct EntityGrid<R, C>(pub KeyedRows<KeyedRows<Grid<R, C>>>);

/// The cell at column `x` of row `y` of the grid `grid` of room `room`, if there
/// is one.
pub open spec fn cell_at<R, C>(
    rooms: Map<Seq<char>, KeyedRows<Grid<R, C>>>,
    room: Seq<char>,
    grid: Seq<char>,
    x: int,
    y: int,
) -> Option<C> {
    if rooms.dom().contains(room) && rooms[room]@.dom().contains(grid) {
        let cells = rooms[room]@[grid].cells@;
        if 0 <= y < cells.len() && 0 <= x < cells[y]@.len() {
            Some(cells[y]@[x])
        } else {
            None
        }
    } else {
        None
    }
}

impl<R, C> EntityGrid<R, C> {
    /// The cell at column `x` of row `y` of the grid `grid` of room `room`.
    pub fn get(&self, room: &String, grid: &String, x: usize, y: usize) -> (r: Option<&C>)
        ensures
            match cell_at(self.0@, room@, grid@, x as int, y as int) {
                Some(c) => r matches Some(found) && *found == c,
                None => r is None,
            },
    {
        match self.0.get(room) {
            Some(grids) => match grids.get(grid) {
                Some(g) => {
                    if y < g.cells.len() && x < g.cells[y].len() {
                        Some(&g.cells[y][x])
                    } else {
                        None
                    }
                },
                None => None,
            },
            None => None,
        }
    }
}

} // verus!
