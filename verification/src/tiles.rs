//! Tiles, board coordinates, placed tiles and axes.
//!
//! A `Tile` carries an optional letter (absent for an unresolved blank), a
//! point value and a blank-origin flag. Tiles are totally ordered: tiles
//! without a letter sort before all lettered tiles; lettered tiles compare by
//! letter, then non-blank-origin before blank-origin, then ascending value.
//! A `PlayedTile` binds a tile to board coordinates and orders by row, then
//! column, then tile order.

use vstd::prelude::*;
use vstd::std_specs::cmp::PartialEqSpec;
use vstd::std_specs::cmp::PartialOrdSpec;
use std::cmp::Ordering;

verus! {

/// Engine capacity bound on a single tile's point value; scoring arithmetic
/// is proved free of overflow under it.
pub const MAX_TILE_VALUE: i32 = 1000;

#[derive(Clone, Copy, Debug)]
pub struct Tile {
    pub letter: Option<char>,
    pub value: i32,
    pub is_blank: bool,
}

impl Tile {
    pub fn get_letter(&self) -> (r: Option<char>)
        ensures
            r == self.letter,
    {
        self.letter
    }

    pub fn is_blank(&self) -> (r: bool)
        ensures
            r == self.is_blank,
    {
        self.is_blank
    }

    pub fn get_value(&self) -> (r: i32)
        ensures
            r == self.value,
    {
        self.value
    }

    /// True iff the tile has no resolved letter yet.
    pub fn is_letterless(&self) -> (r: bool)
        ensures
            r == (self.letter is None),
    {
        self.letter.is_none()
    }
}

/// Order on optional letters: no letter sorts before every letter, and
/// letters compare by code point.
pub open spec fn letter_lt(a: Option<char>, b: Option<char>) -> bool {
    match (a, b) {
        (Option::None, Option::Some(_)) => true,
        (Option::Some(x), Option::Some(y)) => (x as u32) < (y as u32),
        _ => false,
    }
}

/// The strict total order on tiles: by letter, then non-blank-origin before
/// blank-origin, then ascending value.
pub open spec fn tile_lt(a: Tile, b: Tile) -> bool {
    ||| letter_lt(a.letter, b.letter)
    ||| (a.letter == b.letter && !a.is_blank && b.is_blank)
    ||| (a.letter == b.letter && a.is_blank == b.is_blank && a.value < b.value)
}

fn letter_eq_exec(a: &Option<char>, b: &Option<char>) -> (r: bool)
    ensures
        r == (a == b),
{
    match (a, b) {
        (Option::None, Option::None) => true,
        (Option::Some(x), Option::Some(y)) => *x == *y,
        _ => false,
    }
}

fn letter_lt_exec(a: &Option<char>, b: &Option<char>) -> (r: bool)
    ensures
        r == letter_lt(*a, *b),
{
    match (a, b) {
        (Option::None, Option::Some(_)) => true,
        (Option::Some(x), Option::Some(y)) => (*x as u32) < (*y as u32),
        _ => false,
    }
}

fn tile_lt_exec(a: &Tile, b: &Tile) -> (r: bool)
    ensures
        r == tile_lt(*a, *b),
{
    if letter_lt_exec(&a.letter, &b.letter) {
        true
    } else if !letter_eq_exec(&a.letter, &b.letter) {
        false
    } else if !a.is_blank && b.is_blank {
        true
    } else if a.is_blank != b.is_blank {
        false
    } else {
        a.value < b.value
    }
}

impl PartialEq for Tile {
    fn eq(&self, other: &Tile) -> (r: bool) {
        letter_eq_exec(&self.letter, &other.letter) && self.value == other.value
            && self.is_blank == other.is_blank
    }
}

impl vstd::std_specs::cmp::PartialEqSpecImpl for Tile {
    open spec fn obeys_eq_spec() -> bool {
        true
    }

    open spec fn eq_spec(&self, other: &Tile) -> bool {
        self.letter == other.letter && self.value == other.value
            && self.is_blank == other.is_blank
    }
}

impl PartialOrd for Tile {
    fn partial_cmp(&self, other: &Tile) -> (r: Option<Ordering>) {
        if tile_lt_exec(self, other) {
            Some(Ordering::Less)
        } else if tile_lt_exec(other, self) {
            Some(Ordering::Greater)
        } else {
            Some(Ordering::Equal)
        }
    }
}

impl vstd::std_specs::cmp::PartialOrdSpecImpl for Tile {
    open spec fn obeys_partial_cmp_spec() -> bool {
        true
    }

    open spec fn partial_cmp_spec(&self, other: &Tile) -> Option<Ordering> {
        if tile_lt(*self, *other) {
            Some(Ordering::Less)
        } else if tile_lt(*other, *self) {
            Some(Ordering::Greater)
        } else {
            Some(Ordering::Equal)
        }
    }
}

/// The tile order is a strict total order: irreflexive, asymmetric,
/// transitive, and any two distinct tiles are ordered. The comparison
/// operators decide exactly this order.
pub proof fn lemma_tile_order_strict_total(a: Tile, b: Tile, c: Tile)
    ensures
        !tile_lt(a, a),
        tile_lt(a, b) ==> !tile_lt(b, a),
        tile_lt(a, b) && tile_lt(b, c) ==> tile_lt(a, c),
        tile_lt(a, b) || tile_lt(b, a) || a == b,
        a.partial_cmp_spec(&b) == Some(Ordering::Less) <==> tile_lt(a, b),
        a.partial_cmp_spec(&b) == Some(Ordering::Equal) <==> a == b,
{
    assert(tile_lt(a, b) || tile_lt(b, a) || a == b) by {
        if !tile_lt(a, b) && !tile_lt(b, a) {
            match (a.letter, b.letter) {
                (Option::Some(x), Option::Some(y)) => {
                    assert(x as u32 == y as u32);
                    vstd::utf8::char_u32_cast(x, x as u32);
                    vstd::utf8::char_u32_cast(y, y as u32);
                    assert(x == y);
                },
                _ => {},
            }
        }
    }
}

#[derive(Clone, Copy, PartialEq, Eq, Structural, Debug)]
pub struct Coordinates {
    pub row: i32,
    pub column: i32,
}

impl Coordinates {
    pub fn new(row: i32, column: i32) -> (r: Coordinates)
        ensures
            r == (Coordinates { row, column }),
    {
        Coordinates { row, column }
    }

    pub fn get_row(&self) -> (r: i32)
        ensures
            r == self.row,
    {
        self.row
    }

    pub fn get_column(&self) -> (r: i32)
        ensures
            r == self.column,
    {
        self.column
    }
}

/// Order on coordinates: by row, then by column.
pub open spec fn coordinates_lt(a: Coordinates, b: Coordinates) -> bool {
    ||| a.row < b.row
    ||| (a.row == b.row && a.column < b.column)
}

#[derive(Clone, Copy, Debug)]
pub struct PlayedTile {
    pub coordinates: Coordinates,
    pub tile: Tile,
}

impl PlayedTile {
    pub fn get_coordinates_ref(&self) -> (r: &Coordinates)
        ensures
            r == self.coordinates,
    {
        &self.coordinates
    }

    pub fn get_tile_ref(&self) -> (r: &Tile)
        ensures
            r == self.tile,
    {
        &self.tile
    }
}

/// Order on placed tiles: by row, then column, then tile order.
pub open spec fn played_tile_lt(a: PlayedTile, b: PlayedTile) -> bool {
    ||| coordinates_lt(a.coordinates, b.coordinates)
    ||| (a.coordinates == b.coordinates && tile_lt(a.tile, b.tile))
}

fn played_tile_lt_exec(a: &PlayedTile, b: &PlayedTile) -> (r: bool)
    ensures
        r == played_tile_lt(*a, *b),
{
    if a.coordinates.row < b.coordinates.row {
        true
    } else if a.coordinates.row == b.coordinates.row && a.coordinates.column < b.coordinates.column {
        true
    } else if a.coordinates == b.coordinates {
        tile_lt_exec(&a.tile, &b.tile)
    } else {
        false
    }
}

impl PartialEq for PlayedTile {
    fn eq(&self, other: &PlayedTile) -> (r: bool) {
        self.coordinates == other.coordinates && self.tile == other.tile
    }
}

impl vstd::std_specs::cmp::PartialEqSpecImpl for PlayedTile {
    open spec fn obeys_eq_spec() -> bool {
        true
    }

    open spec fn eq_spec(&self, other: &PlayedTile) -> bool {
        self.coordinates == other.coordinates && self.tile == other.tile
    }
}

impl PartialOrd for PlayedTile {
    fn partial_cmp(&self, other: &PlayedTile) -> (r: Option<Ordering>) {
        if played_tile_lt_exec(self, other) {
            Some(Ordering::Less)
        } else if played_tile_lt_exec(other, self) {
            Some(Ordering::Greater)
        } else {
            Some(Ordering::Equal)
        }
    }
}

impl vstd::std_specs::cmp::PartialOrdSpecImpl for PlayedTile {
    open spec fn obeys_partial_cmp_spec() -> bool {
        true
    }

    open spec fn partial_cmp_spec(&self, other: &PlayedTile) -> Option<Ordering> {
        if played_tile_lt(*self, *other) {
            Some(Ordering::Less)
        } else if played_tile_lt(*other, *self) {
            Some(Ordering::Greater)
        } else {
            Some(Ordering::Equal)
        }
    }
}

/// The placed-tile order is a strict total order as well.
pub proof fn lemma_played_tile_order_strict_total(a: PlayedTile, b: PlayedTile, c: PlayedTile)
    ensures
        !played_tile_lt(a, a),
        played_tile_lt(a, b) ==> !played_tile_lt(b, a),
        played_tile_lt(a, b) && played_tile_lt(b, c) ==> played_tile_lt(a, c),
        played_tile_lt(a, b) || played_tile_lt(b, a) || a == b,
        a.partial_cmp_spec(&b) == Some(Ordering::Less) <==> played_tile_lt(a, b),
{
    lemma_tile_order_strict_total(a.tile, b.tile, c.tile);
}

/// A per-cell scoring modifier: a letter multiplier applied to a newly
/// placed tile's value, and a word multiplier applied to the whole word.
#[derive(Clone, Copy, Debug)]
pub struct Modifier {
    pub letter_multiplier: i32,
    pub word_multiplier: i32,
}

/// The direction a placement's tiles are laid along.
#[derive(Clone, Copy, PartialEq, Eq, Structural, Debug)]
pub enum Axis {
    Horizontal,
    Vertical,
}

impl Axis {
    /// The other axis.
    pub fn complement(&self) -> (r: Axis)
        ensures
            r == self.spec_complement(),
    {
        match self {
            Axis::Vertical => Axis::Horizontal,
            Axis::Horizontal => Axis::Vertical,
        }
    }

    pub open spec fn spec_complement(self) -> Axis {
        match self {
            Axis::Vertical => Axis::Horizontal,
            Axis::Horizontal => Axis::Vertical,
        }
    }

    /// Both axes, horizontal first.
    pub fn iterator() -> (r: Vec<Axis>)
        ensures
            r@ =~= seq![Axis::Horizontal, Axis::Vertical],
    {
        let mut axes: Vec<Axis> = Vec::new();
        axes.push(Axis::Horizontal);
        axes.push(Axis::Vertical);
        axes
    }

    /// The row step of this axis; a horizontal placement keeps its row.
    pub open spec fn spec_row_delta(self) -> int {
        match self {
            Axis::Horizontal => 0,
            Axis::Vertical => 1,
        }
    }

    /// The column step of this axis.
    pub open spec fn spec_column_delta(self) -> int {
        match self {
            Axis::Horizontal => 1,
            Axis::Vertical => 0,
        }
    }
}

/// Which way a word-extension walk moves along its axis.
pub(crate) enum Direction {
    Positive,
    Negative,
}

} // verus!
