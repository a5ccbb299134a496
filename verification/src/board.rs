//! The board: fixed tiles and scoring modifiers on a dense grid, with
//! placement building, legality queries, word extraction and scoring.
//!
//! Both grids are flat row-major arrays of `rows * columns` cells. A cell
//! holds at most one fixed tile; newly placed tiles only ever target empty
//! cells. Scoring multipliers apply to newly placed tiles alone.

use vstd::prelude::*;
use vstd::string::StrSliceExecFns;
use crate::tiles::Axis;
use crate::tiles::Coordinates;
use crate::tiles::Direction;
use crate::tiles::MAX_TILE_VALUE;
use crate::tiles::Modifier;
use crate::tiles::PlayedTile;
use crate::tiles::Tile;
use crate::rack::spec_tile_of_serializer;
use crate::serializers::GameSerializer;
use crate::serializers::PlayedTileSerializer;
use crate::serializers::PositionedModifierSerializer;
use crate::serializers::tile_serializer_letter_wf;

verus! {

/// Engine capacity bound on the board's side lengths.
pub const MAX_BOARD_DIMENSION: i32 = 225;

/// Engine capacity bound on letter and word multipliers.
pub const MAX_MULTIPLIER: i32 = 3;

/// Bonus for playing the whole rack in one turn.
pub const BINGO_BONUS: i32 = 50;

/// The number of placed tiles that earns the bonus.
pub const BINGO_TILES_LENGTH: i32 = 7;

/// Why a placement could not be built.
#[derive(Clone, Copy, PartialEq, Eq, Structural, Debug)]
pub enum PlacementError {
    /// The walk ran past the grid edge before all tiles were laid, or a
    /// coordinate lies outside the grid.
    OutOfBounds,
    /// The start cell already holds a fixed tile.
    StartOccupied,
}

proof fn lemma_cell_index(rows: int, cols: int, r: int, c: int)
    requires
        0 <= r < rows,
        0 <= c < cols,
        rows <= MAX_BOARD_DIMENSION as int,
        cols <= MAX_BOARD_DIMENSION as int,
    ensures
        0 <= r * cols + c < rows * cols,
        rows * cols <= MAX_BOARD_DIMENSION as int * MAX_BOARD_DIMENSION as int,
{
    assert(0 <= r * cols + c < rows * cols && rows * cols <= MAX_BOARD_DIMENSION as int
        * MAX_BOARD_DIMENSION as int) by (nonlinear_arith)
        requires
            0 <= r < rows,
            0 <= c < cols,
            rows <= MAX_BOARD_DIMENSION as int,
            cols <= MAX_BOARD_DIMENSION as int,
    ;
}

proof fn lemma_cell_index_injective(cols: int, r1: int, c1: int, r2: int, c2: int)
    requires
        0 <= c1 < cols,
        0 <= c2 < cols,
        r1 * cols + c1 == r2 * cols + c2,
    ensures
        r1 == r2 && c1 == c2,
{
    assert(r1 == r2 && c1 == c2) by (nonlinear_arith)
        requires
            0 <= c1 < cols,
            0 <= c2 < cols,
            r1 * cols + c1 == r2 * cols + c2,
    ;
}

/// The fixed tile a snapshot's played-tile list puts at `(r, c)`: the last
/// entry for that cell wins, as in a map built by insertion.
pub open spec fn spec_fixed_tile_lookup(entries: Seq<PlayedTileSerializer>, r: int, c: int) -> Option<
    Tile,
>
    decreases entries.len(),
{
    if entries.len() == 0 {
        None
    } else if entries.last().row == r && entries.last().column == c {
        Some(spec_tile_of_serializer(entries.last().tile))
    } else {
        spec_fixed_tile_lookup(entries.drop_last(), r, c)
    }
}

/// The modifier a snapshot's sparse modifier list puts at `(r, c)`; cells
/// it does not name default to the unit modifier.
pub open spec fn spec_modifier_lookup(entries: Seq<PositionedModifierSerializer>, r: int, c: int) -> Modifier
    decreases entries.len(),
{
    if entries.len() == 0 {
        Modifier { letter_multiplier: 1, word_multiplier: 1 }
    } else if entries.last().row == r && entries.last().column == c {
        Modifier {
            letter_multiplier: entries.last().modifier.letter_multiplier,
            word_multiplier: entries.last().modifier.word_multiplier,
        }
    } else {
        spec_modifier_lookup(entries.drop_last(), r, c)
    }
}

/// The snapshot fits the engine's capacity: dimensions bounded, every
/// modifier within range, every already-played tile lettered and bounded.
pub open spec fn spec_board_snapshot_wf(g: GameSerializer) -> bool {
    &&& 0 <= g.board_layout.rows <= MAX_BOARD_DIMENSION
    &&& 0 <= g.board_layout.columns <= MAX_BOARD_DIMENSION
    &&& (forall|i: int|
        0 <= i < g.board_layout.modifiers@.len() ==> {
            &&& 0 <= (#[trigger] g.board_layout.modifiers@[i]).modifier.letter_multiplier
                <= MAX_MULTIPLIER
            &&& 0 <= g.board_layout.modifiers@[i].modifier.word_multiplier <= MAX_MULTIPLIER
        })
    &&& (forall|i: int|
        0 <= i < g.board_state@.len() ==> {
            &&& (#[trigger] g.board_state@[i]).tile.letter is Some
            &&& tile_serializer_letter_wf(g.board_state@[i].tile)
            &&& 0 <= g.board_state@[i].tile.value <= MAX_TILE_VALUE
        })
}

proof fn lemma_fixed_tile_lookup_wf(entries: Seq<PlayedTileSerializer>, r: int, c: int)
    requires
        forall|i: int|
            0 <= i < entries.len() ==> {
                &&& (#[trigger] entries[i]).tile.letter is Some
                &&& tile_serializer_letter_wf(entries[i].tile)
                &&& 0 <= entries[i].tile.value <= MAX_TILE_VALUE
            },
    ensures
        match spec_fixed_tile_lookup(entries, r, c) {
            Some(t) => t.letter is Some && 0 <= t.value <= MAX_TILE_VALUE,
            None => true,
        },
    decreases entries.len(),
{
    if entries.len() > 0 {
        if !(entries.last().row == r && entries.last().column == c) {
            lemma_fixed_tile_lookup_wf(entries.drop_last(), r, c);
        }
    }
}

proof fn lemma_modifier_lookup_wf(entries: Seq<PositionedModifierSerializer>, r: int, c: int)
    requires
        forall|i: int|
            0 <= i < entries.len() ==> {
                &&& 0 <= (#[trigger] entries[i]).modifier.letter_multiplier <= MAX_MULTIPLIER
                &&& 0 <= entries[i].modifier.word_multiplier <= MAX_MULTIPLIER
            },
    ensures
        0 <= spec_modifier_lookup(entries, r, c).letter_multiplier <= MAX_MULTIPLIER,
        0 <= spec_modifier_lookup(entries, r, c).word_multiplier <= MAX_MULTIPLIER,
    decreases entries.len(),
{
    if entries.len() > 0 {
        if !(entries.last().row == r && entries.last().column == c) {
            lemma_modifier_lookup_wf(entries.drop_last(), r, c);
        }
    }
}

/// A placed tile's position along `axis`: its column when the word runs
/// horizontally, its row when it runs vertically.
pub open spec fn axis_pos(t: PlayedTile, axis: Axis) -> int {
    match axis {
        Axis::Horizontal => t.coordinates.column as int,
        Axis::Vertical => t.coordinates.row as int,
    }
}

/// The coordinate a placed tile shares with the rest of its line.
pub open spec fn line_of(t: PlayedTile, axis: Axis) -> int {
    match axis {
        Axis::Horizontal => t.coordinates.row as int,
        Axis::Vertical => t.coordinates.column as int,
    }
}

/// The row of the cell at position `q` on the line `line` along `axis`.
pub open spec fn cell_row(axis: Axis, line: int, q: int) -> int {
    match axis {
        Axis::Horizontal => line,
        Axis::Vertical => q,
    }
}

/// The column of the cell at position `q` on the line `line` along `axis`.
pub open spec fn cell_col(axis: Axis, line: int, q: int) -> int {
    match axis {
        Axis::Horizontal => q,
        Axis::Vertical => line,
    }
}

/// The axis a placement runs along: horizontal when its first two tiles
/// share a row. A single tile resolves to vertical; both of its readings
/// collapse to the same outcome, and that behaviour is kept as is.
pub open spec fn spec_axis_of(p: Seq<PlayedTile>) -> Axis {
    if p.len() >= 2 && p[0].coordinates.row == p[1].coordinates.row {
        Axis::Horizontal
    } else {
        Axis::Vertical
    }
}

/// Every tile sits on the same line along `axis`.
pub open spec fn placement_aligned(p: Seq<PlayedTile>, axis: Axis) -> bool {
    forall|i: int| 0 <= i < p.len() ==> line_of(#[trigger] p[i], axis) == line_of(p[0], axis)
}

/// No two tiles share a position along `axis`.
pub open spec fn placement_distinct(p: Seq<PlayedTile>, axis: Axis) -> bool {
    forall|i: int, j: int|
        0 <= i < j < p.len() ==> axis_pos(#[trigger] p[i], axis) != axis_pos(#[trigger] p[j], axis)
}

/// Some tile of the placement sits at position `q` along `axis`.
pub open spec fn placement_has_pos(p: Seq<PlayedTile>, axis: Axis, q: int) -> bool {
    exists|i: int| 0 <= i < p.len() && axis_pos(#[trigger] p[i], axis) == q
}

/// The least position along `axis` among the placement's tiles.
pub open spec fn spec_min_pos(p: Seq<PlayedTile>, axis: Axis) -> int
    decreases p.len(),
{
    if p.len() <= 1 {
        axis_pos(p[0], axis)
    } else {
        let rest = spec_min_pos(p.drop_first(), axis);
        if axis_pos(p[0], axis) <= rest {
            axis_pos(p[0], axis)
        } else {
            rest
        }
    }
}

/// The greatest position along `axis` among the placement's tiles.
pub open spec fn spec_max_pos(p: Seq<PlayedTile>, axis: Axis) -> int
    decreases p.len(),
{
    if p.len() <= 1 {
        axis_pos(p[0], axis)
    } else {
        let rest = spec_max_pos(p.drop_first(), axis);
        if axis_pos(p[0], axis) >= rest {
            axis_pos(p[0], axis)
        } else {
            rest
        }
    }
}

/// The minimum is attained by some tile and bounds them all.
pub proof fn lemma_min_pos_properties(p: Seq<PlayedTile>, axis: Axis)
    requires
        p.len() >= 1,
    ensures
        placement_has_pos(p, axis, spec_min_pos(p, axis)),
        forall|i: int| 0 <= i < p.len() ==> spec_min_pos(p, axis) <= axis_pos(#[trigger] p[i], axis),
    decreases p.len(),
{
    if p.len() > 1 {
        lemma_min_pos_properties(p.drop_first(), axis);
        let rest = p.drop_first();
        assert forall|i: int| 0 <= i < p.len() implies spec_min_pos(p, axis) <= axis_pos(
            #[trigger] p[i],
            axis,
        ) by {
            if i > 0 {
                assert(rest[i - 1] == p[i]);
            }
        }
        let w = choose|i: int|
            0 <= i < rest.len() && axis_pos(#[trigger] rest[i], axis) == spec_min_pos(rest, axis);
        assert(p[w + 1] == rest[w]);
    }
}

/// The maximum is attained by some tile and bounds them all.
pub proof fn lemma_max_pos_properties(p: Seq<PlayedTile>, axis: Axis)
    requires
        p.len() >= 1,
    ensures
        placement_has_pos(p, axis, spec_max_pos(p, axis)),
        forall|i: int| 0 <= i < p.len() ==> spec_max_pos(p, axis) >= axis_pos(#[trigger] p[i], axis),
    decreases p.len(),
{
    if p.len() > 1 {
        lemma_max_pos_properties(p.drop_first(), axis);
        let rest = p.drop_first();
        assert forall|i: int| 0 <= i < p.len() implies spec_max_pos(p, axis) >= axis_pos(
            #[trigger] p[i],
            axis,
        ) by {
            if i > 0 {
                assert(rest[i - 1] == p[i]);
            }
        }
        let w = choose|i: int|
            0 <= i < rest.len() && axis_pos(#[trigger] rest[i], axis) == spec_max_pos(rest, axis);
        assert(p[w + 1] == rest[w]);
    }
}

/// The tile the placement lays at `(r, c)`: the first entry there.
pub open spec fn spec_placed_tile_at(p: Seq<PlayedTile>, r: int, c: int) -> Option<Tile>
    decreases p.len(),
{
    if p.len() == 0 {
        None
    } else if p[0].coordinates.row as int == r && p[0].coordinates.column as int == c {
        Some(p[0].tile)
    } else {
        spec_placed_tile_at(p.drop_first(), r, c)
    }
}

/// A found placed tile really is one of the placement's entries at that
/// very cell.
pub proof fn lemma_placed_tile_at_props(p: Seq<PlayedTile>, r: int, c: int)
    requires
        spec_placed_tile_at(p, r, c) is Some,
    ensures
        exists|w: int|
            0 <= w < p.len() && (#[trigger] p[w]).coordinates.row as int == r
                && p[w].coordinates.column as int == c && Some(p[w].tile) == spec_placed_tile_at(
                p,
                r,
                c,
            ),
    decreases p.len(),
{
    if p.len() > 0 {
        if !(p[0].coordinates.row as int == r && p[0].coordinates.column as int == c) {
            lemma_placed_tile_at_props(p.drop_first(), r, c);
            let w = choose|w: int|
                0 <= w < p.drop_first().len() && (#[trigger] p.drop_first()[w]).coordinates.row
                    as int == r && p.drop_first()[w].coordinates.column as int == c && Some(
                    p.drop_first()[w].tile,
                ) == spec_placed_tile_at(p.drop_first(), r, c);
            assert(p[w + 1] == p.drop_first()[w]);
        }
    }
}

/// How many cells of the `n`-cell range starting at position `lo` on the
/// line hold a placed tile.
pub open spec fn spec_placed_count(
    p: Seq<PlayedTile>,
    axis: Axis,
    line: int,
    lo: int,
    n: nat,
) -> int
    decreases n,
{
    if n == 0 {
        0
    } else {
        spec_placed_count(p, axis, line, lo + 1, (n - 1) as nat) + if spec_placed_tile_at(
            p,
            cell_row(axis, line, lo),
            cell_col(axis, line, lo),
        ) is Some {
            1int
        } else {
            0int
        }
    }
}

proof fn lemma_placed_count_drop(p: Seq<PlayedTile>, axis: Axis, line: int, lo: int, n: nat)
    requires
        p.len() >= 1,
    ensures
        spec_placed_count(p, axis, line, lo, n) <= spec_placed_count(
            p.drop_first(),
            axis,
            line,
            lo,
            n,
        ) + if line_of(p[0], axis) == line && lo <= axis_pos(p[0], axis) < lo + n {
            1int
        } else {
            0int
        },
    decreases n,
{
    if n > 0 {
        lemma_placed_count_drop(p, axis, line, lo + 1, (n - 1) as nat);
        let rr = cell_row(axis, line, lo);
        let cc = cell_col(axis, line, lo);
        if spec_placed_tile_at(p, rr, cc) is Some {
            if !(p[0].coordinates.row as int == rr && p[0].coordinates.column as int == cc) {
                assert(spec_placed_tile_at(p.drop_first(), rr, cc) is Some);
            }
        }
    }
}

proof fn lemma_placed_count_nonneg(p: Seq<PlayedTile>, axis: Axis, line: int, lo: int, n: nat)
    ensures
        0 <= spec_placed_count(p, axis, line, lo, n),
    decreases n,
{
    if n > 0 {
        lemma_placed_count_nonneg(p, axis, line, lo + 1, (n - 1) as nat);
    }
}

proof fn lemma_placed_count_le_len(p: Seq<PlayedTile>, axis: Axis, line: int, lo: int, n: nat)
    ensures
        0 <= spec_placed_count(p, axis, line, lo, n) <= p.len(),
    decreases p.len(), n,
{
    lemma_placed_count_nonneg(p, axis, line, lo, n);
    if n > 0 {
        if p.len() == 0 {
            lemma_placed_count_le_len(p, axis, line, lo + 1, (n - 1) as nat);
        } else {
            lemma_placed_count_drop(p, axis, line, lo, n);
            lemma_placed_count_le_len(p.drop_first(), axis, line, lo, n);
        }
    }
}

/// All placed tiles carry values within the engine's capacity bound.
pub open spec fn placement_values_bounded(p: Seq<PlayedTile>) -> bool {
    forall|i: int| 0 <= i < p.len() ==> 0 <= (#[trigger] p[i]).tile.value <= MAX_TILE_VALUE
}

proof fn lemma_adjacent_pos_gap(p: Seq<PlayedTile>, axis: Axis, i: int, j: int)
    requires
        forall|m: int|
            0 <= m && m + 1 < p.len() ==> axis_pos(#[trigger] p[m], axis) < axis_pos(
                p[m + 1],
                axis,
            ),
        0 <= i <= j < p.len(),
    ensures
        axis_pos(p[i], axis) + (j - i) <= axis_pos(p[j], axis),
    decreases j - i,
{
    if i < j {
        lemma_adjacent_pos_gap(p, axis, i, j - 1);
    }
}

/// With strictly increasing adjacent positions, the extremes sit at the
/// placement's ends.
proof fn lemma_sorted_min_max(p: Seq<PlayedTile>, axis: Axis)
    requires
        p.len() >= 1,
        forall|m: int|
            0 <= m && m + 1 < p.len() ==> axis_pos(#[trigger] p[m], axis) < axis_pos(
                p[m + 1],
                axis,
            ),
    ensures
        spec_min_pos(p, axis) == axis_pos(p[0], axis),
        spec_max_pos(p, axis) == axis_pos(p.last(), axis),
    decreases p.len(),
{
    if p.len() > 1 {
        let rest = p.drop_first();
        assert forall|m: int| 0 <= m && m + 1 < rest.len() implies axis_pos(
            #[trigger] rest[m],
            axis,
        ) < axis_pos(rest[m + 1], axis) by {
            assert(rest[m] == p[m + 1]);
            assert(rest[m + 1] == p[m + 2]);
        }
        lemma_sorted_min_max(rest, axis);
        assert(rest[0] == p[1]);
        assert(rest.last() == p.last());
        lemma_min_pos_properties(rest, axis);
        let w = choose|i: int|
            0 <= i < rest.len() && axis_pos(#[trigger] rest[i], axis) == spec_min_pos(rest, axis);
        assert(axis_pos(p[0], axis) < axis_pos(p[1], axis));
    }
}

/// A position inside a sorted placement's extent that no tile covers lies
/// strictly between two consecutive tiles.
proof fn lemma_sorted_between(p: Seq<PlayedTile>, axis: Axis, q: int)
    requires
        p.len() >= 1,
        forall|m: int|
            0 <= m && m + 1 < p.len() ==> axis_pos(#[trigger] p[m], axis) < axis_pos(
                p[m + 1],
                axis,
            ),
        spec_min_pos(p, axis) <= q <= spec_max_pos(p, axis),
        !placement_has_pos(p, axis, q),
    ensures
        exists|i: int|
            0 <= i && i + 1 < p.len() && axis_pos(#[trigger] p[i], axis) < q && q < axis_pos(
                p[i + 1],
                axis,
            ),
    decreases p.len(),
{
    lemma_sorted_min_max(p, axis);
    assert(axis_pos(p[0], axis) != q);
    if p.len() == 1 {
        assert(false);
    } else {
        let rest = p.drop_first();
        assert forall|m: int| 0 <= m && m + 1 < rest.len() implies axis_pos(
            #[trigger] rest[m],
            axis,
        ) < axis_pos(rest[m + 1], axis) by {
            assert(rest[m] == p[m + 1]);
            assert(rest[m + 1] == p[m + 2]);
        }
        assert(rest[0] == p[1]);
        if q < axis_pos(p[1], axis) {
            assert(axis_pos(p[0], axis) < q && q < axis_pos(p[1], axis));
        } else {
            lemma_sorted_min_max(rest, axis);
            assert(rest.last() == p.last());
            assert(!placement_has_pos(rest, axis, q)) by {
                if placement_has_pos(rest, axis, q) {
                    let w = choose|i: int|
                        0 <= i < rest.len() && axis_pos(#[trigger] rest[i], axis) == q;
                    assert(p[w + 1] == rest[w]);
                    assert(placement_has_pos(p, axis, q));
                }
            }
            lemma_sorted_between(rest, axis, q);
            let i = choose|i: int|
                0 <= i && i + 1 < rest.len() && axis_pos(#[trigger] rest[i], axis) < q && q
                    < axis_pos(rest[i + 1], axis);
            assert(p[i + 1] == rest[i]);
            assert(p[i + 2] == rest[i + 1]);
            assert(axis_pos(p[i + 1], axis) < q && q < axis_pos(p[i + 2], axis));
        }
    }
}

/// Powers of three, for bounding accumulated word multipliers.
pub open spec fn pow3(n: int) -> int
    decreases n,
{
    if n <= 0 {
        1
    } else {
        3 * pow3(n - 1)
    }
}

proof fn lemma_pow3_pos(n: int)
    ensures
        pow3(n) >= 1,
    decreases n,
{
    if n > 0 {
        lemma_pow3_pos(n - 1);
    }
}

proof fn lemma_pow3_mono(a: int, b: int)
    requires
        a <= b,
    ensures
        1 <= pow3(a) <= pow3(b),
    decreases b - a,
{
    lemma_pow3_pos(a);
    if a < b {
        lemma_pow3_mono(a, b - 1);
        lemma_pow3_pos(b - 1);
    }
}

proof fn lemma_mul_bounds(a: int, b: int, a_max: int, b_max: int)
    requires
        0 <= a <= a_max,
        0 <= b <= b_max,
    ensures
        0 <= a * b <= a_max * b_max,
{
    assert(0 <= a * b <= a_max * b_max) by (nonlinear_arith)
        requires
            0 <= a <= a_max,
            0 <= b <= b_max,
    ;
}

fn axis_pos_exec(t: &PlayedTile, axis: &Axis) -> (r: i32)
    ensures
        r as int == axis_pos(*t, *axis),
{
    match axis {
        Axis::Horizontal => t.coordinates.column,
        Axis::Vertical => t.coordinates.row,
    }
}

fn line_of_exec(t: &PlayedTile, axis: &Axis) -> (r: i32)
    ensures
        r as int == line_of(*t, *axis),
{
    match axis {
        Axis::Horizontal => t.coordinates.row,
        Axis::Vertical => t.coordinates.column,
    }
}

/// The tile the placement lays at `(r, c)`, if any.
fn find_played_tile(played_tiles: &Vec<PlayedTile>, r: i32, c: i32) -> (res: Option<Tile>)
    ensures
        res == spec_placed_tile_at(played_tiles@, r as int, c as int),
{
    let ghost p = played_tiles@;
    let mut i: usize = 0;
    proof {
        assert(p.skip(0) =~= p);
    }
    while i < played_tiles.len()
        invariant
            p == played_tiles@,
            i <= p.len(),
            spec_placed_tile_at(p, r as int, c as int) == spec_placed_tile_at(
                p.skip(i as int),
                r as int,
                c as int,
            ),
        decreases p.len() - i,
    {
        proof {
            assert(p.skip(i as int).len() > 0);
            assert(p.skip(i as int)[0] == p[i as int]);
            assert(p.skip(i as int).drop_first() =~= p.skip(i as int + 1));
        }
        let t = &played_tiles[i];
        if t.coordinates.row == r && t.coordinates.column == c {
            return Some(t.tile);
        }
        i = i + 1;
    }
    proof {
        assert(p.skip(p.len() as int) =~= Seq::<PlayedTile>::empty());
    }
    None
}

/// The least and greatest positions of the placement's tiles along `axis`.
fn placement_extent(played_tiles: &Vec<PlayedTile>, axis: &Axis) -> (res: (i32, i32))
    requires
        played_tiles@.len() >= 1,
    ensures
        res.0 as int == spec_min_pos(played_tiles@, *axis),
        res.1 as int == spec_max_pos(played_tiles@, *axis),
{
    let ghost p = played_tiles@;
    let mut i: usize = played_tiles.len() - 1;
    let mut min_pos: i32 = axis_pos_exec(&played_tiles[i], axis);
    let mut max_pos: i32 = min_pos;
    proof {
        assert(p.skip(i as int).len() == 1);
        assert(p.skip(i as int)[0] == p[i as int]);
    }
    while i > 0
        invariant
            p == played_tiles@,
            i < p.len(),
            min_pos as int == spec_min_pos(p.skip(i as int), *axis),
            max_pos as int == spec_max_pos(p.skip(i as int), *axis),
        decreases i,
    {
        i = i - 1;
        let pos = axis_pos_exec(&played_tiles[i], axis);
        if pos < min_pos {
            min_pos = pos;
        }
        if pos > max_pos {
            max_pos = pos;
        }
        proof {
            assert(p.skip(i as int).len() == p.len() - i);
            assert(p.skip(i as int)[0] == p[i as int]);
            assert(p.skip(i as int).drop_first() =~= p.skip(i as int + 1));
        }
    }
    proof {
        assert(p.skip(0) =~= p);
    }
    (min_pos, max_pos)
}

fn axis_deltas(axis: &Axis) -> (d: (i32, i32))
    ensures
        d.0 as int == axis.spec_row_delta(),
        d.1 as int == axis.spec_column_delta(),
{
    match axis {
        Axis::Horizontal => (0, 1),
        Axis::Vertical => (1, 0),
    }
}

pub struct GameBoard {
    rows: i32,
    columns: i32,
    board_tiles: Vec<Option<Tile>>,
    modifiers: Vec<Modifier>,
}

impl GameBoard {
    pub closed spec fn spec_rows(self) -> int {
        self.rows as int
    }

    pub closed spec fn spec_columns(self) -> int {
        self.columns as int
    }

    /// The fixed tile at `(r, c)`, addressed row-major.
    pub closed spec fn spec_tile_at(self, r: int, c: int) -> Option<Tile> {
        self.board_tiles@[r * self.spec_columns() + c]
    }

    /// The scoring modifier at `(r, c)`.
    pub closed spec fn spec_modifier_at(self, r: int, c: int) -> Modifier {
        self.modifiers@[r * self.spec_columns() + c]
    }

    pub open spec fn in_bounds(self, r: int, c: int) -> bool {
        0 <= r < self.spec_rows() && 0 <= c < self.spec_columns()
    }

    /// The cell lies on the grid and holds a fixed tile.
    pub open spec fn occupied_at(self, r: int, c: int) -> bool {
        self.in_bounds(r, c) && self.spec_tile_at(r, c) is Some
    }

    /// The cell lies on the grid and holds no fixed tile.
    pub open spec fn empty_at(self, r: int, c: int) -> bool {
        self.in_bounds(r, c) && self.spec_tile_at(r, c) is None
    }

    /// Dimensions within capacity, grids of matching size, every fixed tile
    /// lettered and value-bounded, every modifier within capacity.
    pub closed spec fn wf(self) -> bool {
        &&& 0 <= self.rows <= MAX_BOARD_DIMENSION
        &&& 0 <= self.columns <= MAX_BOARD_DIMENSION
        &&& self.board_tiles@.len() == self.spec_rows() * self.spec_columns()
        &&& self.modifiers@.len() == self.spec_rows() * self.spec_columns()
        &&& (forall|r: int, c: int|
            self.in_bounds(r, c) ==> match #[trigger] self.spec_tile_at(r, c) {
                Some(t) => t.letter is Some && 0 <= t.value <= MAX_TILE_VALUE,
                None => true,
            })
        &&& (forall|r: int, c: int|
            self.in_bounds(r, c) ==> {
                &&& 0 <= (#[trigger] self.spec_modifier_at(r, c)).letter_multiplier
                    <= MAX_MULTIPLIER
                &&& 0 <= self.spec_modifier_at(r, c).word_multiplier <= MAX_MULTIPLIER
            })
    }

    /// Builds the board from a snapshot: dense grids over the layout's
    /// dimensions, the sparse modifier list applied on top of unit
    /// modifiers, and the already-played tiles laid onto empty cells. For a
    /// cell named twice, the later entry wins; entries naming off-grid
    /// cells are ignored.
    pub fn new(game_state: &GameSerializer) -> (r: GameBoard)
        requires
            spec_board_snapshot_wf(*game_state),
        ensures
            r.wf(),
            r.spec_rows() == game_state.board_layout.rows as int,
            r.spec_columns() == game_state.board_layout.columns as int,
            forall|rr: int, cc: int|
                #[trigger] r.in_bounds(rr, cc) ==> r.spec_tile_at(rr, cc)
                    == spec_fixed_tile_lookup(game_state.board_state@, rr, cc),
            forall|rr: int, cc: int|
                #[trigger] r.in_bounds(rr, cc) ==> r.spec_modifier_at(rr, cc)
                    == spec_modifier_lookup(game_state.board_layout.modifiers@, rr, cc),
    {
        let rows: i32 = game_state.board_layout.rows;
        let columns: i32 = game_state.board_layout.columns;
        proof {
            assert(0 <= rows as int * columns as int && rows as int * columns as int
                <= MAX_BOARD_DIMENSION as int * MAX_BOARD_DIMENSION as int) by (nonlinear_arith)
                requires
                    0 <= rows as int <= MAX_BOARD_DIMENSION as int,
                    0 <= columns as int <= MAX_BOARD_DIMENSION as int,
            ;
        }
        let total: usize = (rows * columns) as usize;
        let mut board_tiles: Vec<Option<Tile>> = Vec::new();
        while board_tiles.len() < total
            invariant
                board_tiles@.len() <= total as int,
                forall|m: int| 0 <= m < board_tiles@.len() ==> #[trigger] board_tiles@[m] is None,
            decreases total as int - board_tiles@.len(),
        {
            let ghost before = board_tiles@;
            board_tiles.push(None);
            proof {
                assert forall|m: int| 0 <= m < board_tiles@.len() implies #[trigger] board_tiles@[m]
                    is None by {
                    if m < before.len() {
                        assert(before.push(None)[m] == before[m]);
                    } else {
                        assert(before.push(None)[m] is None);
                    }
                }
            }
        }
        let mut modifiers: Vec<Modifier> = Vec::new();
        while modifiers.len() < total
            invariant
                modifiers@.len() <= total as int,
                forall|m: int| 0 <= m < modifiers@.len() ==> #[trigger] modifiers@[m] == (Modifier {
                    letter_multiplier: 1,
                    word_multiplier: 1,
                }),
            decreases total as int - modifiers@.len(),
        {
            let ghost before = modifiers@;
            let unit = Modifier { letter_multiplier: 1, word_multiplier: 1 };
            modifiers.push(unit);
            proof {
                assert forall|m: int| 0 <= m < modifiers@.len() implies #[trigger] modifiers@[m]
                    == (Modifier { letter_multiplier: 1, word_multiplier: 1 }) by {
                    if m < before.len() {
                        assert(before.push(unit)[m] == before[m]);
                    } else {
                        assert(before.push(unit)[m] == unit);
                    }
                }
            }
        }
        let ghost mod_entries = game_state.board_layout.modifiers@;
        proof {
            assert forall|rr: int, cc: int|
                0 <= rr < rows as int && 0 <= cc < columns as int implies #[trigger] modifiers@[rr
                * columns as int + cc] == spec_modifier_lookup(mod_entries.take(0), rr, cc) by {
                lemma_cell_index(rows as int, columns as int, rr, cc);
            }
        }
        let mut i: usize = 0;
        while i < game_state.board_layout.modifiers.len()
            invariant
                spec_board_snapshot_wf(*game_state),
                mod_entries == game_state.board_layout.modifiers@,
                rows == game_state.board_layout.rows,
                columns == game_state.board_layout.columns,
                total as int == rows as int * columns as int,
                i <= mod_entries.len(),
                modifiers@.len() == total as int,
                forall|rr: int, cc: int|
                    0 <= rr < rows as int && 0 <= cc < columns as int
                        ==> #[trigger] modifiers@[rr * columns as int + cc]
                        == spec_modifier_lookup(mod_entries.take(i as int), rr, cc),
            decreases mod_entries.len() - i,
        {
            let entry = &game_state.board_layout.modifiers[i];
            let ghost before = modifiers@;
            if entry.row >= 0 && entry.row < rows && entry.column >= 0 && entry.column < columns {
                proof {
                    lemma_cell_index(
                        rows as int,
                        columns as int,
                        entry.row as int,
                        entry.column as int,
                    );
                }
                let index: usize = (entry.row * columns + entry.column) as usize;
                modifiers.set(
                    index,
                    Modifier {
                        letter_multiplier: entry.modifier.letter_multiplier,
                        word_multiplier: entry.modifier.word_multiplier,
                    },
                );
            }
            i = i + 1;
            proof {
                assert(mod_entries.take(i as int).drop_last() =~= mod_entries.take(i as int - 1));
                assert(mod_entries.take(i as int).last() == mod_entries[i as int - 1]);
                assert forall|rr: int, cc: int|
                    0 <= rr < rows as int && 0 <= cc < columns as int implies #[trigger] modifiers@[
                    rr * columns as int + cc] == spec_modifier_lookup(
                    mod_entries.take(i as int),
                    rr,
                    cc,
                ) by {
                    lemma_cell_index(rows as int, columns as int, rr, cc);
                    let e = mod_entries[i as int - 1];
                    if e.row as int == rr && e.column as int == cc {
                        assert(0 <= e.row as int && (e.row as int) < rows as int);
                        assert(0 <= e.column as int && (e.column as int) < columns as int);
                    } else {
                        if 0 <= e.row as int && (e.row as int) < rows as int && 0 <= e.column
                            as int && (e.column as int) < columns as int {
                            if rr * columns as int + cc == e.row as int * columns as int
                                + e.column as int {
                                lemma_cell_index_injective(
                                    columns as int,
                                    rr,
                                    cc,
                                    e.row as int,
                                    e.column as int,
                                );
                            }
                            assert(modifiers@[rr * columns as int + cc] == before[rr
                                * columns as int + cc]);
                        }
                    }
                }
            }
        }
        proof {
            assert(mod_entries.take(mod_entries.len() as int) =~= mod_entries);
        }
        let ghost tile_entries = game_state.board_state@;
        proof {
            assert forall|rr: int, cc: int|
                0 <= rr < rows as int && 0 <= cc < columns as int implies #[trigger] board_tiles@[rr
                * columns as int + cc] == spec_fixed_tile_lookup(tile_entries.take(0), rr, cc) by {
                lemma_cell_index(rows as int, columns as int, rr, cc);
            }
        }
        let mut j: usize = 0;
        while j < game_state.board_state.len()
            invariant
                spec_board_snapshot_wf(*game_state),
                tile_entries == game_state.board_state@,
                rows == game_state.board_layout.rows,
                columns == game_state.board_layout.columns,
                total as int == rows as int * columns as int,
                j <= tile_entries.len(),
                board_tiles@.len() == total as int,
                forall|rr: int, cc: int|
                    0 <= rr < rows as int && 0 <= cc < columns as int
                        ==> #[trigger] board_tiles@[rr * columns as int + cc]
                        == spec_fixed_tile_lookup(tile_entries.take(j as int), rr, cc),
            decreases tile_entries.len() - j,
        {
            let entry = &game_state.board_state[j];
            let ghost before = board_tiles@;
            if entry.row >= 0 && entry.row < rows && entry.column >= 0 && entry.column < columns {
                proof {
                    lemma_cell_index(
                        rows as int,
                        columns as int,
                        entry.row as int,
                        entry.column as int,
                    );
                }
                let index: usize = (entry.row * columns + entry.column) as usize;
                let letter: Option<char> = match &entry.tile.letter {
                    Some(letter_text) => Some(letter_text.as_str().get_char(0)),
                    None => None,
                };
                let tile = Tile { letter, value: entry.tile.value, is_blank: entry.tile.is_blank };
                proof {
                    assert(tile == spec_tile_of_serializer(tile_entries[j as int].tile));
                }
                board_tiles.set(index, Some(tile));
            }
            j = j + 1;
            proof {
                assert(tile_entries.take(j as int).drop_last() =~= tile_entries.take(j as int - 1));
                assert(tile_entries.take(j as int).last() == tile_entries[j as int - 1]);
                assert forall|rr: int, cc: int|
                    0 <= rr < rows as int && 0 <= cc < columns as int implies #[trigger] board_tiles@[
                    rr * columns as int + cc] == spec_fixed_tile_lookup(
                    tile_entries.take(j as int),
                    rr,
                    cc,
                ) by {
                    lemma_cell_index(rows as int, columns as int, rr, cc);
                    let e = tile_entries[j as int - 1];
                    if e.row as int == rr && e.column as int == cc {
                        assert(0 <= e.row as int && (e.row as int) < rows as int);
                        assert(0 <= e.column as int && (e.column as int) < columns as int);
                    } else {
                        if 0 <= e.row as int && (e.row as int) < rows as int && 0 <= e.column
                            as int && (e.column as int) < columns as int {
                            if rr * columns as int + cc == e.row as int * columns as int
                                + e.column as int {
                                lemma_cell_index_injective(
                                    columns as int,
                                    rr,
                                    cc,
                                    e.row as int,
                                    e.column as int,
                                );
                            }
                            assert(board_tiles@[rr * columns as int + cc] == before[rr
                                * columns as int + cc]);
                        }
                    }
                }
            }
        }
        proof {
            assert(tile_entries.take(tile_entries.len() as int) =~= tile_entries);
        }
        let board = GameBoard { rows, columns, board_tiles, modifiers };
        proof {
            assert forall|rr: int, cc: int| board.in_bounds(rr, cc) implies {
                &&& board.spec_tile_at(rr, cc) == spec_fixed_tile_lookup(tile_entries, rr, cc)
                &&& board.spec_modifier_at(rr, cc) == spec_modifier_lookup(mod_entries, rr, cc)
            } by {
                lemma_cell_index(rows as int, columns as int, rr, cc);
            }
            assert forall|rr: int, cc: int| board.in_bounds(rr, cc) implies {
                &&& match board.spec_tile_at(rr, cc) {
                    Some(t) => t.letter is Some && 0 <= t.value <= MAX_TILE_VALUE,
                    None => true,
                }
                &&& 0 <= board.spec_modifier_at(rr, cc).letter_multiplier <= MAX_MULTIPLIER
                &&& 0 <= board.spec_modifier_at(rr, cc).word_multiplier <= MAX_MULTIPLIER
            } by {
                lemma_fixed_tile_lookup_wf(tile_entries, rr, cc);
                lemma_modifier_lookup_wf(mod_entries, rr, cc);
            }
        }
        board
    }

    pub fn get_rows(&self) -> (r: i32)
        ensures
            r as int == self.spec_rows(),
    {
        self.rows
    }

    pub fn get_columns(&self) -> (r: i32)
        ensures
            r as int == self.spec_columns(),
    {
        self.columns
    }

    fn bounds_check(&self, r: i32, c: i32) -> (res: bool)
        ensures
            res == self.in_bounds(r as int, c as int),
    {
        0 <= r && r < self.rows && 0 <= c && c < self.columns
    }

    /// Reads the fixed tile at an in-bounds cell.
    fn cell(&self, r: i32, c: i32) -> (res: Option<Tile>)
        requires
            self.wf(),
            self.in_bounds(r as int, c as int),
        ensures
            res == self.spec_tile_at(r as int, c as int),
    {
        proof {
            lemma_cell_index(self.spec_rows(), self.spec_columns(), r as int, c as int);
        }
        let index: usize = (r * self.columns + c) as usize;
        self.board_tiles[index]
    }

    /// Reads the modifier at an in-bounds cell.
    fn modifier(&self, r: i32, c: i32) -> (res: Modifier)
        requires
            self.wf(),
            self.in_bounds(r as int, c as int),
        ensures
            res == self.spec_modifier_at(r as int, c as int),
    {
        proof {
            lemma_cell_index(self.spec_rows(), self.spec_columns(), r as int, c as int);
        }
        let index: usize = (r * self.columns + c) as usize;
        self.modifiers[index]
    }

    /// Whether a possibly off-grid cell holds a fixed tile.
    fn occupied_check(&self, r: i32, c: i32) -> (res: bool)
        requires
            self.wf(),
        ensures
            res == self.occupied_at(r as int, c as int),
    {
        if self.bounds_check(r, c) {
            self.cell(r, c).is_some()
        } else {
            false
        }
    }

    /// True iff the cell holds a fixed tile; out-of-bounds coordinates are
    /// rejected.
    pub fn is_occupied(&self, coordinates: &Coordinates) -> (res: Result<bool, PlacementError>)
        requires
            self.wf(),
        ensures
            match res {
                Ok(b) => self.in_bounds(coordinates.row as int, coordinates.column as int) && b
                    == (self.spec_tile_at(coordinates.row as int, coordinates.column as int)
                    is Some),
                Err(e) => !self.in_bounds(coordinates.row as int, coordinates.column as int) && e
                    == PlacementError::OutOfBounds,
            },
    {
        if self.bounds_check(coordinates.row, coordinates.column) {
            Ok(self.cell(coordinates.row, coordinates.column).is_some())
        } else {
            Err(PlacementError::OutOfBounds)
        }
    }

    /// Some cell next to `(r, c)` (up, down, left or right) holds a fixed
    /// tile.
    pub open spec fn spec_neighbor_occupied(self, r: int, c: int) -> bool {
        ||| self.occupied_at(r, c + 1)
        ||| self.occupied_at(r, c - 1)
        ||| self.occupied_at(r + 1, c)
        ||| self.occupied_at(r - 1, c)
    }

    /// Some placed tile has a 4-neighbour holding a fixed tile.
    pub open spec fn spec_connected(self, p: Seq<PlayedTile>) -> bool {
        exists|i: int|
            0 <= i < p.len() && self.spec_neighbor_occupied(
                #[trigger] p[i].coordinates.row as int,
                p[i].coordinates.column as int,
            )
    }

    fn neighbor_occupied(&self, r: i32, c: i32) -> (res: bool)
        requires
            self.wf(),
        ensures
            res == self.spec_neighbor_occupied(r as int, c as int),
    {
        let right = c < i32::MAX && self.occupied_check(r, c + 1);
        let left = c > i32::MIN && self.occupied_check(r, c - 1);
        let down = r < i32::MAX && self.occupied_check(r + 1, c);
        let up = r > i32::MIN && self.occupied_check(r - 1, c);
        proof {
            if c == i32::MAX {
                assert(!self.occupied_at(r as int, c as int + 1));
            }
            if c == i32::MIN {
                assert(!self.occupied_at(r as int, c as int - 1));
            }
            if r == i32::MAX {
                assert(!self.occupied_at(r as int + 1, c as int));
            }
            if r == i32::MIN {
                assert(!self.occupied_at(r as int - 1, c as int));
            }
        }
        right || left || down || up
    }

    /// True iff at least one placed tile touches a fixed board tile.
    pub fn is_connected(&self, played_tiles: &Vec<PlayedTile>) -> (res: bool)
        requires
            self.wf(),
        ensures
            res == self.spec_connected(played_tiles@),
    {
        let mut i: usize = 0;
        while i < played_tiles.len()
            invariant
                self.wf(),
                i <= played_tiles@.len(),
                forall|m: int|
                    0 <= m < i as int ==> !self.spec_neighbor_occupied(
                        #[trigger] played_tiles@[m].coordinates.row as int,
                        played_tiles@[m].coordinates.column as int,
                    ),
            decreases played_tiles@.len() - i,
        {
            let t = &played_tiles[i];
            if self.neighbor_occupied(t.coordinates.row, t.coordinates.column) {
                return true;
            }
            i = i + 1;
        }
        false
    }

    /// The centre cell, at half the dimensions rounded down.
    pub open spec fn spec_center(self) -> (int, int) {
        (self.spec_rows() / 2, self.spec_columns() / 2)
    }

    /// Some placed tile sits on the centre cell.
    pub open spec fn spec_through_center(self, p: Seq<PlayedTile>) -> bool {
        exists|i: int|
            0 <= i < p.len() && (#[trigger] p[i].coordinates.row as int,
            p[i].coordinates.column as int) == self.spec_center()
    }

    /// True iff the placement covers the centre of the board.
    pub fn is_through_center(&self, played_tiles: &Vec<PlayedTile>) -> (res: bool)
        requires
            self.wf(),
        ensures
            res == self.spec_through_center(played_tiles@),
    {
        let center_row: i32 = self.rows / 2;
        let center_column: i32 = self.columns / 2;
        let mut i: usize = 0;
        while i < played_tiles.len()
            invariant
                self.wf(),
                center_row as int == self.spec_rows() / 2,
                center_column as int == self.spec_columns() / 2,
                i <= played_tiles@.len(),
                forall|m: int|
                    0 <= m < i as int ==> (#[trigger] played_tiles@[m].coordinates.row as int,
                    played_tiles@[m].coordinates.column as int) != self.spec_center(),
            decreases played_tiles@.len() - i,
        {
            let t = &played_tiles[i];
            if t.coordinates.row == center_row && t.coordinates.column == center_column {
                return true;
            }
            i = i + 1;
        }
        false
    }

    /// The first on-grid cell at or after `(r, c)` along `axis` holding no
    /// fixed tile, walking over occupied cells; `None` when the walk leaves
    /// the grid first.
    pub open spec fn spec_first_free(self, r: int, c: int, axis: Axis) -> Option<(int, int)>
        decreases self.spec_rows() + self.spec_columns() - r - c,
    {
        if !self.in_bounds(r, c) {
            None
        } else if self.spec_tile_at(r, c) is None {
            Some((r, c))
        } else {
            self.spec_first_free(
                r + axis.spec_row_delta(),
                c + axis.spec_column_delta(),
                axis,
            )
        }
    }

    /// The tiles laid from `(r, c)` on: each goes to the next free cell,
    /// skipping over fixed tiles; `None` when the grid runs out first.
    pub open spec fn spec_place_tiles(self, r: int, c: int, tiles: Seq<Tile>, axis: Axis) -> Option<
        Seq<PlayedTile>,
    >
        decreases tiles.len(),
    {
        if tiles.len() == 0 {
            Some(Seq::empty())
        } else {
            match self.spec_first_free(r, c, axis) {
                None => None,
                Some(pos) => {
                    let placed = PlayedTile {
                        coordinates: Coordinates { row: pos.0 as i32, column: pos.1 as i32 },
                        tile: tiles[0],
                    };
                    match self.spec_place_tiles(
                        pos.0 + axis.spec_row_delta(),
                        pos.1 + axis.spec_column_delta(),
                        tiles.drop_first(),
                        axis,
                    ) {
                        None => None,
                        Some(rest) => Some(seq![placed] + rest),
                    }
                },
            }
        }
    }

    /// What `build_played_tiles` returns: no tiles yield the empty
    /// placement; an off-grid start fails out-of-bounds; an occupied start
    /// fails start-occupied; otherwise the walk lays every tile, or runs
    /// off the grid and fails out-of-bounds.
    pub open spec fn spec_build_placement(
        self,
        start: Coordinates,
        tiles: Seq<Tile>,
        axis: Axis,
    ) -> Result<Seq<PlayedTile>, PlacementError> {
        if tiles.len() == 0 {
            Ok(Seq::empty())
        } else if !self.in_bounds(start.row as int, start.column as int) {
            Err(PlacementError::OutOfBounds)
        } else if self.spec_tile_at(start.row as int, start.column as int) is Some {
            Err(PlacementError::StartOccupied)
        } else {
            match self.spec_place_tiles(start.row as int, start.column as int, tiles, axis) {
                Some(s) => Ok(s),
                None => Err(PlacementError::OutOfBounds),
            }
        }
    }

    fn first_free_cell(&self, r: i32, c: i32, axis: &Axis) -> (res: Option<(i32, i32)>)
        requires
            self.wf(),
        ensures
            match res {
                Some(pos) => self.spec_first_free(r as int, c as int, *axis) == Some(
                    (pos.0 as int, pos.1 as int),
                ) && self.empty_at(pos.0 as int, pos.1 as int),
                None => self.spec_first_free(r as int, c as int, *axis) is None,
            },
    {
        let d = axis_deltas(axis);
        let mut cr: i32 = r;
        let mut cc: i32 = c;
        while self.bounds_check(cr, cc) && self.cell(cr, cc).is_some()
            invariant
                self.wf(),
                d.0 as int == axis.spec_row_delta(),
                d.1 as int == axis.spec_column_delta(),
                self.spec_first_free(cr as int, cc as int, *axis) == self.spec_first_free(
                    r as int,
                    c as int,
                    *axis,
                ),
            decreases self.spec_rows() + self.spec_columns() - cr as int - cc as int,
        {
            cr = cr + d.0;
            cc = cc + d.1;
        }
        if self.bounds_check(cr, cc) {
            Some((cr, cc))
        } else {
            None
        }
    }

    /// Walks from `start_coordinates` along `axis`, laying one rack tile on
    /// each free cell and skipping over cells that already hold a fixed
    /// tile. Fails with `StartOccupied` exactly when tiles are to be laid
    /// and the start cell holds a fixed tile, and with `OutOfBounds` when
    /// the start is off the grid or the walk leaves it before all tiles
    /// are laid.
    pub fn build_played_tiles(
        &self,
        start_coordinates: &Coordinates,
        tiles: Vec<&Tile>,
        axis: &Axis,
    ) -> (res: Result<Vec<PlayedTile>, PlacementError>)
        requires
            self.wf(),
        ensures
            ({
                let sp = self.spec_build_placement(
                    *start_coordinates,
                    tiles@.map_values(|t: &Tile| *t),
                    *axis,
                );
                match res {
                    Ok(v) => sp matches Ok(s) && v@ == s,
                    Err(e) => sp matches Err(e2) && e == e2,
                }
            }),
    {
        let ghost tiles_seq = tiles@.map_values(|t: &Tile| *t);
        if tiles.len() == 0 {
            let empty_result: Vec<PlayedTile> = Vec::new();
            proof {
                assert(empty_result@ =~= Seq::<PlayedTile>::empty());
            }
            return Ok(empty_result);
        }
        if !self.bounds_check(start_coordinates.row, start_coordinates.column) {
            return Err(PlacementError::OutOfBounds);
        }
        if self.cell(start_coordinates.row, start_coordinates.column).is_some() {
            return Err(PlacementError::StartOccupied);
        }
        let d = axis_deltas(axis);
        let mut played_tiles: Vec<PlayedTile> = Vec::new();
        let mut cr: i32 = start_coordinates.row;
        let mut cc: i32 = start_coordinates.column;
        let mut i: usize = 0;
        proof {
            assert(tiles_seq.skip(0) =~= tiles_seq);
        }
        while i < tiles.len()
            invariant
                self.wf(),
                tiles_seq == tiles@.map_values(|t: &Tile| *t),
                tiles_seq.len() == tiles@.len(),
                tiles_seq.len() > 0,
                self.empty_at(start_coordinates.row as int, start_coordinates.column as int),
                i <= tiles@.len(),
                played_tiles@.len() == i as int,
                d.0 as int == axis.spec_row_delta(),
                d.1 as int == axis.spec_column_delta(),
                0 <= cr as int <= MAX_BOARD_DIMENSION as int,
                0 <= cc as int <= MAX_BOARD_DIMENSION as int,
                match self.spec_place_tiles(
                    cr as int,
                    cc as int,
                    tiles_seq.skip(i as int),
                    *axis,
                ) {
                    None => self.spec_place_tiles(
                        start_coordinates.row as int,
                        start_coordinates.column as int,
                        tiles_seq,
                        *axis,
                    ) is None,
                    Some(rest) => self.spec_place_tiles(
                        start_coordinates.row as int,
                        start_coordinates.column as int,
                        tiles_seq,
                        *axis,
                    ) == Some(played_tiles@ + rest),
                },
            decreases tiles@.len() - i,
        {
            let ghost remaining = tiles_seq.skip(i as int);
            proof {
                assert(remaining.len() > 0);
                assert(remaining[0] == tiles_seq[i as int]);
                assert(tiles_seq[i as int] == *tiles@[i as int]);
                assert(remaining.drop_first() =~= tiles_seq.skip(i as int + 1));
            }
            match self.first_free_cell(cr, cc, axis) {
                None => {
                    return Err(PlacementError::OutOfBounds);
                },
                Some(pos) => {
                    let placed = PlayedTile {
                        coordinates: Coordinates { row: pos.0, column: pos.1 },
                        tile: *tiles[i],
                    };
                    let ghost played_before = played_tiles@;
                    played_tiles.push(placed);
                    proof {
                        let rest_opt = self.spec_place_tiles(
                            pos.0 as int + axis.spec_row_delta(),
                            pos.1 as int + axis.spec_column_delta(),
                            remaining.drop_first(),
                            *axis,
                        );
                        match rest_opt {
                            None => {},
                            Some(rest) => {
                                assert(self.spec_place_tiles(
                                    cr as int,
                                    cc as int,
                                    remaining,
                                    *axis,
                                ) == Some(seq![placed] + rest));
                                assert(played_before + (seq![placed] + rest) =~= played_tiles@
                                    + rest);
                            },
                        }
                    }
                    cr = pos.0 + d.0;
                    cc = pos.1 + d.1;
                    i = i + 1;
                },
            }
        }
        proof {
            assert(tiles_seq.skip(tiles_seq.len() as int) =~= Seq::<Tile>::empty());
            let final_opt = self.spec_place_tiles(
                cr as int,
                cc as int,
                tiles_seq.skip(i as int),
                *axis,
            );
            assert(final_opt == Some(Seq::<PlayedTile>::empty()));
            assert(played_tiles@ + Seq::<PlayedTile>::empty() =~= played_tiles@);
        }
        Ok(played_tiles)
    }

    /// The dimension that bounds positions along `axis`.
    pub open spec fn axis_dim(self, axis: Axis) -> int {
        match axis {
            Axis::Horizontal => self.spec_columns(),
            Axis::Vertical => self.spec_rows(),
        }
    }

    /// The start of the run of occupied cells reaching back from position
    /// `q` on the line: the walk steps over fixed tiles and stops at the
    /// first cell before an empty or off-grid one.
    pub open spec fn spec_run_low(self, axis: Axis, line: int, q: int) -> int
        decreases q,
    {
        if self.occupied_at(cell_row(axis, line, q - 1), cell_col(axis, line, q - 1)) {
            self.spec_run_low(axis, line, q - 1)
        } else {
            q
        }
    }

    /// The end of the run of occupied cells reaching forward from `q`.
    pub open spec fn spec_run_high(self, axis: Axis, line: int, q: int) -> int
        decreases self.spec_rows() + self.spec_columns() - q,
    {
        if self.occupied_at(cell_row(axis, line, q + 1), cell_col(axis, line, q + 1)) {
            self.spec_run_high(axis, line, q + 1)
        } else {
            q
        }
    }

    pub proof fn lemma_run_low_bounds(self, axis: Axis, line: int, q: int)
        requires
            0 <= q,
        ensures
            0 <= self.spec_run_low(axis, line, q) <= q,
        decreases q,
    {
        if self.occupied_at(cell_row(axis, line, q - 1), cell_col(axis, line, q - 1)) {
            self.lemma_run_low_bounds(axis, line, q - 1);
        }
    }

    pub proof fn lemma_run_high_bounds(self, axis: Axis, line: int, q: int)
        requires
            q < self.axis_dim(axis),
        ensures
            q <= self.spec_run_high(axis, line, q) < self.axis_dim(axis),
        decreases self.spec_rows() + self.spec_columns() - q,
    {
        if self.occupied_at(cell_row(axis, line, q + 1), cell_col(axis, line, q + 1)) {
            self.lemma_run_high_bounds(axis, line, q + 1);
        }
    }

    /// A placement the scorer accepts: non-empty, on empty cells of one
    /// line of its primary axis, one tile per position, and with every
    /// position between its extremes covered by a tile or a fixed tile.
    pub open spec fn placement_geometry(self, p: Seq<PlayedTile>) -> bool {
        let axis = spec_axis_of(p);
        let line = line_of(p[0], axis);
        &&& p.len() >= 1
        &&& self.spec_all_available(p)
        &&& placement_aligned(p, axis)
        &&& placement_distinct(p, axis)
        &&& (forall|q: int|
            spec_min_pos(p, axis) <= q <= spec_max_pos(p, axis) && !placement_has_pos(p, axis, q)
                ==> self.occupied_at(cell_row(axis, line, q), cell_col(axis, line, q)))
    }

    /// A scorable placement also fits the engine's capacity bounds.
    pub open spec fn placement_scorable(self, p: Seq<PlayedTile>) -> bool {
        &&& self.placement_geometry(p)
        &&& p.len() <= BINGO_TILES_LENGTH as int
        &&& placement_values_bounded(p)
    }

    /// The points one cell contributes: a fixed tile its raw value, a
    /// placed tile its value times the cell's letter multiplier.
    pub open spec fn spec_cell_score(self, p: Seq<PlayedTile>, r: int, c: int) -> int {
        if self.occupied_at(r, c) {
            match self.spec_tile_at(r, c) {
                Some(t) => t.value as int,
                None => 0,
            }
        } else {
            match spec_placed_tile_at(p, r, c) {
                Some(t) => t.value * self.spec_modifier_at(r, c).letter_multiplier,
                None => 0,
            }
        }
    }

    /// The word-multiplier factor one cell contributes: only a cell with a
    /// newly placed tile multiplies, by its word multiplier.
    pub open spec fn spec_cell_word_multiplier(self, p: Seq<PlayedTile>, r: int, c: int) -> int {
        if self.occupied_at(r, c) {
            1
        } else {
            match spec_placed_tile_at(p, r, c) {
                Some(_) => self.spec_modifier_at(r, c).word_multiplier as int,
                None => 1,
            }
        }
    }

    /// The sum of cell scores over `n` cells from position `lo`.
    pub open spec fn spec_span_score(
        self,
        p: Seq<PlayedTile>,
        axis: Axis,
        line: int,
        lo: int,
        n: nat,
    ) -> int
        decreases n,
    {
        if n == 0 {
            0
        } else {
            self.spec_cell_score(p, cell_row(axis, line, lo), cell_col(axis, line, lo))
                + self.spec_span_score(p, axis, line, lo + 1, (n - 1) as nat)
        }
    }

    /// The product of cell word-multiplier factors over the same span.
    pub open spec fn spec_span_multiplier(
        self,
        p: Seq<PlayedTile>,
        axis: Axis,
        line: int,
        lo: int,
        n: nat,
    ) -> int
        decreases n,
    {
        if n == 0 {
            1
        } else {
            self.spec_cell_word_multiplier(p, cell_row(axis, line, lo), cell_col(axis, line, lo))
                * self.spec_span_multiplier(p, axis, line, lo + 1, (n - 1) as nat)
        }
    }

    proof fn lemma_span_score_snoc(self, p: Seq<PlayedTile>, axis: Axis, line: int, lo: int, n: nat)
        ensures
            self.spec_span_score(p, axis, line, lo, (n + 1) as nat) == self.spec_span_score(
                p,
                axis,
                line,
                lo,
                n,
            ) + self.spec_cell_score(p, cell_row(axis, line, lo + n), cell_col(axis, line, lo + n)),
        decreases n,
    {
        if n == 0 {
            assert(self.spec_span_score(p, axis, line, lo + 1, 0) == 0);
        } else {
            self.lemma_span_score_snoc(p, axis, line, lo + 1, (n - 1) as nat);
        }
    }

    proof fn lemma_span_multiplier_snoc(
        self,
        p: Seq<PlayedTile>,
        axis: Axis,
        line: int,
        lo: int,
        n: nat,
    )
        ensures
            self.spec_span_multiplier(p, axis, line, lo, (n + 1) as nat)
                == self.spec_span_multiplier(p, axis, line, lo, n)
                * self.spec_cell_word_multiplier(
                p,
                cell_row(axis, line, lo + n),
                cell_col(axis, line, lo + n),
            ),
        decreases n,
    {
        if n == 0 {
            assert(self.spec_span_multiplier(p, axis, line, lo + 1, 0) == 1);
        } else {
            self.lemma_span_multiplier_snoc(p, axis, line, lo + 1, (n - 1) as nat);
            let first = self.spec_cell_word_multiplier(
                p,
                cell_row(axis, line, lo),
                cell_col(axis, line, lo),
            );
            let mid = self.spec_span_multiplier(p, axis, line, lo + 1, (n - 1) as nat);
            let last = self.spec_cell_word_multiplier(
                p,
                cell_row(axis, line, lo + n),
                cell_col(axis, line, lo + n),
            );
            assert(first * (mid * last) == (first * mid) * last) by (nonlinear_arith);
        }
    }

    proof fn lemma_placed_count_snoc(
        self,
        p: Seq<PlayedTile>,
        axis: Axis,
        line: int,
        lo: int,
        n: nat,
    )
        ensures
            spec_placed_count(p, axis, line, lo, (n + 1) as nat) == spec_placed_count(
                p,
                axis,
                line,
                lo,
                n,
            ) + if spec_placed_tile_at(
                p,
                cell_row(axis, line, lo + n),
                cell_col(axis, line, lo + n),
            ) is Some {
                1int
            } else {
                0int
            },
        decreases n,
    {
        if n == 0 {
            assert(spec_placed_count(p, axis, line, lo + 1, 0) == 0);
        } else {
            self.lemma_placed_count_snoc(p, axis, line, lo + 1, (n - 1) as nat);
        }
    }

    /// The points of the whole word along the placement's primary axis:
    /// the span runs from the placement's least position, extended back
    /// through fixed tiles, to its greatest, extended forward; the summed
    /// cell scores are then scaled by the accumulated word multiplier.
    pub open spec fn spec_primary_score(self, p: Seq<PlayedTile>) -> int {
        let axis = spec_axis_of(p);
        let line = line_of(p[0], axis);
        let lo = self.spec_run_low(axis, line, spec_min_pos(p, axis));
        let hi = self.spec_run_high(axis, line, spec_max_pos(p, axis));
        self.spec_span_score(p, axis, line, lo, (hi - lo + 1) as nat) * self.spec_span_multiplier(
            p,
            axis,
            line,
            lo,
            (hi - lo + 1) as nat,
        )
    }

    /// The points one placed tile contributes along the secondary axis: 0
    /// when no neighbouring fixed tile extends its cell into a word, else
    /// the span's cell scores scaled by that one cell's word multiplier.
    pub open spec fn spec_secondary_score(self, t: PlayedTile, axis: Axis) -> int {
        let line = line_of(t, axis);
        let pos = axis_pos(t, axis);
        let lo = self.spec_run_low(axis, line, pos);
        let hi = self.spec_run_high(axis, line, pos);
        if lo == hi {
            0
        } else {
            self.spec_span_score(seq![t], axis, line, lo, (hi - lo + 1) as nat)
                * self.spec_modifier_at(
                t.coordinates.row as int,
                t.coordinates.column as int,
            ).word_multiplier as int
        }
    }

    /// The summed secondary contributions of the first `n` placed tiles.
    pub open spec fn spec_secondary_total(self, p: Seq<PlayedTile>, axis: Axis, n: nat) -> int
        decreases n,
    {
        if n == 0 {
            0
        } else {
            self.spec_secondary_total(p, axis, (n - 1) as nat) + self.spec_secondary_score(
                p[n - 1],
                axis,
            )
        }
    }

    /// The score before the whole-rack bonus: for more than one tile, each
    /// tile's secondary contribution, plus the primary word.
    pub open spec fn spec_score_without_bonus(self, p: Seq<PlayedTile>) -> int {
        (if p.len() > 1 {
            self.spec_secondary_total(p, spec_axis_of(p).spec_complement(), p.len())
        } else {
            0
        }) + self.spec_primary_score(p)
    }

    /// The full score of a placement: its score without the bonus, plus
    /// the bonus when the whole seven-tile rack was used.
    pub open spec fn spec_score(self, p: Seq<PlayedTile>) -> int {
        self.spec_score_without_bonus(p) + (if p.len() == BINGO_TILES_LENGTH as int {
            BINGO_BONUS as int
        } else {
            0
        })
    }

    /// A placement of exactly seven tiles always scores at least its own
    /// score without the bonus plus the bonus.
    pub proof fn lemma_bingo_bonus(self, p: Seq<PlayedTile>)
        requires
            p.len() == BINGO_TILES_LENGTH as int,
        ensures
            self.spec_score(p) >= self.spec_score_without_bonus(p) + BINGO_BONUS as int,
    {
    }

    /// Every placed tile targets an on-grid cell with no fixed tile.
    pub open spec fn spec_all_available(self, p: Seq<PlayedTile>) -> bool {
        forall|i: int|
            0 <= i < p.len() ==> self.empty_at(
                #[trigger] p[i].coordinates.row as int,
                p[i].coordinates.column as int,
            )
    }

    /// True iff every target cell is currently empty (and on the grid).
    pub fn is_available(&self, played_tiles: &Vec<PlayedTile>) -> (res: bool)
        requires
            self.wf(),
        ensures
            res == self.spec_all_available(played_tiles@),
    {
        let mut i: usize = 0;
        while i < played_tiles.len()
            invariant
                self.wf(),
                i <= played_tiles@.len(),
                forall|m: int|
                    0 <= m < i as int ==> self.empty_at(
                        #[trigger] played_tiles@[m].coordinates.row as int,
                        played_tiles@[m].coordinates.column as int,
                    ),
            decreases played_tiles@.len() - i,
        {
            let t = &played_tiles[i];
            if !self.bounds_check(t.coordinates.row, t.coordinates.column) {
                return false;
            }
            if self.cell(t.coordinates.row, t.coordinates.column).is_some() {
                return false;
            }
            i = i + 1;
        }
        true
    }

    fn occupied_on_line(&self, axis: &Axis, line: i32, q: i32) -> (res: bool)
        requires
            self.wf(),
        ensures
            res == self.occupied_at(
                cell_row(*axis, line as int, q as int),
                cell_col(*axis, line as int, q as int),
            ),
    {
        match axis {
            Axis::Horizontal => self.occupied_check(line, q),
            Axis::Vertical => self.occupied_check(q, line),
        }
    }

    /// The farthest position reachable from `start_position` along `axis`
    /// in the given direction through contiguously occupied cells.
    pub(crate) fn extremal_connected_position(
        &self,
        start_position: &Coordinates,
        axis: &Axis,
        direction: Direction,
    ) -> (res: Coordinates)
        requires
            self.wf(),
            self.in_bounds(start_position.row as int, start_position.column as int),
        ensures
            ({
                let line = match *axis {
                    Axis::Horizontal => start_position.row as int,
                    Axis::Vertical => start_position.column as int,
                };
                let pos = match *axis {
                    Axis::Horizontal => start_position.column as int,
                    Axis::Vertical => start_position.row as int,
                };
                let goal = match direction {
                    Direction::Negative => self.spec_run_low(*axis, line, pos),
                    Direction::Positive => self.spec_run_high(*axis, line, pos),
                };
                res.row as int == cell_row(*axis, line, goal) && res.column as int == cell_col(
                    *axis,
                    line,
                    goal,
                )
            }),
    {
        let line: i32 = match axis {
            Axis::Horizontal => start_position.row,
            Axis::Vertical => start_position.column,
        };
        let pos: i32 = match axis {
            Axis::Horizontal => start_position.column,
            Axis::Vertical => start_position.row,
        };
        let mut cur: i32 = pos;
        match direction {
            Direction::Negative => {
                while self.occupied_on_line(axis, line, cur - 1)
                    invariant
                        self.wf(),
                        0 <= cur <= pos,
                        self.spec_run_low(*axis, line as int, cur as int) == self.spec_run_low(
                            *axis,
                            line as int,
                            pos as int,
                        ),
                    decreases cur,
                {
                    cur = cur - 1;
                }
            },
            Direction::Positive => {
                while self.occupied_on_line(axis, line, cur + 1)
                    invariant
                        self.wf(),
                        pos <= cur,
                        cur < self.axis_dim(*axis),
                        self.spec_run_high(*axis, line as int, cur as int) == self.spec_run_high(
                            *axis,
                            line as int,
                            pos as int,
                        ),
                    decreases self.axis_dim(*axis) - cur,
                {
                    cur = cur + 1;
                }
            },
        }
        match axis {
            Axis::Horizontal => Coordinates { row: line, column: cur },
            Axis::Vertical => Coordinates { row: cur, column: line },
        }
    }

    /// The start of the word through `start_position` along `axis`.
    pub(crate) fn min_connected_position(
        &self,
        start_position: &Coordinates,
        axis: &Axis,
    ) -> (res: Coordinates)
        requires
            self.wf(),
            self.in_bounds(start_position.row as int, start_position.column as int),
        ensures
            ({
                let line = match *axis {
                    Axis::Horizontal => start_position.row as int,
                    Axis::Vertical => start_position.column as int,
                };
                let pos = match *axis {
                    Axis::Horizontal => start_position.column as int,
                    Axis::Vertical => start_position.row as int,
                };
                let goal = self.spec_run_low(*axis, line, pos);
                res.row as int == cell_row(*axis, line, goal) && res.column as int == cell_col(
                    *axis,
                    line,
                    goal,
                )
            }),
    {
        self.extremal_connected_position(start_position, axis, Direction::Negative)
    }

    /// The end of the word through `start_position` along `axis`.
    pub(crate) fn max_connected_position(
        &self,
        start_position: &Coordinates,
        axis: &Axis,
    ) -> (res: Coordinates)
        requires
            self.wf(),
            self.in_bounds(start_position.row as int, start_position.column as int),
        ensures
            ({
                let line = match *axis {
                    Axis::Horizontal => start_position.row as int,
                    Axis::Vertical => start_position.column as int,
                };
                let pos = match *axis {
                    Axis::Horizontal => start_position.column as int,
                    Axis::Vertical => start_position.row as int,
                };
                let goal = self.spec_run_high(*axis, line, pos);
                res.row as int == cell_row(*axis, line, goal) && res.column as int == cell_col(
                    *axis,
                    line,
                    goal,
                )
            }),
    {
        self.extremal_connected_position(start_position, axis, Direction::Positive)
    }

    /// Sums the cell scores and multiplies the cell word-multiplier
    /// factors over positions `lo..=hi` of the line.
    fn walk_span(
        &self,
        played_tiles: &Vec<PlayedTile>,
        axis: &Axis,
        line: i32,
        lo: i32,
        hi: i32,
    ) -> (res: (i32, i32))
        requires
            self.wf(),
            self.spec_all_available(played_tiles@),
            placement_values_bounded(played_tiles@),
            played_tiles@.len() <= BINGO_TILES_LENGTH as int,
            0 <= lo <= hi,
            hi < MAX_BOARD_DIMENSION,
        ensures
            res.0 as int == self.spec_span_score(
                played_tiles@,
                *axis,
                line as int,
                lo as int,
                (hi - lo + 1) as nat,
            ),
            res.1 as int == self.spec_span_multiplier(
                played_tiles@,
                *axis,
                line as int,
                lo as int,
                (hi - lo + 1) as nat,
            ),
            0 <= res.0 as int <= (hi - lo + 1) * 3000,
            0 <= res.1 as int <= 2187,
    {
        let ghost p = played_tiles@;
        let mut total: i32 = 0;
        let mut word_multiplier: i32 = 1;
        let mut q: i32 = lo;
        proof {
            assert(pow3(spec_placed_count(p, *axis, line as int, lo as int, 0)) == 1);
        }
        while q <= hi
            invariant
                self.wf(),
                p == played_tiles@,
                self.spec_all_available(p),
                placement_values_bounded(p),
                p.len() <= BINGO_TILES_LENGTH as int,
                0 <= lo <= q,
                q <= hi + 1,
                hi < MAX_BOARD_DIMENSION,
                total as int == self.spec_span_score(
                    p,
                    *axis,
                    line as int,
                    lo as int,
                    (q - lo) as nat,
                ),
                0 <= total as int <= (q - lo) * 3000,
                word_multiplier as int == self.spec_span_multiplier(
                    p,
                    *axis,
                    line as int,
                    lo as int,
                    (q - lo) as nat,
                ),
                0 <= word_multiplier as int <= pow3(
                    spec_placed_count(p, *axis, line as int, lo as int, (q - lo) as nat),
                ),
                word_multiplier as int <= 2187,
            decreases hi + 1 - q,
        {
            let ghost n = (q - lo) as nat;
            let rr: i32 = match axis {
                Axis::Horizontal => line,
                Axis::Vertical => q,
            };
            let cc: i32 = match axis {
                Axis::Horizontal => q,
                Axis::Vertical => line,
            };
            proof {
                assert(rr as int == cell_row(*axis, line as int, q as int));
                assert(cc as int == cell_col(*axis, line as int, q as int));
                self.lemma_span_score_snoc(p, *axis, line as int, lo as int, n);
                self.lemma_span_multiplier_snoc(p, *axis, line as int, lo as int, n);
                self.lemma_placed_count_snoc(p, *axis, line as int, lo as int, n);
                lemma_placed_count_le_len(p, *axis, line as int, lo as int, n);
                lemma_placed_count_le_len(p, *axis, line as int, lo as int, (n + 1) as nat);
                lemma_pow3_mono(
                    spec_placed_count(p, *axis, line as int, lo as int, n),
                    spec_placed_count(p, *axis, line as int, lo as int, (n + 1) as nat),
                );
                lemma_pow3_mono(
                    spec_placed_count(p, *axis, line as int, lo as int, (n + 1) as nat),
                    BINGO_TILES_LENGTH as int,
                );
                assert(pow3(BINGO_TILES_LENGTH as int) == 2187) by {
                    reveal_with_fuel(pow3, 8);
                }
            }
            if self.occupied_check(rr, cc) {
                let t = self.cell(rr, cc).unwrap();
                total = total + t.value;
            } else {
                match find_played_tile(played_tiles, rr, cc) {
                    Some(t) => {
                        proof {
                            lemma_placed_tile_at_props(p, rr as int, cc as int);
                        }
                        let m = self.modifier(rr, cc);
                        proof {
                            lemma_mul_bounds(
                                t.value as int,
                                m.letter_multiplier as int,
                                MAX_TILE_VALUE as int,
                                MAX_MULTIPLIER as int,
                            );
                            lemma_mul_bounds(
                                word_multiplier as int,
                                m.word_multiplier as int,
                                2187,
                                MAX_MULTIPLIER as int,
                            );
                            lemma_pow3_mono(
                                spec_placed_count(p, *axis, line as int, lo as int, (n + 1) as nat),
                                BINGO_TILES_LENGTH as int,
                            );
                            assert(pow3(BINGO_TILES_LENGTH as int) == 2187) by {
                    reveal_with_fuel(pow3, 8);
                }
                            lemma_mul_bounds(
                                word_multiplier as int,
                                m.word_multiplier as int,
                                pow3(spec_placed_count(p, *axis, line as int, lo as int, n)),
                                MAX_MULTIPLIER as int,
                            );
                        }
                        total = total + t.value * m.letter_multiplier;
                        word_multiplier = word_multiplier * m.word_multiplier;
                        proof {
                            assert(word_multiplier as int <= pow3(
                                spec_placed_count(p, *axis, line as int, lo as int, n),
                            ) * 3);
                        }
                    },
                    None => {},
                }
            }
            q = q + 1;
        }
        (total, word_multiplier)
    }

    /// What a successful free-cell walk guarantees: the found cell is the
    /// first empty one, on the same line, at or after the start, with only
    /// occupied cells before it.
    pub open spec fn first_free_props(self, r: int, c: int, axis: Axis) -> bool {
        match self.spec_first_free(r, c, axis) {
            Some(pos) => match axis {
                Axis::Horizontal => {
                    &&& pos.0 == r
                    &&& pos.1 >= c
                    &&& self.empty_at(pos.0, pos.1)
                    &&& (forall|x: int| c <= x < pos.1 ==> #[trigger] self.occupied_at(r, x))
                },
                Axis::Vertical => {
                    &&& pos.1 == c
                    &&& pos.0 >= r
                    &&& self.empty_at(pos.0, pos.1)
                    &&& (forall|x: int| r <= x < pos.0 ==> #[trigger] self.occupied_at(x, c))
                },
            },
            None => true,
        }
    }

    pub proof fn lemma_first_free_props(self, r: int, c: int, axis: Axis)
        ensures
            self.first_free_props(r, c, axis),
        decreases self.spec_rows() + self.spec_columns() - r - c,
    {
        if self.in_bounds(r, c) && self.spec_tile_at(r, c) is Some {
            match axis {
                Axis::Horizontal => {
                    self.lemma_first_free_props(r, c + 1, axis);
                },
                Axis::Vertical => {
                    self.lemma_first_free_props(r + 1, c, axis);
                },
            }
        }
    }

    /// What a successful tile walk guarantees: one placed tile per rack
    /// tile in order, on empty cells of one line, strictly advancing, with
    /// fixed tiles filling every skipped position.
    pub open spec fn place_tiles_props(self, r: int, c: int, tiles: Seq<Tile>, axis: Axis) -> bool {
        match self.spec_place_tiles(r, c, tiles, axis) {
            Some(s) => {
                &&& s.len() == tiles.len()
                &&& (forall|i: int| 0 <= i < s.len() ==> (#[trigger] s[i]).tile == tiles[i])
                &&& (forall|i: int|
                    0 <= i < s.len() ==> self.empty_at(
                        (#[trigger] s[i]).coordinates.row as int,
                        s[i].coordinates.column as int,
                    ))
                &&& (match axis {
                    Axis::Horizontal => {
                        &&& (forall|i: int|
                            0 <= i < s.len() ==> (#[trigger] s[i]).coordinates.row as int == r)
                        &&& (s.len() > 0 ==> s[0].coordinates.column as int >= c)
                        &&& (forall|i: int|
                            0 <= i && i + 1 < s.len() ==> (#[trigger] s[i]).coordinates.column
                                < s[i + 1].coordinates.column)
                        &&& (s.len() > 0 ==> forall|x: int|
                            c <= x < s[0].coordinates.column as int
                                ==> #[trigger] self.occupied_at(r, x))
                        &&& (forall|i: int, x: int|
                            #![trigger s[i], self.occupied_at(r, x)]
                            0 <= i && i + 1 < s.len() && (s[i].coordinates.column as int) < x && x
                                < s[i + 1].coordinates.column as int ==> self.occupied_at(r, x))
                    },
                    Axis::Vertical => {
                        &&& (forall|i: int|
                            0 <= i < s.len() ==> (#[trigger] s[i]).coordinates.column as int == c)
                        &&& (s.len() > 0 ==> s[0].coordinates.row as int >= r)
                        &&& (forall|i: int|
                            0 <= i && i + 1 < s.len() ==> (#[trigger] s[i]).coordinates.row < s[i
                                + 1].coordinates.row)
                        &&& (s.len() > 0 ==> forall|x: int|
                            r <= x < s[0].coordinates.row as int
                                ==> #[trigger] self.occupied_at(x, c))
                        &&& (forall|i: int, x: int|
                            #![trigger s[i], self.occupied_at(x, c)]
                            0 <= i && i + 1 < s.len() && (s[i].coordinates.row as int) < x && x
                                < s[i + 1].coordinates.row as int ==> self.occupied_at(x, c))
                    },
                })
            },
            None => true,
        }
    }

    pub proof fn lemma_place_tiles_props(self, r: int, c: int, tiles: Seq<Tile>, axis: Axis)
        ensures
            self.place_tiles_props(r, c, tiles, axis),
        decreases tiles.len(),
    {
        if tiles.len() > 0 {
            self.lemma_first_free_props(r, c, axis);
            match self.spec_first_free(r, c, axis) {
                None => {},
                Some(pos) => {
                    let next_r = pos.0 + axis.spec_row_delta();
                    let next_c = pos.1 + axis.spec_column_delta();
                    self.lemma_place_tiles_props(next_r, next_c, tiles.drop_first(), axis);
                    match self.spec_place_tiles(next_r, next_c, tiles.drop_first(), axis) {
                        None => {},
                        Some(rest) => {
                            let placed = PlayedTile {
                                coordinates: Coordinates { row: pos.0 as i32, column: pos.1 as i32 },
                                tile: tiles[0],
                            };
                            let s = self.spec_place_tiles(r, c, tiles, axis).unwrap();
                            assert(s == seq![placed] + rest);
                            assert(s.len() == rest.len() + 1);
                            assert(s[0] == placed);
                            assert forall|i: int| 1 <= i < s.len() implies s[i] == rest[i - 1] by {
                                assert(s[i] == (seq![placed] + rest)[i]);
                            }
                            assert forall|i: int| 0 <= i < s.len() implies (#[trigger] s[i]).tile
                                == tiles[i] by {
                                if i > 0 {
                                    assert(tiles.drop_first()[i - 1] == tiles[i]);
                                }
                            }
                        },
                    }
                },
            }
        }
    }

    /// Where tiles land depends only on how many there are: walking two
    /// tile lists of equal length from one start yields the same cells,
    /// and fails in the same way.
    pub proof fn lemma_place_tiles_same_cells(
        self,
        r: int,
        c: int,
        t1: Seq<Tile>,
        t2: Seq<Tile>,
        axis: Axis,
    )
        requires
            t1.len() == t2.len(),
        ensures
            self.spec_place_tiles(r, c, t1, axis) is Some <==> self.spec_place_tiles(
                r,
                c,
                t2,
                axis,
            ) is Some,
            match (self.spec_place_tiles(r, c, t1, axis), self.spec_place_tiles(r, c, t2, axis)) {
                (Some(s1), Some(s2)) => s1.len() == s2.len() && (forall|i: int|
                    0 <= i < s1.len() ==> (#[trigger] s1[i]).coordinates == s2[i].coordinates),
                _ => true,
            },
        decreases t1.len(),
    {
        if t1.len() > 0 {
            match self.spec_first_free(r, c, axis) {
                None => {},
                Some(pos) => {
                    self.lemma_place_tiles_same_cells(
                        pos.0 + axis.spec_row_delta(),
                        pos.1 + axis.spec_column_delta(),
                        t1.drop_first(),
                        t2.drop_first(),
                        axis,
                    );
                    match (
                        self.spec_place_tiles(
                            pos.0 + axis.spec_row_delta(),
                            pos.1 + axis.spec_column_delta(),
                            t1.drop_first(),
                            axis,
                        ),
                        self.spec_place_tiles(
                            pos.0 + axis.spec_row_delta(),
                            pos.1 + axis.spec_column_delta(),
                            t2.drop_first(),
                            axis,
                        ),
                    ) {
                        (Some(r1), Some(r2)) => {
                            let s1 = self.spec_place_tiles(r, c, t1, axis).unwrap();
                            let s2 = self.spec_place_tiles(r, c, t2, axis).unwrap();
                            assert forall|i: int| 0 <= i < s1.len() implies (#[trigger] s1[i]).coordinates
                                == s2[i].coordinates by {
                                if i > 0 {
                                    assert(s1[i] == r1[i - 1]);
                                    assert(s2[i] == r2[i - 1]);
                                }
                            }
                        },
                        _ => {},
                    }
                },
            }
        }
    }

    /// Connectivity and centre coverage depend only on the cells covered.
    pub proof fn lemma_same_coords_connectivity(self, p1: Seq<PlayedTile>, p2: Seq<PlayedTile>)
        requires
            p1.len() == p2.len(),
            forall|i: int| 0 <= i < p1.len() ==> (#[trigger] p1[i]).coordinates == p2[i].coordinates,
        ensures
            self.spec_connected(p1) == self.spec_connected(p2),
            self.spec_through_center(p1) == self.spec_through_center(p2),
    {
        if self.spec_connected(p1) {
            let i = choose|i: int|
                0 <= i < p1.len() && self.spec_neighbor_occupied(
                    #[trigger] p1[i].coordinates.row as int,
                    p1[i].coordinates.column as int,
                );
            assert(self.spec_neighbor_occupied(
                p2[i].coordinates.row as int,
                p2[i].coordinates.column as int,
            ));
        }
        if self.spec_connected(p2) {
            let i = choose|i: int|
                0 <= i < p2.len() && self.spec_neighbor_occupied(
                    #[trigger] p2[i].coordinates.row as int,
                    p2[i].coordinates.column as int,
                );
            assert(self.spec_neighbor_occupied(
                p1[i].coordinates.row as int,
                p1[i].coordinates.column as int,
            ));
        }
        if self.spec_through_center(p1) {
            let i = choose|i: int|
                0 <= i < p1.len() && (#[trigger] p1[i].coordinates.row as int,
                p1[i].coordinates.column as int) == self.spec_center();
            assert((p2[i].coordinates.row as int, p2[i].coordinates.column as int)
                == self.spec_center());
        }
        if self.spec_through_center(p2) {
            let i = choose|i: int|
                0 <= i < p2.len() && (#[trigger] p2[i].coordinates.row as int,
                p2[i].coordinates.column as int) == self.spec_center();
            assert((p1[i].coordinates.row as int, p1[i].coordinates.column as int)
                == self.spec_center());
        }
    }

    /// A placement built by a successful walk satisfies the scorer's
    /// geometry, and carries the walked tiles in order.
    pub proof fn lemma_built_placement_geometry(self, start: Coordinates, tiles: Seq<Tile>, axis: Axis)
        requires
            tiles.len() >= 1,
        ensures
            match self.spec_build_placement(start, tiles, axis) {
                Ok(s) => {
                    &&& self.placement_geometry(s)
                    &&& s.len() == tiles.len()
                    &&& (forall|i: int| 0 <= i < s.len() ==> (#[trigger] s[i]).tile == tiles[i])
                },
                Err(_) => true,
            },
    {
        if self.spec_build_placement(start, tiles, axis) is Ok {
            let r = start.row as int;
            let c = start.column as int;
            self.lemma_place_tiles_props(r, c, tiles, axis);
            let s = self.spec_place_tiles(r, c, tiles, axis).unwrap();
            let pa = spec_axis_of(s);
            assert forall|i: int, j: int| 0 <= i <= j < s.len() implies axis_pos(s[i], axis) + (j
                - i) <= axis_pos(s[j], axis) by {
                lemma_adjacent_pos_gap(s, axis, i, j);
            }
            if s.len() == 1 {
                assert(axis_pos(s[0], pa) == spec_min_pos(s, pa));
                assert(axis_pos(s[0], pa) == spec_max_pos(s, pa));
                assert forall|q: int|
                    spec_min_pos(s, pa) <= q <= spec_max_pos(s, pa) && !placement_has_pos(
                        s,
                        pa,
                        q,
                    ) implies self.occupied_at(
                    cell_row(pa, line_of(s[0], pa), q),
                    cell_col(pa, line_of(s[0], pa), q),
                ) by {
                    assert(axis_pos(s[0], pa) == q);
                    assert(placement_has_pos(s, pa, q));
                }
            } else {
                assert(pa == axis);
                lemma_sorted_min_max(s, axis);
                let line = line_of(s[0], axis);
                assert forall|q: int|
                    spec_min_pos(s, axis) <= q <= spec_max_pos(s, axis) && !placement_has_pos(
                        s,
                        axis,
                        q,
                    ) implies self.occupied_at(
                    cell_row(axis, line, q),
                    cell_col(axis, line, q),
                ) by {
                    lemma_sorted_between(s, axis, q);
                    let i = choose|i: int|
                        0 <= i && i + 1 < s.len() && axis_pos(#[trigger] s[i], axis) < q && q
                            < axis_pos(s[i + 1], axis);
                    match axis {
                        Axis::Horizontal => {
                            assert(self.occupied_at(r, q));
                        },
                        Axis::Vertical => {
                            assert(self.occupied_at(q, c));
                        },
                    }
                }
            }
        }
    }

    proof fn lemma_contains_placed_at_some(self, p: Seq<PlayedTile>, e: PlayedTile)
        requires
            p.contains(e),
        ensures
            spec_placed_tile_at(p, e.coordinates.row as int, e.coordinates.column as int) is Some,
        decreases p.len(),
    {
        if p.len() > 0 {
            if !(p[0].coordinates.row as int == e.coordinates.row as int
                && p[0].coordinates.column as int == e.coordinates.column as int) {
                let w = choose|w: int| 0 <= w < p.len() && p[w] == e;
                assert(p.drop_first()[w - 1] == e);
                assert(p.drop_first().contains(e));
                self.lemma_contains_placed_at_some(p.drop_first(), e);
            }
        }
    }

    proof fn lemma_span_agree(
        self,
        p1: Seq<PlayedTile>,
        p2: Seq<PlayedTile>,
        axis: Axis,
        line: int,
        lo: int,
        n: nat,
    )
        requires
            forall|r: int, c: int|
                #[trigger] spec_placed_tile_at(p2, r, c) == spec_placed_tile_at(p1, r, c),
        ensures
            self.spec_span_score(p2, axis, line, lo, n) == self.spec_span_score(
                p1,
                axis,
                line,
                lo,
                n,
            ),
            self.spec_span_multiplier(p2, axis, line, lo, n) == self.spec_span_multiplier(
                p1,
                axis,
                line,
                lo,
                n,
            ),
            self.spec_word_span(p2, axis, line, lo, n) == self.spec_word_span(
                p1,
                axis,
                line,
                lo,
                n,
            ),
        decreases n,
    {
        if n > 0 {
            self.lemma_span_agree(p1, p2, axis, line, lo + 1, (n - 1) as nat);
            assert(self.spec_word_span(p2, axis, line, lo, n) =~= self.spec_word_span(
                p1,
                axis,
                line,
                lo,
                n,
            ));
        }
    }

    proof fn lemma_secondary_total_agree_prefix(
        self,
        p: Seq<PlayedTile>,
        q: Seq<PlayedTile>,
        axis: Axis,
        n: nat,
    )
        requires
            n <= p.len(),
            n <= q.len(),
            forall|m: int| 0 <= m < n ==> p[m] == q[m],
        ensures
            self.spec_secondary_total(p, axis, n) == self.spec_secondary_total(q, axis, n),
        decreases n,
    {
        if n > 0 {
            self.lemma_secondary_total_agree_prefix(p, q, axis, (n - 1) as nat);
        }
    }

    proof fn lemma_secondary_total_remove(self, p: Seq<PlayedTile>, axis: Axis, j: int)
        requires
            0 <= j < p.len(),
        ensures
            self.spec_secondary_total(p, axis, p.len()) == self.spec_secondary_total(
                p.remove(j),
                axis,
                (p.len() - 1) as nat,
            ) + self.spec_secondary_score(p[j], axis),
        decreases p.len(),
    {
        let q = p.remove(j);
        if j == p.len() - 1 {
            assert(q =~= p.drop_last());
            self.lemma_secondary_total_agree_prefix(p, q, axis, (p.len() - 1) as nat);
        } else {
            let pdl = p.drop_last();
            self.lemma_secondary_total_remove(pdl, axis, j);
            self.lemma_secondary_total_agree_prefix(p, pdl, axis, (p.len() - 1) as nat);
            assert(pdl.remove(j) =~= q.drop_last());
            assert(q[q.len() - 1] == p.last());
            self.lemma_secondary_total_agree_prefix(q, q.drop_last(), axis, (q.len() - 1) as nat);
        }
    }

    proof fn lemma_secondary_total_permutation(
        self,
        p1: Seq<PlayedTile>,
        p2: Seq<PlayedTile>,
        axis: Axis,
    )
        requires
            p2.to_multiset() == p1.to_multiset(),
        ensures
            self.spec_secondary_total(p1, axis, p1.len()) == self.spec_secondary_total(
                p2,
                axis,
                p2.len(),
            ),
        decreases p2.len(),
    {
        p1.to_multiset_ensures();
        p2.to_multiset_ensures();
        if p2.len() > 0 {
            let e = p2.last();
            assert(p2.contains(e));
            assert(p1.to_multiset().count(e) > 0);
            assert(p1.contains(e));
            let a = choose|a: int| 0 <= a < p1.len() && p1[a] == e;
            self.lemma_secondary_total_remove(p1, axis, a);
            self.lemma_secondary_total_agree_prefix(
                p2,
                p2.drop_last(),
                axis,
                (p2.len() - 1) as nat,
            );
            assert(p1.remove(a).to_multiset() =~= p1.to_multiset().remove(e));
            assert(p2.remove(p2.len() - 1) =~= p2.drop_last());
            assert(p2.drop_last().to_multiset() =~= p2.to_multiset().remove(e));
            self.lemma_secondary_total_permutation(p1.remove(a), p2.drop_last(), axis);
        }
    }

    /// Reordering invariance: the score of a placement depends only on the
    /// final board geometry, never on the order its tiles were generated
    /// in. Any rearrangement of a legal placement's tiles scores the same,
    /// and forms the same primary word.
    pub proof fn lemma_score_reorder_invariant(self, p1: Seq<PlayedTile>, p2: Seq<PlayedTile>)
        requires
            self.placement_geometry(p1),
            p2.to_multiset() == p1.to_multiset(),
        ensures
            self.spec_score(p2) == self.spec_score(p1),
            self.spec_primary_word(p2) == self.spec_primary_word(p1),
            self.placement_geometry(p2),
        decreases 0int,
    {
        p1.to_multiset_ensures();
        p2.to_multiset_ensures();
        assert(p1.len() == p2.len());
        let axis = spec_axis_of(p1);
        let line = line_of(p1[0], axis);
        assert forall|i: int| 0 <= i < p2.len() implies p1.contains(#[trigger] p2[i]) by {
            assert(p2.contains(p2[i]));
            assert(p2.to_multiset().count(p2[i]) > 0);
            assert(p1.to_multiset().count(p2[i]) > 0);
        }
        assert forall|i: int| 0 <= i < p1.len() implies p2.contains(#[trigger] p1[i]) by {
            assert(p1.contains(p1[i]));
            assert(p1.to_multiset().count(p1[i]) > 0);
            assert(p2.to_multiset().count(p1[i]) > 0);
        }
        // The placements hold no repeated tile entry.
        assert forall|i: int, j: int| 0 <= i < j < p1.len() implies p1[i] != p1[j] by {
            assert(axis_pos(p1[i], axis) != axis_pos(p1[j], axis));
        }
        p1.lemma_multiset_has_no_duplicates();
        p2.lemma_multiset_has_no_duplicates_conv();
        // Both placements read the same axis.
        assert(spec_axis_of(p2) == axis) by {
            if p1.len() >= 2 {
                let w0 = choose|w: int| 0 <= w < p1.len() && p1[w] == p2[0];
                let w1 = choose|w: int| 0 <= w < p1.len() && p1[w] == p2[1];
                assert(p2[0] != p2[1]);
                assert(w0 != w1);
                match axis {
                    Axis::Horizontal => {
                        assert(line_of(p1[w0], axis) == line && line_of(p1[w1], axis) == line);
                    },
                    Axis::Vertical => {
                        assert(axis_pos(p1[w0], axis) != axis_pos(p1[w1], axis));
                    },
                }
            }
        }
        // Alignment, distinctness and cell availability carry over.
        assert(line_of(p2[0], axis) == line) by {
            let w = choose|w: int| 0 <= w < p1.len() && p1[w] == p2[0];
        }
        assert forall|i: int| 0 <= i < p2.len() implies line_of(#[trigger] p2[i], axis) == line_of(
            p2[0],
            axis,
        ) by {
            let w = choose|w: int| 0 <= w < p1.len() && p1[w] == p2[i];
        }
        assert forall|i: int, j: int| 0 <= i < j < p2.len() implies axis_pos(
            #[trigger] p2[i],
            axis,
        ) != axis_pos(#[trigger] p2[j], axis) by {
            if axis_pos(p2[i], axis) == axis_pos(p2[j], axis) {
                let a = choose|w: int| 0 <= w < p1.len() && p1[w] == p2[i];
                let b = choose|w: int| 0 <= w < p1.len() && p1[w] == p2[j];
                assert(p2[i] != p2[j]);
                assert(a != b);
            }
        }
        assert forall|i: int| 0 <= i < p2.len() implies self.empty_at(
            (#[trigger] p2[i]).coordinates.row as int,
            p2[i].coordinates.column as int,
        ) by {
            let w = choose|w: int| 0 <= w < p1.len() && p1[w] == p2[i];
        }
        // The extremes agree.
        lemma_min_pos_properties(p1, axis);
        lemma_min_pos_properties(p2, axis);
        lemma_max_pos_properties(p1, axis);
        lemma_max_pos_properties(p2, axis);
        assert(spec_min_pos(p2, axis) == spec_min_pos(p1, axis)) by {
            let w1 = choose|i: int|
                0 <= i < p1.len() && axis_pos(#[trigger] p1[i], axis) == spec_min_pos(p1, axis);
            let w2 = choose|i: int|
                0 <= i < p2.len() && axis_pos(#[trigger] p2[i], axis) == spec_min_pos(p2, axis);
            let a1 = choose|w: int| 0 <= w < p2.len() && p2[w] == p1[w1];
            let a2 = choose|w: int| 0 <= w < p1.len() && p1[w] == p2[w2];
        }
        assert(spec_max_pos(p2, axis) == spec_max_pos(p1, axis)) by {
            let w1 = choose|i: int|
                0 <= i < p1.len() && axis_pos(#[trigger] p1[i], axis) == spec_max_pos(p1, axis);
            let w2 = choose|i: int|
                0 <= i < p2.len() && axis_pos(#[trigger] p2[i], axis) == spec_max_pos(p2, axis);
            let a1 = choose|w: int| 0 <= w < p2.len() && p2[w] == p1[w1];
            let a2 = choose|w: int| 0 <= w < p1.len() && p1[w] == p2[w2];
        }
        // Both place the same tile at every cell.
        assert forall|r: int, c: int|
            #[trigger] spec_placed_tile_at(p2, r, c) == spec_placed_tile_at(p1, r, c) by {
            if spec_placed_tile_at(p1, r, c) is Some {
                lemma_placed_tile_at_props(p1, r, c);
                let w1 = choose|w: int|
                    0 <= w < p1.len() && (#[trigger] p1[w]).coordinates.row as int == r
                        && p1[w].coordinates.column as int == c && Some(p1[w].tile)
                        == spec_placed_tile_at(p1, r, c);
                self.lemma_contains_placed_at_some(p2, p1[w1]);
                lemma_placed_tile_at_props(p2, r, c);
                let w2 = choose|w: int|
                    0 <= w < p2.len() && (#[trigger] p2[w]).coordinates.row as int == r
                        && p2[w].coordinates.column as int == c && Some(p2[w].tile)
                        == spec_placed_tile_at(p2, r, c);
                let b1 = choose|w: int| 0 <= w < p1.len() && p1[w] == p2[w2];
                assert(axis_pos(p1[b1], axis) == axis_pos(p1[w1], axis));
                assert(line_of(p1[b1], axis) == line_of(p1[w1], axis));
                assert(b1 == w1);
            } else {
                if spec_placed_tile_at(p2, r, c) is Some {
                    lemma_placed_tile_at_props(p2, r, c);
                    let w2 = choose|w: int|
                        0 <= w < p2.len() && (#[trigger] p2[w]).coordinates.row as int == r
                            && p2[w].coordinates.column as int == c && Some(p2[w].tile)
                            == spec_placed_tile_at(p2, r, c);
                    self.lemma_contains_placed_at_some(p1, p2[w2]);
                }
            }
        }
        // Span-filling carries over, so the geometry holds of the
        // rearrangement too.
        assert forall|q: int|
            spec_min_pos(p2, axis) <= q <= spec_max_pos(p2, axis) && !placement_has_pos(
                p2,
                axis,
                q,
            ) implies self.occupied_at(cell_row(axis, line, q), cell_col(axis, line, q)) by {
            if placement_has_pos(p1, axis, q) {
                let w = choose|i: int| 0 <= i < p1.len() && axis_pos(#[trigger] p1[i], axis) == q;
                let b = choose|i: int| 0 <= i < p2.len() && p2[i] == p1[w];
                assert(axis_pos(p2[b], axis) == q);
                assert(placement_has_pos(p2, axis, q));
            }
        }
        assert(self.placement_geometry(p2));
        // Primary scores and words agree.
        let lo = self.spec_run_low(axis, line, spec_min_pos(p1, axis));
        let hi = self.spec_run_high(axis, line, spec_max_pos(p1, axis));
        self.lemma_span_agree(p1, p2, axis, line, lo, (hi - lo + 1) as nat);
        assert(self.spec_primary_score(p2) == self.spec_primary_score(p1));
        assert(self.spec_primary_word(p2) == self.spec_primary_word(p1));
        // Secondary totals agree as sums over the same tile multiset.
        if p1.len() > 1 {
            self.lemma_secondary_total_permutation(p1, p2, axis.spec_complement());
        }
    }

    /// The letter shown at a cell: a fixed tile's letter, or the placed
    /// tile's. The placeholder stands for cells that show no letter; the
    /// word-building contracts keep it out of every reachable span.
    pub open spec fn spec_cell_letter(self, p: Seq<PlayedTile>, r: int, c: int) -> char {
        if self.occupied_at(r, c) {
            match self.spec_tile_at(r, c) {
                Some(t) => match t.letter {
                    Some(l) => l,
                    None => '?',
                },
                None => '?',
            }
        } else {
            match spec_placed_tile_at(p, r, c) {
                Some(t) => match t.letter {
                    Some(l) => l,
                    None => '?',
                },
                None => '?',
            }
        }
    }

    /// The letters of `n` cells from position `lo` on the line.
    pub open spec fn spec_word_span(
        self,
        p: Seq<PlayedTile>,
        axis: Axis,
        line: int,
        lo: int,
        n: nat,
    ) -> Seq<char>
        decreases n,
    {
        if n == 0 {
            Seq::empty()
        } else {
            seq![self.spec_cell_letter(p, cell_row(axis, line, lo), cell_col(axis, line, lo))]
                + self.spec_word_span(p, axis, line, lo + 1, (n - 1) as nat)
        }
    }

    proof fn lemma_word_span_snoc(self, p: Seq<PlayedTile>, axis: Axis, line: int, lo: int, n: nat)
        ensures
            self.spec_word_span(p, axis, line, lo, (n + 1) as nat) =~= self.spec_word_span(
                p,
                axis,
                line,
                lo,
                n,
            ).push(
                self.spec_cell_letter(p, cell_row(axis, line, lo + n), cell_col(axis, line, lo + n)),
            ),
        decreases n,
    {
        if n == 0 {
            assert(self.spec_word_span(p, axis, line, lo + 1, 0) =~= Seq::<char>::empty());
        } else {
            self.lemma_word_span_snoc(p, axis, line, lo + 1, (n - 1) as nat);
        }
    }

    /// The full word along the placement's primary axis.
    pub open spec fn spec_primary_word(self, p: Seq<PlayedTile>) -> Seq<char> {
        let axis = spec_axis_of(p);
        let line = line_of(p[0], axis);
        let lo = self.spec_run_low(axis, line, spec_min_pos(p, axis));
        let hi = self.spec_run_high(axis, line, spec_max_pos(p, axis));
        self.spec_word_span(p, axis, line, lo, (hi - lo + 1) as nat)
    }

    /// The cross words formed by the first `n` placed tiles along the
    /// secondary axis, in placement order; a tile whose span is a single
    /// cell forms none.
    pub open spec fn spec_secondary_words(self, p: Seq<PlayedTile>, axis: Axis, n: nat) -> Seq<
        Seq<char>,
    >
        decreases n,
    {
        if n == 0 {
            Seq::empty()
        } else {
            let prev = self.spec_secondary_words(p, axis, (n - 1) as nat);
            let t = p[n - 1];
            let line = line_of(t, axis);
            let pos = axis_pos(t, axis);
            let lo = self.spec_run_low(axis, line, pos);
            let hi = self.spec_run_high(axis, line, pos);
            if lo != hi {
                prev.push(self.spec_word_span(p, axis, line, lo, (hi - lo + 1) as nat))
            } else {
                prev
            }
        }
    }

    /// All words a placement forms: the primary word first, then one cross
    /// word per tile that forms one.
    pub open spec fn spec_words(self, p: Seq<PlayedTile>) -> Seq<Seq<char>> {
        seq![self.spec_primary_word(p)] + self.spec_secondary_words(
            p,
            spec_axis_of(p).spec_complement(),
            p.len(),
        )
    }

    /// Collects the letters of positions `lo..=hi` of the line.
    fn collect_word(
        &self,
        played_tiles: &Vec<PlayedTile>,
        axis: &Axis,
        line: i32,
        lo: i32,
        hi: i32,
    ) -> (w: Vec<char>)
        requires
            self.wf(),
            lo <= hi,
            hi < MAX_BOARD_DIMENSION,
        ensures
            w@ == self.spec_word_span(
                played_tiles@,
                *axis,
                line as int,
                lo as int,
                (hi - lo + 1) as nat,
            ),
    {
        let ghost p = played_tiles@;
        let mut word: Vec<char> = Vec::new();
        let mut q: i32 = lo;
        while q <= hi
            invariant
                self.wf(),
                p == played_tiles@,
                lo <= q,
                q <= hi + 1,
                hi < MAX_BOARD_DIMENSION,
                word@ == self.spec_word_span(p, *axis, line as int, lo as int, (q - lo) as nat),
            decreases hi + 1 - q,
        {
            let rr: i32 = match axis {
                Axis::Horizontal => line,
                Axis::Vertical => q,
            };
            let cc: i32 = match axis {
                Axis::Horizontal => q,
                Axis::Vertical => line,
            };
            proof {
                assert(rr as int == cell_row(*axis, line as int, q as int));
                assert(cc as int == cell_col(*axis, line as int, q as int));
                self.lemma_word_span_snoc(p, *axis, line as int, lo as int, (q - lo) as nat);
            }
            let letter: char = if self.occupied_check(rr, cc) {
                match self.cell(rr, cc) {
                    Some(t) => match t.letter {
                        Some(l) => l,
                        None => '?',
                    },
                    None => '?',
                }
            } else {
                match find_played_tile(played_tiles, rr, cc) {
                    Some(t) => match t.letter {
                        Some(l) => l,
                        None => '?',
                    },
                    None => '?',
                }
            };
            word.push(letter);
            q = q + 1;
        }
        word
    }

    /// The cell shows a resolved letter: a lettered fixed tile, or a
    /// lettered tile of the placement.
    pub open spec fn spec_cell_lettered(self, p: Seq<PlayedTile>, r: int, c: int) -> bool {
        if self.occupied_at(r, c) {
            match self.spec_tile_at(r, c) {
                Some(t) => t.letter is Some,
                None => false,
            }
        } else {
            match spec_placed_tile_at(p, r, c) {
                Some(t) => t.letter is Some,
                None => false,
            }
        }
    }

    /// Reads the word covering the cells from `start` to `end` inclusive,
    /// horizontally when the two share a row and vertically otherwise:
    /// each cell shows its fixed tile's letter, or the letter of the
    /// placement's tile there. A span cell with no letter to show would be
    /// a programming-invariant failure, so the contract excludes it.
    pub fn build_word(
        &self,
        start: Coordinates,
        end: Coordinates,
        played_tiles: &Vec<PlayedTile>,
    ) -> (r: String)
        requires
            self.wf(),
            self.in_bounds(start.row as int, start.column as int),
            self.in_bounds(end.row as int, end.column as int),
            start.row == end.row || start.column == end.column,
            start.row <= end.row && start.column <= end.column,
            ({
                let axis = if start.row == end.row {
                    Axis::Horizontal
                } else {
                    Axis::Vertical
                };
                let line = match axis {
                    Axis::Horizontal => start.row as int,
                    Axis::Vertical => start.column as int,
                };
                let lo = match axis {
                    Axis::Horizontal => start.column as int,
                    Axis::Vertical => start.row as int,
                };
                let hi = match axis {
                    Axis::Horizontal => end.column as int,
                    Axis::Vertical => end.row as int,
                };
                forall|q: int|
                    lo <= q <= hi ==> self.spec_cell_lettered(
                        played_tiles@,
                        #[trigger] cell_row(axis, line, q),
                        cell_col(axis, line, q),
                    )
            }),
        ensures
            ({
                let axis = if start.row == end.row {
                    Axis::Horizontal
                } else {
                    Axis::Vertical
                };
                let line = match axis {
                    Axis::Horizontal => start.row as int,
                    Axis::Vertical => start.column as int,
                };
                let lo = match axis {
                    Axis::Horizontal => start.column as int,
                    Axis::Vertical => start.row as int,
                };
                let hi = match axis {
                    Axis::Horizontal => end.column as int,
                    Axis::Vertical => end.row as int,
                };
                r@ == self.spec_word_span(played_tiles@, axis, line, lo, (hi - lo + 1) as nat)
            }),
    {
        let axis = if start.row == end.row {
            Axis::Horizontal
        } else {
            Axis::Vertical
        };
        let line: i32 = match axis {
            Axis::Horizontal => start.row,
            Axis::Vertical => start.column,
        };
        let lo: i32 = match axis {
            Axis::Horizontal => start.column,
            Axis::Vertical => start.row,
        };
        let hi: i32 = match axis {
            Axis::Horizontal => end.column,
            Axis::Vertical => end.row,
        };
        let letters = self.collect_word(played_tiles, &axis, line, lo, hi);
        crate::text::chars_to_string(&letters)
    }

    /// All words the placement forms, as strings: the word along the
    /// primary axis first, then each tile's cross word along the secondary
    /// axis, in placement order.
    pub fn words_created(&self, played_tiles: &Vec<PlayedTile>) -> (r: Vec<String>)
        requires
            self.wf(),
            self.placement_geometry(played_tiles@),
        ensures
            r@.len() == self.spec_words(played_tiles@).len(),
            forall|i: int|
                0 <= i < r@.len() ==> (#[trigger] r@[i])@ == self.spec_words(played_tiles@)[i],
    {
        let ghost p = played_tiles@;
        let primary = self.primary_axis(played_tiles);
        let secondary = primary.complement();
        let line: i32 = line_of_exec(&played_tiles[0], &primary);
        let extent = placement_extent(played_tiles, &primary);
        proof {
            lemma_min_pos_properties(p, primary);
            lemma_max_pos_properties(p, primary);
            let wmin = choose|i: int|
                0 <= i < p.len() && axis_pos(#[trigger] p[i], primary) == spec_min_pos(p, primary);
            assert(self.empty_at(
                p[wmin].coordinates.row as int,
                p[wmin].coordinates.column as int,
            ));
            let wmax = choose|i: int|
                0 <= i < p.len() && axis_pos(#[trigger] p[i], primary) == spec_max_pos(p, primary);
            assert(self.empty_at(
                p[wmax].coordinates.row as int,
                p[wmax].coordinates.column as int,
            ));
            self.lemma_run_low_bounds(primary, line as int, extent.0 as int);
            self.lemma_run_high_bounds(primary, line as int, extent.1 as int);
        }
        let start_min = match primary {
            Axis::Horizontal => Coordinates { row: line, column: extent.0 },
            Axis::Vertical => Coordinates { row: extent.0, column: line },
        };
        let start_max = match primary {
            Axis::Horizontal => Coordinates { row: line, column: extent.1 },
            Axis::Vertical => Coordinates { row: extent.1, column: line },
        };
        let lo_cell = self.min_connected_position(&start_min, &primary);
        let hi_cell = self.max_connected_position(&start_max, &primary);
        let lo: i32 = match primary {
            Axis::Horizontal => lo_cell.column,
            Axis::Vertical => lo_cell.row,
        };
        let hi: i32 = match primary {
            Axis::Horizontal => hi_cell.column,
            Axis::Vertical => hi_cell.row,
        };
        let mut words: Vec<String> = Vec::new();
        let primary_chars = self.collect_word(played_tiles, &primary, line, lo, hi);
        words.push(crate::text::chars_to_string(&primary_chars));
        proof {
            assert(words@.len() == 1);
            assert(words@[0]@ == self.spec_primary_word(p));
            assert(self.spec_secondary_words(p, secondary, 0) =~= Seq::<Seq<char>>::empty());
        }
        let mut i: usize = 0;
        while i < played_tiles.len()
            invariant
                self.wf(),
                p == played_tiles@,
                self.placement_geometry(p),
                secondary == spec_axis_of(p).spec_complement(),
                i <= p.len(),
                words@.len() == 1 + self.spec_secondary_words(p, secondary, i as nat).len(),
                words@[0]@ == self.spec_primary_word(p),
                forall|k: int|
                    1 <= k < words@.len() ==> (#[trigger] words@[k])@ == self.spec_secondary_words(
                        p,
                        secondary,
                        i as nat,
                    )[k - 1],
            decreases p.len() - i,
        {
            let t = &played_tiles[i];
            let ghost line_g = line_of(p[i as int], secondary);
            let ghost pos_g = axis_pos(p[i as int], secondary);
            proof {
                assert(self.empty_at(t.coordinates.row as int, t.coordinates.column as int));
                self.lemma_run_low_bounds(secondary, line_g, pos_g);
                self.lemma_run_high_bounds(secondary, line_g, pos_g);
            }
            let sec_line: i32 = line_of_exec(t, &secondary);
            let lo_c = self.min_connected_position(&t.coordinates, &secondary);
            let hi_c = self.max_connected_position(&t.coordinates, &secondary);
            let sec_lo: i32 = match secondary {
                Axis::Horizontal => lo_c.column,
                Axis::Vertical => lo_c.row,
            };
            let sec_hi: i32 = match secondary {
                Axis::Horizontal => hi_c.column,
                Axis::Vertical => hi_c.row,
            };
            let ghost words_before = words@;
            if sec_lo != sec_hi {
                let cross = self.collect_word(played_tiles, &secondary, sec_line, sec_lo, sec_hi);
                words.push(crate::text::chars_to_string(&cross));
                proof {
                    assert(words@ == words_before.push(words@.last()));
                }
            }
            i = i + 1;
            proof {
                let cur = self.spec_secondary_words(p, secondary, i as nat);
                let prev = self.spec_secondary_words(p, secondary, (i - 1) as nat);
                assert forall|k: int| 1 <= k < words@.len() implies (#[trigger] words@[k])@ == cur[k
                    - 1] by {
                    if k < words_before.len() {
                        assert(words@[k] == words_before[k]);
                    }
                }
            }
        }
        words
    }

    /// Positions strictly increase along the placement's axis.
    pub open spec fn placement_increasing(self, p: Seq<PlayedTile>) -> bool {
        forall|i: int|
            0 <= i && i + 1 < p.len() ==> axis_pos(#[trigger] p[i], spec_axis_of(p)) < axis_pos(
                p[i + 1],
                spec_axis_of(p),
            )
    }

    /// Every position strictly between two consecutive placed tiles is
    /// covered by a fixed tile.
    pub open spec fn spec_gaps_filled(self, p: Seq<PlayedTile>) -> bool {
        let axis = spec_axis_of(p);
        let line = line_of(p[0], axis);
        p.len() <= 1 || (forall|i: int, q: int|
            #![trigger axis_pos(p[i], axis), cell_row(axis, line, q)]
            0 <= i && i + 1 < p.len() && axis_pos(p[i], axis) < q && q < axis_pos(p[i + 1], axis)
                ==> self.occupied_at(cell_row(axis, line, q), cell_col(axis, line, q)))
    }

    /// True iff any gaps between consecutive placed tiles are filled by
    /// fixed board tiles.
    #[verifier::rlimit(60)]
    pub fn is_continuous(&self, played_tiles: &Vec<PlayedTile>) -> (res: bool)
        requires
            self.wf(),
            played_tiles@.len() >= 2 ==> {
                &&& placement_aligned(played_tiles@, spec_axis_of(played_tiles@))
                &&& self.placement_increasing(played_tiles@)
                &&& self.spec_all_available(played_tiles@)
            },
        ensures
            res == self.spec_gaps_filled(played_tiles@),
    {
        let ghost p = played_tiles@;
        if played_tiles.len() <= 1 {
            return true;
        }
        let axis = self.primary_axis(played_tiles);
        let line: i32 = line_of_exec(&played_tiles[0], &axis);
        let mut i: usize = 0;
        while i < played_tiles.len() - 1
            invariant
                self.wf(),
                p == played_tiles@,
                p.len() >= 2,
                placement_aligned(p, spec_axis_of(p)),
                self.placement_increasing(p),
                self.spec_all_available(p),
                axis == spec_axis_of(p),
                line as int == line_of(p[0], axis),
                i + 1 <= p.len(),
                forall|m: int, q: int|
                    #![trigger axis_pos(p[m], axis), cell_row(axis, line as int, q)]
                    0 <= m && m + 1 <= i as int && axis_pos(p[m], axis) < q && q < axis_pos(
                        p[m + 1],
                        axis,
                    ) ==> self.occupied_at(
                        cell_row(axis, line as int, q),
                        cell_col(axis, line as int, q),
                    ),
            decreases p.len() - i,
        {
            let here = axis_pos_exec(&played_tiles[i], &axis);
            let next = axis_pos_exec(&played_tiles[i + 1], &axis);
            let mut q: i32 = here + 1;
            while q < next
                invariant
                    self.wf(),
                    p == played_tiles@,
                    axis == spec_axis_of(p),
                    line as int == line_of(p[0], axis),
                    i + 1 < p.len(),
                    here as int == axis_pos(p[i as int], axis),
                    next as int == axis_pos(p[i as int + 1], axis),
                    here < q,
                    q <= next,
                    forall|x: int|
                        (here as int) < x && x < q as int ==> self.occupied_at(
                            cell_row(axis, line as int, x),
                            cell_col(axis, line as int, x),
                        ),
                decreases next - q,
            {
                if !self.occupied_on_line(&axis, line, q) {
                    return false;
                }
                q = q + 1;
            }
            i = i + 1;
        }
        true
    }

    /// The axis the placement runs along; a single tile resolves to
    /// vertical (see `spec_axis_of`).
    pub(crate) fn primary_axis(&self, played_tiles: &Vec<PlayedTile>) -> (r: Axis)
        requires
            played_tiles@.len() >= 1,
        ensures
            r == spec_axis_of(played_tiles@),
    {
        if played_tiles.len() >= 2 && played_tiles[0].coordinates.row
            == played_tiles[1].coordinates.row {
            Axis::Horizontal
        } else {
            Axis::Vertical
        }
    }

    /// The points one placed tile earns along the secondary axis `axis`:
    /// its cross word's cell scores times its own cell's word multiplier,
    /// or 0 when no cross word forms.
    pub(crate) fn score_secondary_axis(&self, played_tile: &PlayedTile, axis: &Axis) -> (r: i32)
        requires
            self.wf(),
            self.empty_at(played_tile.coordinates.row as int, played_tile.coordinates.column as int),
            0 <= played_tile.tile.value <= MAX_TILE_VALUE,
        ensures
            r as int == self.spec_secondary_score(*played_tile, *axis),
            0 <= r as int <= 2025000,
    {
        let ghost line_g = line_of(*played_tile, *axis);
        let ghost pos_g = axis_pos(*played_tile, *axis);
        let line: i32 = line_of_exec(played_tile, axis);
        let pos: i32 = axis_pos_exec(played_tile, axis);
        proof {
            self.lemma_run_low_bounds(*axis, line_g, pos_g);
            self.lemma_run_high_bounds(*axis, line_g, pos_g);
        }
        let lo_cell = self.min_connected_position(&played_tile.coordinates, axis);
        let hi_cell = self.max_connected_position(&played_tile.coordinates, axis);
        let lo: i32 = match axis {
            Axis::Horizontal => lo_cell.column,
            Axis::Vertical => lo_cell.row,
        };
        let hi: i32 = match axis {
            Axis::Horizontal => hi_cell.column,
            Axis::Vertical => hi_cell.row,
        };
        if lo == hi {
            return 0;
        }
        let m = self.modifier(played_tile.coordinates.row, played_tile.coordinates.column);
        let mut single: Vec<PlayedTile> = Vec::new();
        single.push(*played_tile);
        proof {
            assert(single@ =~= seq![*played_tile]);
            assert(self.spec_all_available(single@));
            assert(placement_values_bounded(single@));
        }
        let walk = self.walk_span(&single, axis, line, lo, hi);
        proof {
            lemma_mul_bounds(walk.0 as int, m.word_multiplier as int, 675000, MAX_MULTIPLIER as int);
        }
        walk.0 * m.word_multiplier
    }

    /// The points of the whole primary word of the placement.
    pub(crate) fn score_primary_axis(&self, played_tiles: &Vec<PlayedTile>, axis: Axis) -> (r: i32)
        requires
            self.wf(),
            self.placement_scorable(played_tiles@),
            axis == spec_axis_of(played_tiles@),
        ensures
            r as int == self.spec_primary_score(played_tiles@),
            0 <= r as int <= 1476225000,
    {
        let ghost p = played_tiles@;
        let line: i32 = line_of_exec(&played_tiles[0], &axis);
        let extent = placement_extent(played_tiles, &axis);
        let min_pos: i32 = extent.0;
        let max_pos: i32 = extent.1;
        proof {
            lemma_min_pos_properties(p, axis);
            lemma_max_pos_properties(p, axis);
            let wmin = choose|i: int|
                0 <= i < p.len() && axis_pos(#[trigger] p[i], axis) == spec_min_pos(p, axis);
            assert(self.empty_at(
                p[wmin].coordinates.row as int,
                p[wmin].coordinates.column as int,
            ));
            let wmax = choose|i: int|
                0 <= i < p.len() && axis_pos(#[trigger] p[i], axis) == spec_max_pos(p, axis);
            assert(self.empty_at(
                p[wmax].coordinates.row as int,
                p[wmax].coordinates.column as int,
            ));
            self.lemma_run_low_bounds(axis, line as int, min_pos as int);
            self.lemma_run_high_bounds(axis, line as int, max_pos as int);
        }
        let start_min = match axis {
            Axis::Horizontal => Coordinates { row: line, column: min_pos },
            Axis::Vertical => Coordinates { row: min_pos, column: line },
        };
        let start_max = match axis {
            Axis::Horizontal => Coordinates { row: line, column: max_pos },
            Axis::Vertical => Coordinates { row: max_pos, column: line },
        };
        let lo_cell = self.min_connected_position(&start_min, &axis);
        let hi_cell = self.max_connected_position(&start_max, &axis);
        let lo: i32 = match axis {
            Axis::Horizontal => lo_cell.column,
            Axis::Vertical => lo_cell.row,
        };
        let hi: i32 = match axis {
            Axis::Horizontal => hi_cell.column,
            Axis::Vertical => hi_cell.row,
        };
        let walk = self.walk_span(played_tiles, &axis, line, lo, hi);
        proof {
            lemma_mul_bounds(walk.0 as int, walk.1 as int, 675000, 2187);
        }
        walk.0 * walk.1
    }

    /// The full score of the placement: secondary cross words (for more
    /// than one tile), the primary word, and the whole-rack bonus.
    pub fn score(&self, played_tiles: &Vec<PlayedTile>) -> (r: i32)
        requires
            self.wf(),
            self.placement_scorable(played_tiles@),
        ensures
            r as int == self.spec_score(played_tiles@),
    {
        let ghost p = played_tiles@;
        let primary = self.primary_axis(played_tiles);
        let secondary = primary.complement();
        let mut total: i32 = 0;
        if played_tiles.len() > 1 {
            let mut i: usize = 0;
            while i < played_tiles.len()
                invariant
                    self.wf(),
                    p == played_tiles@,
                    self.placement_scorable(p),
                    secondary == spec_axis_of(p).spec_complement(),
                    i <= p.len(),
                    total as int == self.spec_secondary_total(p, secondary, i as nat),
                    0 <= total as int <= i * 2025000,
                decreases p.len() - i,
            {
                let tile_score = self.score_secondary_axis(&played_tiles[i], &secondary);
                total = total + tile_score;
                i = i + 1;
            }
        }
        let primary_score = self.score_primary_axis(played_tiles, primary);
        total = total + primary_score;
        if played_tiles.len() == BINGO_TILES_LENGTH as usize {
            total = total + BINGO_BONUS;
        }
        total
    }
}

} // verus!
