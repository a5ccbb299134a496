//! The candidate generator: exhaustive enumeration of start cells, axes,
//! tile subsets, tile orderings and blank-letter resolutions, filtered by
//! the board's legality rules and the dictionary.
//!
//! Every candidate that comes back is sound: its placement is a legal
//! geometry on empty cells, touches an existing tile or covers the centre,
//! creates only dictionary words, carries its exact score, and uses each
//! tile of a resolved rack at most once. The enumeration is also complete:
//! for every resolution of the rack the generator tries, every placement
//! that passes all filters is in the result.

use vstd::prelude::*;
use crate::board::BINGO_TILES_LENGTH;
use crate::board::GameBoard;
use crate::dictionary::Dictionary;
use crate::rack::Rack;
use crate::rack::rack_values_bounded;
use crate::rack::spec_blanks_before;
use crate::text::spec_upper;
use crate::tiles::Axis;
use crate::tiles::Coordinates;
use crate::tiles::PlayedTile;
use crate::tiles::Tile;
use crate::utilities::combination_tail_maxed;
use crate::utilities::is_combination;
use crate::utilities::is_index_permutation;
use crate::utilities::lemma_combination_first;
use crate::utilities::lemma_combination_last;
use crate::utilities::lemma_combination_successor_tight;
use crate::utilities::lemma_index_permutation_values;
use crate::utilities::lemma_lex_trichotomy;
use crate::utilities::lemma_permutation_first;
use crate::utilities::lemma_permutation_last;
use crate::utilities::lemma_permutation_successor_tight;
use crate::utilities::lex_lt;
use crate::utilities::non_increasing_from;
use crate::utilities::spec_identity_indices;
use crate::utilities::lemma_rank_bounds;
use crate::utilities::lemma_rank_increases;
use crate::utilities::next_combination;
use crate::utilities::next_permutation;
use crate::utilities::seq_rank;
use vstd::arithmetic::power::pow;

verus! {

/// What the generator promises of each returned candidate: a legal,
/// connected-or-centred placement of 1 to 7 resolved tiles whose words all
/// sit in the dictionary (compared upper-cased), with its exact score.
pub open spec fn candidate_ok(
    board: GameBoard,
    dictionary: Dictionary,
    candidate: (Vec<PlayedTile>, i32),
) -> bool {
    let p = candidate.0@;
    &&& board.placement_geometry(p)
    &&& 1 <= p.len() <= BINGO_TILES_LENGTH as int
    &&& board.spec_connected(p) || board.spec_through_center(p)
    &&& (forall|w: int|
        0 <= w < board.spec_words(p).len() ==> dictionary.spec_contains(
            spec_upper(#[trigger] board.spec_words(p)[w]),
        ))
    &&& candidate.1 as int == board.spec_score(p)
}

pub open spec fn all_candidates_ok(
    board: GameBoard,
    dictionary: Dictionary,
    candidates: Seq<(Vec<PlayedTile>, i32)>,
) -> bool {
    forall|k: int|
        0 <= k < candidates.len() ==> candidate_ok(board, dictionary, #[trigger] candidates[k])
}

/// Every rack tile has a resolved letter.
pub open spec fn rack_resolved(tiles: Seq<Tile>) -> bool {
    forall|i: int| 0 <= i < tiles.len() ==> (#[trigger] tiles[i]).letter is Some
}

/// A rack the search can run on: resolved, value-bounded and within the
/// engine's rack capacity.
pub open spec fn search_rack_ok(tiles: Seq<Tile>) -> bool {
    &&& rack_values_bounded(tiles)
    &&& rack_resolved(tiles)
    &&& tiles.len() <= BINGO_TILES_LENGTH as int
}

/// The tiles a subset-and-ordering pair picks out of a resolved rack:
/// position `m` of the play takes the rack tile at the `ordering[m]`-th
/// entry of the chosen combination.
pub open spec fn spec_selected_tiles(
    tiles: Seq<Tile>,
    selection: Seq<usize>,
    ordering: Seq<usize>,
) -> Seq<Tile> {
    Seq::new(ordering.len(), |m: int| tiles[selection[ordering[m] as int] as int])
}

/// The pairs the enumeration ranges over: a non-empty combination of rack
/// positions, and an arrangement of that many places.
pub open spec fn spec_pair_domain(selection: Seq<usize>, ordering: Seq<usize>, rack_len: int) -> bool {
    &&& is_combination(selection, rack_len)
    &&& 1 <= selection.len() <= rack_len
    &&& is_index_permutation(ordering, selection.len() as int)
}

/// The pair's placement passes every filter: it builds, touches a fixed
/// tile or covers the centre, and creates only dictionary words.
pub open spec fn spec_play_accepted(
    board: GameBoard,
    dictionary: Dictionary,
    tiles: Seq<Tile>,
    start: Coordinates,
    axis: Axis,
    selection: Seq<usize>,
    ordering: Seq<usize>,
) -> bool {
    match board.spec_build_placement(start, spec_selected_tiles(tiles, selection, ordering), axis) {
        Ok(p) => {
            &&& (board.spec_connected(p) || board.spec_through_center(p))
            &&& (forall|w: int|
                0 <= w < board.spec_words(p).len() ==> dictionary.spec_contains(
                    spec_upper(#[trigger] board.spec_words(p)[w]),
                ))
        },
        Err(_) => false,
    }
}

/// The candidate list carries the pair's placement with its exact score.
pub open spec fn spec_play_included(
    board: GameBoard,
    tiles: Seq<Tile>,
    start: Coordinates,
    axis: Axis,
    selection: Seq<usize>,
    ordering: Seq<usize>,
    candidates: Seq<(Vec<PlayedTile>, i32)>,
) -> bool {
    match board.spec_build_placement(start, spec_selected_tiles(tiles, selection, ordering), axis) {
        Ok(p) => exists|x: int|
            0 <= x < candidates.len() && (#[trigger] candidates[x]).0@ == p && candidates[x].1
                as int == board.spec_score(p),
        Err(_) => true,
    }
}

/// Completeness at one pair: if the pair is in the enumeration's range
/// and its placement passes every filter, the placement is in the list.
pub open spec fn search_complete_for(
    board: GameBoard,
    dictionary: Dictionary,
    tiles: Seq<Tile>,
    start: Coordinates,
    axis: Axis,
    selection: Seq<usize>,
    ordering: Seq<usize>,
    candidates: Seq<(Vec<PlayedTile>, i32)>,
) -> bool {
    (spec_pair_domain(selection, ordering, tiles.len() as int) && spec_play_accepted(
        board,
        dictionary,
        tiles,
        start,
        axis,
        selection,
        ordering,
    )) ==> spec_play_included(board, tiles, start, axis, selection, ordering, candidates)
}

/// A candidate's tiles are drawn from the given tiles, one per distinct
/// position: the placement uses each rack tile at most once.
pub open spec fn candidate_tiles_from(tiles: Seq<Tile>, candidate: (Vec<PlayedTile>, i32)) -> bool {
    &&& candidate.0@.len() <= tiles.len()
    &&& exists|idxs: Seq<int>|
        {
            &&& #[trigger] idxs.len() == candidate.0@.len()
            &&& (forall|m: int| 0 <= m < idxs.len() ==> 0 <= #[trigger] idxs[m] < tiles.len())
            &&& (forall|m1: int, m2: int| 0 <= m1 < m2 < idxs.len() ==> idxs[m1] != idxs[m2])
            &&& (forall|m: int|
                0 <= m < idxs.len() ==> candidate.0@[m].tile == tiles[#[trigger] idxs[m]])
        }
}

/// A capital letter, as blanks are resolved to.
pub open spec fn is_capital_letter(c: char) -> bool {
    65 <= c as u32 <= 90
}

/// The letter assignments the generator tries for `b` letterless tiles:
/// none for a resolved rack; all 26 letters for one blank; for two or
/// more, the rotating pre-fill on all but the last two and every letter
/// pair on those — the bounded heuristic, not an exhaustive search.
pub open spec fn spec_admissible_fills(b: int, fills: Seq<char>) -> bool {
    if b <= 0 {
        fills.len() == 0
    } else if b == 1 {
        fills.len() == 1 && is_capital_letter(fills[0])
    } else {
        &&& fills.len() == b
        &&& (forall|m: int| 0 <= m < b - 2 ==> #[trigger] fills[m] == spec_blank_filler(m))
        &&& is_capital_letter(fills[b - 2])
        &&& is_capital_letter(fills[b - 1])
    }
}

/// The candidate arises from some admissible resolution of the rack.
pub open spec fn candidate_from_resolution(
    rack_tiles: Seq<Tile>,
    candidate: (Vec<PlayedTile>, i32),
) -> bool {
    exists|fills: Seq<char>|
        spec_admissible_fills(spec_blanks_before(rack_tiles, rack_tiles.len() as int), fills)
            && candidate_tiles_from(
            crate::rack::spec_fill_blanks(rack_tiles, fills),
            candidate,
        )
}

/// Growing the list keeps every completeness fact.
proof fn lemma_complete_grows(
    board: GameBoard,
    dictionary: Dictionary,
    tiles: Seq<Tile>,
    before: Seq<(Vec<PlayedTile>, i32)>,
    after: Seq<(Vec<PlayedTile>, i32)>,
)
    requires
        before.len() <= after.len(),
        forall|x: int| 0 <= x < before.len() ==> after[x] == before[x],
    ensures
        forall|start: Coordinates, axis: Axis, selection: Seq<usize>, ordering: Seq<usize>|
            #![trigger search_complete_for(board, dictionary, tiles, start, axis, selection, ordering, after)]
            search_complete_for(board, dictionary, tiles, start, axis, selection, ordering, before)
                ==> search_complete_for(
                board,
                dictionary,
                tiles,
                start,
                axis,
                selection,
                ordering,
                after,
            ),
{
    assert forall|start: Coordinates, axis: Axis, selection: Seq<usize>, ordering: Seq<usize>|
        search_complete_for(
            board,
            dictionary,
            tiles,
            start,
            axis,
            selection,
            ordering,
            before,
        ) implies search_complete_for(
        board,
        dictionary,
        tiles,
        start,
        axis,
        selection,
        ordering,
        after,
    ) by {
        if spec_pair_domain(selection, ordering, tiles.len() as int) && spec_play_accepted(
            board,
            dictionary,
            tiles,
            start,
            axis,
            selection,
            ordering,
        ) {
            match board.spec_build_placement(
                start,
                spec_selected_tiles(tiles, selection, ordering),
                axis,
            ) {
                Ok(p) => {
                    let x = choose|x: int|
                        0 <= x < before.len() && (#[trigger] before[x]).0@ == p && before[x].1
                            as int == board.spec_score(p);
                    assert(after[x] == before[x]);
                },
                Err(_) => {},
            }
        }
    }
}

/// Appending a searched list keeps its completeness facts, shifted.
proof fn lemma_complete_appended(
    board: GameBoard,
    dictionary: Dictionary,
    tiles: Seq<Tile>,
    added: Seq<(Vec<PlayedTile>, i32)>,
    after: Seq<(Vec<PlayedTile>, i32)>,
    offset: int,
)
    requires
        0 <= offset,
        offset + added.len() <= after.len(),
        forall|x: int| 0 <= x < added.len() ==> after[offset + x] == added[x],
    ensures
        forall|start: Coordinates, axis: Axis, selection: Seq<usize>, ordering: Seq<usize>|
            #![trigger search_complete_for(board, dictionary, tiles, start, axis, selection, ordering, after)]
            search_complete_for(board, dictionary, tiles, start, axis, selection, ordering, added)
                ==> search_complete_for(
                board,
                dictionary,
                tiles,
                start,
                axis,
                selection,
                ordering,
                after,
            ),
{
    assert forall|start: Coordinates, axis: Axis, selection: Seq<usize>, ordering: Seq<usize>|
        search_complete_for(
            board,
            dictionary,
            tiles,
            start,
            axis,
            selection,
            ordering,
            added,
        ) implies search_complete_for(
        board,
        dictionary,
        tiles,
        start,
        axis,
        selection,
        ordering,
        after,
    ) by {
        if spec_pair_domain(selection, ordering, tiles.len() as int) && spec_play_accepted(
            board,
            dictionary,
            tiles,
            start,
            axis,
            selection,
            ordering,
        ) {
            match board.spec_build_placement(
                start,
                spec_selected_tiles(tiles, selection, ordering),
                axis,
            ) {
                Ok(p) => {
                    let x = choose|x: int|
                        0 <= x < added.len() && (#[trigger] added[x]).0@ == p && added[x].1
                            as int == board.spec_score(p);
                    assert(after[offset + x] == added[x]);
                },
                Err(_) => {},
            }
        }
    }
}

/// Characters with one code point are one character.
proof fn lemma_char_code(c1: char, c2: char)
    requires
        c1 as u32 == c2 as u32,
    ensures
        c1 == c2,
{
    vstd::utf8::char_u32_cast(c1, c1 as u32);
    vstd::utf8::char_u32_cast(c2, c1 as u32);
}

/// The rotating letters pre-filling blanks beyond the two that are tried
/// exhaustively: common letters, cycled by blank position.
pub open spec fn spec_blank_filler(index: int) -> char {
    if index % 5 == 0 {
        'S'
    } else if index % 5 == 1 {
        'E'
    } else if index % 5 == 2 {
        'R'
    } else if index % 5 == 3 {
        'A'
    } else {
        'T'
    }
}

fn blank_filler(index: usize) -> (r: char)
    ensures
        r == spec_blank_filler(index as int),
{
    match index % 5 {
        0 => 'S',
        1 => 'E',
        2 => 'R',
        3 => 'A',
        _ => 'T',
    }
}

fn identity_indices(len: usize) -> (r: Vec<usize>)
    ensures
        r@.len() == len as int,
        forall|m: int| 0 <= m < len as int ==> #[trigger] r@[m] == m,
{
    let mut indices: Vec<usize> = Vec::new();
    let mut i: usize = 0;
    while i < len
        invariant
            i <= len,
            indices@.len() == i as int,
            forall|m: int| 0 <= m < i as int ==> #[trigger] indices@[m] == m,
        decreases len - i,
    {
        indices.push(i);
        i = i + 1;
    }
    indices
}

/// No pair is accepted from a start cell off the grid or already holding
/// a fixed tile: the placement walk fails there before laying a tile.
proof fn lemma_cell_unusable(
    board: GameBoard,
    dictionary: Dictionary,
    tiles: Seq<Tile>,
    start: Coordinates,
)
    requires
        !board.in_bounds(start.row as int, start.column as int) || board.spec_tile_at(
            start.row as int,
            start.column as int,
        ) is Some,
    ensures
        forall|axis: Axis, sel: Seq<usize>, ord: Seq<usize>, cs: Seq<(Vec<PlayedTile>, i32)>|
            #![trigger search_complete_for(board, dictionary, tiles, start, axis, sel, ord, cs)]
            search_complete_for(board, dictionary, tiles, start, axis, sel, ord, cs),
{
    assert forall|axis: Axis, sel: Seq<usize>, ord: Seq<usize>, cs: Seq<(Vec<PlayedTile>, i32)>|
        search_complete_for(board, dictionary, tiles, start, axis, sel, ord, cs) by {
        if spec_pair_domain(sel, ord, tiles.len() as int) {
            let selected = spec_selected_tiles(tiles, sel, ord);
            assert(selected.len() == sel.len() >= 1);
            assert(board.spec_build_placement(start, selected, axis) is Err);
        }
    }
}

/// Exhaustive search over a fully resolved rack: every empty start cell,
/// both axes, every placement length, every tile subset and ordering.
/// Soundness and completeness both hold: each returned candidate passes
/// every filter with its exact score and rack provenance, and every
/// accepted pair's placement is returned.
fn candidate_plays_resolved(
    game_board: &GameBoard,
    rack: &Rack,
    dictionary: &Dictionary,
) -> (r: Vec<(Vec<PlayedTile>, i32)>)
    requires
        game_board.wf(),
        search_rack_ok(rack.tiles@),
    ensures
        all_candidates_ok(*game_board, *dictionary, r@),
        forall|x: int|
            0 <= x < r@.len() ==> candidate_tiles_from(rack.tiles@, #[trigger] r@[x]),
        forall|start: Coordinates, axis: Axis, selection: Seq<usize>, ordering: Seq<usize>|
            search_complete_for(
                *game_board,
                *dictionary,
                rack.tiles@,
                start,
                axis,
                selection,
                ordering,
                r@,
            ),
{
    let ghost rt = rack.tiles@;
    let rack_len: usize = rack.tiles.len();
    let mut candidates: Vec<(Vec<PlayedTile>, i32)> = Vec::new();
    let rows: i32 = game_board.get_rows();
    let columns: i32 = game_board.get_columns();
    let mut start_row: i32 = 0;
    while start_row < rows
        invariant
            game_board.wf(),
            search_rack_ok(rack.tiles@),
            rt == rack.tiles@,
            rack_len == rack.tiles@.len(),
            rows as int == game_board.spec_rows(),
            columns as int == game_board.spec_columns(),
            0 <= start_row,
            all_candidates_ok(*game_board, *dictionary, candidates@),
            forall|x: int|
                0 <= x < candidates@.len() ==> candidate_tiles_from(
                    rt,
                    #[trigger] candidates@[x],
                ),
            forall|start2: Coordinates, axis2: Axis, sel2: Seq<usize>, ord2: Seq<usize>|
                (start2.row as int) < start_row as int ==> search_complete_for(
                    *game_board,
                    *dictionary,
                    rt,
                    start2,
                    axis2,
                    sel2,
                    ord2,
                    candidates@,
                ),
        decreases rows - start_row,
    {
        let mut start_column: i32 = 0;
        while start_column < columns
            invariant
                game_board.wf(),
                search_rack_ok(rack.tiles@),
                rt == rack.tiles@,
                rack_len == rack.tiles@.len(),
                rows as int == game_board.spec_rows(),
                columns as int == game_board.spec_columns(),
                0 <= start_row < rows,
                0 <= start_column,
                all_candidates_ok(*game_board, *dictionary, candidates@),
                forall|x: int|
                    0 <= x < candidates@.len() ==> candidate_tiles_from(
                        rt,
                        #[trigger] candidates@[x],
                    ),
                forall|start2: Coordinates, axis2: Axis, sel2: Seq<usize>, ord2: Seq<usize>|
                    (start2.row as int) < start_row as int || ((start2.row as int)
                        == start_row as int && (start2.column as int) < start_column as int)
                        ==> search_complete_for(
                        *game_board,
                        *dictionary,
                        rt,
                        start2,
                        axis2,
                        sel2,
                        ord2,
                        candidates@,
                    ),
            decreases columns - start_column,
        {
            let start_coordinates = Coordinates::new(start_row, start_column);
            let start_occupied: bool = match game_board.is_occupied(&start_coordinates) {
                Ok(occupied) => occupied,
                Err(_) => true,
            };
            if !start_occupied {
                let axes = Axis::iterator();
                let mut axis_index: usize = 0;
                while axis_index < axes.len()
                    invariant
                        game_board.wf(),
                        search_rack_ok(rack.tiles@),
                        rt == rack.tiles@,
                        rack_len == rack.tiles@.len(),
                        axes@ =~= seq![Axis::Horizontal, Axis::Vertical],
                        axis_index <= axes@.len(),
                        all_candidates_ok(*game_board, *dictionary, candidates@),
                        forall|x: int|
                            0 <= x < candidates@.len() ==> candidate_tiles_from(
                                rt,
                                #[trigger] candidates@[x],
                            ),
                        forall|start2: Coordinates, axis2: Axis, sel2: Seq<usize>, ord2: Seq<usize>|
                            (start2.row as int) < start_row as int || ((start2.row as int)
                                == start_row as int && (start2.column as int)
                                < start_column as int) ==> search_complete_for(
                                *game_board,
                                *dictionary,
                                rt,
                                start2,
                                axis2,
                                sel2,
                                ord2,
                                candidates@,
                            ),
                        axis_index >= 1 ==> (forall|sel2: Seq<usize>, ord2: Seq<usize>|
                            search_complete_for(
                                *game_board,
                                *dictionary,
                                rt,
                                start_coordinates,
                                Axis::Horizontal,
                                sel2,
                                ord2,
                                candidates@,
                            )),
                        axis_index >= 2 ==> (forall|sel2: Seq<usize>, ord2: Seq<usize>|
                            search_complete_for(
                                *game_board,
                                *dictionary,
                                rt,
                                start_coordinates,
                                Axis::Vertical,
                                sel2,
                                ord2,
                                candidates@,
                            )),
                    decreases axes@.len() - axis_index,
                {
                    let axis: Axis = axes[axis_index];
                    let mut num_tiles: usize = 1;
                    while num_tiles <= rack_len
                        invariant
                            game_board.wf(),
                            search_rack_ok(rack.tiles@),
                            rt == rack.tiles@,
                            rack_len == rack.tiles@.len(),
                            1 <= num_tiles,
                            all_candidates_ok(*game_board, *dictionary, candidates@),
                            forall|x: int|
                                0 <= x < candidates@.len() ==> candidate_tiles_from(
                                    rt,
                                    #[trigger] candidates@[x],
                                ),
                            forall|start2: Coordinates, axis2: Axis, sel2: Seq<usize>, ord2: Seq<usize>|
                                (start2.row as int) < start_row as int || ((start2.row as int)
                                    == start_row as int && (start2.column as int)
                                    < start_column as int) ==> search_complete_for(
                                    *game_board,
                                    *dictionary,
                                    rt,
                                    start2,
                                    axis2,
                                    sel2,
                                    ord2,
                                    candidates@,
                                ),
                            axis_index < axes@.len(),
                            axes@ =~= seq![Axis::Horizontal, Axis::Vertical],
                            axis == axes@[axis_index as int],
                            axis_index >= 1 ==> (forall|sel2: Seq<usize>, ord2: Seq<usize>|
                                search_complete_for(
                                    *game_board,
                                    *dictionary,
                                    rt,
                                    start_coordinates,
                                    Axis::Horizontal,
                                    sel2,
                                    ord2,
                                    candidates@,
                                )),
                            forall|sel2: Seq<usize>, ord2: Seq<usize>|
                                1 <= sel2.len() < num_tiles as int ==> search_complete_for(
                                    *game_board,
                                    *dictionary,
                                    rt,
                                    start_coordinates,
                                    axis,
                                    sel2,
                                    ord2,
                                    candidates@,
                                ),
                        decreases rack_len + 1 - num_tiles,
                    {
                        let ghost before_shape = candidates@;
                        search_one_shape(
                            game_board,
                            rack,
                            dictionary,
                            &start_coordinates,
                            &axis,
                            num_tiles,
                            &mut candidates,
                        );
                        proof {
                            lemma_complete_grows(
                                *game_board,
                                *dictionary,
                                rt,
                                before_shape,
                                candidates@,
                            );
                        }
                        num_tiles = num_tiles + 1;
                    }
                    proof {
                        // Every length the domain admits was searched.
                        assert forall|sel2: Seq<usize>, ord2: Seq<usize>| search_complete_for(
                            *game_board,
                            *dictionary,
                            rt,
                            start_coordinates,
                            axis,
                            sel2,
                            ord2,
                            candidates@,
                        ) by {
                            if spec_pair_domain(sel2, ord2, rt.len() as int) {
                                assert(1 <= sel2.len() < num_tiles as int);
                            }
                        }
                    }
                    axis_index = axis_index + 1;
                }
                proof {
                    assert forall|axis2: Axis, sel2: Seq<usize>, ord2: Seq<usize>|
                        search_complete_for(
                        *game_board,
                        *dictionary,
                        rt,
                        start_coordinates,
                        axis2,
                        sel2,
                        ord2,
                        candidates@,
                    ) by {
                        match axis2 {
                            Axis::Horizontal => {},
                            Axis::Vertical => {},
                        }
                    }
                }
            } else {
                proof {
                    lemma_cell_unusable(*game_board, *dictionary, rt, start_coordinates);
                }
            }
            start_column = start_column + 1;
            proof {
                assert forall|start2: Coordinates, axis2: Axis, sel2: Seq<usize>, ord2: Seq<usize>|
                    (start2.row as int) < start_row as int || ((start2.row as int)
                        == start_row as int && (start2.column as int)
                        < start_column as int) implies search_complete_for(
                    *game_board,
                    *dictionary,
                    rt,
                    start2,
                    axis2,
                    sel2,
                    ord2,
                    candidates@,
                ) by {
                    if start2.row as int == start_row as int && start2.column as int
                        == start_column as int - 1 {
                        assert(start2 == start_coordinates);
                    }
                }
            }
        }
        start_row = start_row + 1;
        proof {
            assert forall|start2: Coordinates, axis2: Axis, sel2: Seq<usize>, ord2: Seq<usize>|
                (start2.row as int) < start_row as int implies search_complete_for(
                *game_board,
                *dictionary,
                rt,
                start2,
                axis2,
                sel2,
                ord2,
                candidates@,
            ) by {
                if start2.row as int == start_row as int - 1 && !(0 <= start2.column as int
                    && (start2.column as int) < columns as int) {
                    lemma_cell_unusable(*game_board, *dictionary, rt, start2);
                }
            }
        }
    }
    proof {
        assert forall|start2: Coordinates, axis2: Axis, sel2: Seq<usize>, ord2: Seq<usize>|
            search_complete_for(
            *game_board,
            *dictionary,
            rt,
            start2,
            axis2,
            sel2,
            ord2,
            candidates@,
        ) by {
            if !((start2.row as int) < start_row as int) {
                lemma_cell_unusable(*game_board, *dictionary, rt, start2);
            }
        }
    }
    candidates
}

fn count_letterless(rack: &Rack) -> (r: usize)
    ensures
        r as int == spec_blanks_before(rack.tiles@, rack.tiles@.len() as int),
{
    let ghost s = rack.tiles@;
    let mut count: usize = 0;
    let mut i: usize = 0;
    while i < rack.tiles.len()
        invariant
            s == rack.tiles@,
            i <= s.len(),
            count <= i,
            count as int == spec_blanks_before(s, i as int),
        decreases s.len() - i,
    {
        if rack.tiles[i].letter.is_none() {
            count = count + 1;
        }
        i = i + 1;
    }
    count
}

/// A rack produced by `fill_blanks` with the right number of letters is
/// fully resolved and keeps its values within capacity.
proof fn lemma_filled_rack_ok(before: Seq<Tile>, after: Seq<Tile>, fills: Seq<char>)
    requires
        rack_values_bounded(before),
        before.len() <= BINGO_TILES_LENGTH as int,
        after.len() == before.len(),
        forall|i: int| 0 <= i < after.len() ==> (#[trigger] after[i]).letter is Some,
        forall|i: int|
            0 <= i < before.len() ==> #[trigger] after[i] == (if before[i].letter is None {
                Tile {
                    letter: Some(fills[spec_blanks_before(before, i)]),
                    value: before[i].value,
                    is_blank: before[i].is_blank,
                }
            } else {
                before[i]
            }),
    ensures
        search_rack_ok(after),
{
    assert forall|i: int| 0 <= i < after.len() implies 0 <= (#[trigger] after[i]).value
        <= crate::tiles::MAX_TILE_VALUE by {
        assert(after[i].value == before[i].value);
    }
}

/// All legal plays of the board and rack, after resolving blanks. A rack
/// with one letterless tile is tried with every letter; with two or more,
/// the last two blanks are tried against all letter pairs while any
/// earlier ones take a fixed rotating set of common letters — a bounded
/// heuristic, not an exhaustive search over blanks; with several blanks
/// the true optimum may be missed. Each candidate returned is sound (see
/// `candidate_ok`) and drawn from an admissible resolution of the rack,
/// and for every admissible resolution the placement enumeration is
/// exhaustive (see `search_complete_for`).
pub fn candidate_plays(
    game_board: &GameBoard,
    rack: &Rack,
    dictionary: &Dictionary,
) -> (r: Vec<(Vec<PlayedTile>, i32)>)
    requires
        game_board.wf(),
        rack_values_bounded(rack.tiles@),
        rack.tiles@.len() <= BINGO_TILES_LENGTH as int,
    ensures
        all_candidates_ok(*game_board, *dictionary, r@),
        forall|x: int|
            0 <= x < r@.len() ==> candidate_from_resolution(rack.tiles@, #[trigger] r@[x]),
        forall|fills: Seq<char>, start: Coordinates, axis: Axis, sel: Seq<usize>, ord: Seq<usize>|
            spec_admissible_fills(
                spec_blanks_before(rack.tiles@, rack.tiles@.len() as int),
                fills,
            ) ==> search_complete_for(
                *game_board,
                *dictionary,
                crate::rack::spec_fill_blanks(rack.tiles@, fills),
                start,
                axis,
                sel,
                ord,
                r@,
            ),
{
    let ghost rt = rack.tiles@;
    let ghost blanks = spec_blanks_before(rt, rt.len() as int);
    let letterless_count = count_letterless(rack);
    if letterless_count == 0 {
        proof {
            crate::rack::lemma_blanks_zero(rt);
            assert forall|fills: Seq<char>|
                spec_admissible_fills(blanks, fills) implies crate::rack::spec_fill_blanks(
                rt,
                fills,
            ) == rt by {
                assert(crate::rack::spec_fill_blanks(rt, fills) =~= rt);
            }
        }
        let found = candidate_plays_resolved(game_board, rack, dictionary);
        proof {
            assert forall|x: int| 0 <= x < found@.len() implies candidate_from_resolution(
                rt,
                #[trigger] found@[x],
            ) by {
                let empty_fills = Seq::<char>::empty();
                assert(spec_admissible_fills(blanks, empty_fills));
                assert(crate::rack::spec_fill_blanks(rt, empty_fills) == rt);
                assert(candidate_tiles_from(rt, found@[x]));
            }
        }
        return found;
    }
    let mut candidates: Vec<(Vec<PlayedTile>, i32)> = Vec::new();
    if letterless_count == 1 {
        let mut letter_byte: u8 = 65;
        while letter_byte <= 90
            invariant
                game_board.wf(),
                rack_values_bounded(rack.tiles@),
                rack.tiles@.len() <= BINGO_TILES_LENGTH as int,
                rt == rack.tiles@,
                blanks == spec_blanks_before(rt, rt.len() as int),
                blanks == 1,
                65 <= letter_byte <= 91,
                all_candidates_ok(*game_board, *dictionary, candidates@),
                forall|x: int|
                    0 <= x < candidates@.len() ==> candidate_from_resolution(
                        rt,
                        #[trigger] candidates@[x],
                    ),
                forall|fills: Seq<char>, start: Coordinates, axis: Axis, sel: Seq<usize>, ord: Seq<usize>|
                    spec_admissible_fills(blanks, fills) && (fills[0] as u32) < letter_byte as u32
                        ==> search_complete_for(
                        *game_board,
                        *dictionary,
                        crate::rack::spec_fill_blanks(rt, fills),
                        start,
                        axis,
                        sel,
                        ord,
                        candidates@,
                    ),
            decreases 91 - letter_byte,
        {
            let mut fills: Vec<char> = Vec::new();
            fills.push(letter_byte as char);
            let filled = rack.fill_blanks(&fills);
            proof {
                lemma_filled_rack_ok(rt, filled.tiles@, fills@);
            }
            let mut sub = candidate_plays_resolved(game_board, &filled, dictionary);
            let ghost before = candidates@;
            let ghost added = sub@;
            candidates.append(&mut sub);
            proof {
                assert forall|k: int| 0 <= k < candidates@.len() implies candidate_ok(
                    *game_board,
                    *dictionary,
                    #[trigger] candidates@[k],
                ) by {
                    if k < before.len() {
                        assert(candidates@[k] == before[k]);
                    } else {
                        assert(candidates@[k] == added[k - before.len()]);
                    }
                }
                assert(is_capital_letter(fills@[0]));
                assert(spec_admissible_fills(blanks, fills@));
                assert forall|x: int| 0 <= x < candidates@.len() implies candidate_from_resolution(
                    rt,
                    #[trigger] candidates@[x],
                ) by {
                    if x < before.len() {
                        assert(candidates@[x] == before[x]);
                    } else {
                        assert(candidates@[x] == added[x - before.len()]);
                        assert(candidate_tiles_from(filled.tiles@, candidates@[x]));
                        assert(crate::rack::spec_fill_blanks(rt, fills@) == filled.tiles@);
                    }
                }
                assert forall|fills2: Seq<char>, start: Coordinates, axis: Axis, sel: Seq<usize>, ord: Seq<usize>|
                    spec_admissible_fills(blanks, fills2) && (fills2[0] as u32) < letter_byte
                        as u32 + 1 implies search_complete_for(
                    *game_board,
                    *dictionary,
                    crate::rack::spec_fill_blanks(rt, fills2),
                    start,
                    axis,
                    sel,
                    ord,
                    candidates@,
                ) by {
                    if (fills2[0] as u32) < letter_byte as u32 {
                        lemma_complete_grows(
                            *game_board,
                            *dictionary,
                            crate::rack::spec_fill_blanks(rt, fills2),
                            before,
                            candidates@,
                        );
                    } else {
                        assert((letter_byte as char) as u32 == letter_byte as u32);
                        lemma_char_code(fills2[0], fills@[0]);
                        assert(fills2 =~= fills@);
                        lemma_complete_appended(
                            *game_board,
                            *dictionary,
                            filled.tiles@,
                            added,
                            candidates@,
                            before.len() as int,
                        );
                        assert(crate::rack::spec_fill_blanks(rt, fills2) == filled.tiles@);
                    }
                }
            }
            letter_byte = letter_byte + 1;
        }
        proof {
            assert forall|fills: Seq<char>, start: Coordinates, axis: Axis, sel: Seq<usize>, ord: Seq<usize>|
                spec_admissible_fills(blanks, fills) implies search_complete_for(
                *game_board,
                *dictionary,
                crate::rack::spec_fill_blanks(rt, fills),
                start,
                axis,
                sel,
                ord,
                candidates@,
            ) by {
                assert((fills[0] as u32) < 91);
            }
        }
        return candidates;
    }
    let mut fills: Vec<char> = Vec::new();
    let mut fill_i: usize = 0;
    while fill_i < letterless_count - 2
        invariant
            letterless_count >= 2,
            fill_i <= letterless_count - 2,
            fills@.len() == fill_i as int,
            forall|m: int| 0 <= m < fill_i as int ==> #[trigger] fills@[m] == spec_blank_filler(m),
        decreases letterless_count - 2 - fill_i,
    {
        fills.push(blank_filler(fill_i));
        fill_i = fill_i + 1;
    }
    fills.push('A');
    fills.push('A');
    let mut first_byte: u8 = 65;
    while first_byte <= 90
        invariant
            game_board.wf(),
            rack_values_bounded(rack.tiles@),
            rack.tiles@.len() <= BINGO_TILES_LENGTH as int,
            rt == rack.tiles@,
            blanks == spec_blanks_before(rt, rt.len() as int),
            blanks >= 2,
            letterless_count as int == blanks,
            fills@.len() == letterless_count as int,
            forall|m: int|
                0 <= m < letterless_count as int - 2 ==> #[trigger] fills@[m]
                    == spec_blank_filler(m),
            65 <= first_byte <= 91,
            all_candidates_ok(*game_board, *dictionary, candidates@),
            forall|x: int|
                0 <= x < candidates@.len() ==> candidate_from_resolution(
                    rt,
                    #[trigger] candidates@[x],
                ),
            forall|fills2: Seq<char>, start: Coordinates, axis: Axis, sel: Seq<usize>, ord: Seq<usize>|
                spec_admissible_fills(blanks, fills2) && (fills2[blanks - 2] as u32)
                    < first_byte as u32 ==> search_complete_for(
                    *game_board,
                    *dictionary,
                    crate::rack::spec_fill_blanks(rt, fills2),
                    start,
                    axis,
                    sel,
                    ord,
                    candidates@,
                ),
        decreases 91 - first_byte,
    {
        fills.set(letterless_count - 2, first_byte as char);
        let mut second_byte: u8 = 65;
        while second_byte <= 90
            invariant
                game_board.wf(),
                rack_values_bounded(rack.tiles@),
                rack.tiles@.len() <= BINGO_TILES_LENGTH as int,
                rt == rack.tiles@,
                blanks == spec_blanks_before(rt, rt.len() as int),
                blanks >= 2,
                letterless_count as int == blanks,
                fills@.len() == letterless_count as int,
                forall|m: int|
                    0 <= m < letterless_count as int - 2 ==> #[trigger] fills@[m]
                        == spec_blank_filler(m),
                fills@[blanks - 2] == first_byte as char,
                65 <= first_byte <= 90,
                65 <= second_byte <= 91,
                all_candidates_ok(*game_board, *dictionary, candidates@),
                forall|x: int|
                    0 <= x < candidates@.len() ==> candidate_from_resolution(
                        rt,
                        #[trigger] candidates@[x],
                    ),
                forall|fills2: Seq<char>, start: Coordinates, axis: Axis, sel: Seq<usize>, ord: Seq<usize>|
                    spec_admissible_fills(blanks, fills2) && ((fills2[blanks - 2] as u32)
                        < first_byte as u32 || ((fills2[blanks - 2] as u32) == first_byte as u32
                        && (fills2[blanks - 1] as u32) < second_byte as u32))
                        ==> search_complete_for(
                        *game_board,
                        *dictionary,
                        crate::rack::spec_fill_blanks(rt, fills2),
                        start,
                        axis,
                        sel,
                        ord,
                        candidates@,
                    ),
            decreases 91 - second_byte,
        {
            fills.set(letterless_count - 1, second_byte as char);
            let filled = rack.fill_blanks(&fills);
            proof {
                lemma_filled_rack_ok(rt, filled.tiles@, fills@);
            }
            let mut sub = candidate_plays_resolved(game_board, &filled, dictionary);
            let ghost before = candidates@;
            let ghost added = sub@;
            candidates.append(&mut sub);
            proof {
                assert forall|k: int| 0 <= k < candidates@.len() implies candidate_ok(
                    *game_board,
                    *dictionary,
                    #[trigger] candidates@[k],
                ) by {
                    if k < before.len() {
                        assert(candidates@[k] == before[k]);
                    } else {
                        assert(candidates@[k] == added[k - before.len()]);
                    }
                }
                assert(is_capital_letter(fills@[blanks - 2]));
                assert(is_capital_letter(fills@[blanks - 1]));
                assert(spec_admissible_fills(blanks, fills@));
                assert forall|x: int| 0 <= x < candidates@.len() implies candidate_from_resolution(
                    rt,
                    #[trigger] candidates@[x],
                ) by {
                    if x < before.len() {
                        assert(candidates@[x] == before[x]);
                    } else {
                        assert(candidates@[x] == added[x - before.len()]);
                        assert(candidate_tiles_from(filled.tiles@, candidates@[x]));
                        assert(crate::rack::spec_fill_blanks(rt, fills@) == filled.tiles@);
                    }
                }
                assert forall|fills2: Seq<char>, start: Coordinates, axis: Axis, sel: Seq<usize>, ord: Seq<usize>|
                    spec_admissible_fills(blanks, fills2) && ((fills2[blanks - 2] as u32)
                        < first_byte as u32 || ((fills2[blanks - 2] as u32) == first_byte as u32
                        && (fills2[blanks - 1] as u32) < second_byte as u32
                        + 1)) implies search_complete_for(
                    *game_board,
                    *dictionary,
                    crate::rack::spec_fill_blanks(rt, fills2),
                    start,
                    axis,
                    sel,
                    ord,
                    candidates@,
                ) by {
                    if (fills2[blanks - 2] as u32) < first_byte as u32 || ((fills2[blanks - 2]
                        as u32) == first_byte as u32 && (fills2[blanks - 1] as u32)
                        < second_byte as u32) {
                        lemma_complete_grows(
                            *game_board,
                            *dictionary,
                            crate::rack::spec_fill_blanks(rt, fills2),
                            before,
                            candidates@,
                        );
                    } else {
                        assert(fills2[blanks - 1] as u32 == second_byte as u32);
                        assert((first_byte as char) as u32 == first_byte as u32);
                        assert((second_byte as char) as u32 == second_byte as u32);
                        lemma_char_code(fills2[blanks - 2], fills@[blanks - 2]);
                        lemma_char_code(fills2[blanks - 1], fills@[blanks - 1]);
                        assert(fills2 =~= fills@);
                        lemma_complete_appended(
                            *game_board,
                            *dictionary,
                            filled.tiles@,
                            added,
                            candidates@,
                            before.len() as int,
                        );
                        assert(crate::rack::spec_fill_blanks(rt, fills2) == filled.tiles@);
                    }
                }
            }
            second_byte = second_byte + 1;
        }
        first_byte = first_byte + 1;
        proof {
            assert forall|fills2: Seq<char>, start: Coordinates, axis: Axis, sel: Seq<usize>, ord: Seq<usize>|
                spec_admissible_fills(blanks, fills2) && (fills2[blanks - 2] as u32)
                    < first_byte as u32 implies search_complete_for(
                *game_board,
                *dictionary,
                crate::rack::spec_fill_blanks(rt, fills2),
                start,
                axis,
                sel,
                ord,
                candidates@,
            ) by {
                if fills2[blanks - 2] as u32 == first_byte as u32 - 1 {
                    assert((fills2[blanks - 1] as u32) < 91);
                }
            }
        }
    }
    proof {
        assert forall|fills2: Seq<char>, start: Coordinates, axis: Axis, sel: Seq<usize>, ord: Seq<usize>|
            spec_admissible_fills(blanks, fills2) implies search_complete_for(
            *game_board,
            *dictionary,
            crate::rack::spec_fill_blanks(rt, fills2),
            start,
            axis,
            sel,
            ord,
            candidates@,
        ) by {
            assert((fills2[blanks - 2] as u32) < 91);
        }
    }
    candidates
}

/// A shape whose pre-check fails yields no accepted pair: where tiles
/// land depends only on their number, so if the first rack tiles cannot
/// be laid legally from a start cell, no reordered subset of that size
/// can.
proof fn lemma_shape_prefiltered(
    board: GameBoard,
    dictionary: Dictionary,
    tiles: Seq<Tile>,
    start: Coordinates,
    axis: Axis,
    feas_seq: Seq<Tile>,
)
    requires
        feas_seq.len() >= 1,
        match board.spec_build_placement(start, feas_seq, axis) {
            Ok(fp) => !(board.spec_connected(fp) || board.spec_through_center(fp)),
            Err(_) => true,
        },
    ensures
        forall|sel: Seq<usize>, ord: Seq<usize>|
            #![trigger spec_play_accepted(board, dictionary, tiles, start, axis, sel, ord)]
            spec_pair_domain(sel, ord, tiles.len() as int) && sel.len() == feas_seq.len()
                ==> !spec_play_accepted(board, dictionary, tiles, start, axis, sel, ord),
{
    assert forall|sel: Seq<usize>, ord: Seq<usize>|
        spec_pair_domain(sel, ord, tiles.len() as int) && sel.len()
            == feas_seq.len() implies !spec_play_accepted(
        board,
        dictionary,
        tiles,
        start,
        axis,
        sel,
        ord,
    ) by {
        let selected = spec_selected_tiles(tiles, sel, ord);
        assert(selected.len() == feas_seq.len());
        if spec_play_accepted(board, dictionary, tiles, start, axis, sel, ord) {
            match board.spec_build_placement(start, selected, axis) {
                Ok(p) => {
                    board.lemma_place_tiles_same_cells(
                        start.row as int,
                        start.column as int,
                        selected,
                        feas_seq,
                        axis,
                    );
                    match board.spec_build_placement(start, feas_seq, axis) {
                        Ok(fp) => {
                            board.lemma_same_coords_connectivity(p, fp);
                        },
                        Err(_) => {},
                    }
                },
                Err(_) => {},
            }
        }
    }
}

/// Searches one (start cell, axis, placement length) shape: a feasibility
/// and legality pre-check with the first tiles of the rack, then every
/// subset of that many rack tiles in every ordering. Everything already
/// collected is kept; every accepted pair of this shape ends up included.
#[verifier::rlimit(100)]
fn search_one_shape(
    game_board: &GameBoard,
    rack: &Rack,
    dictionary: &Dictionary,
    start_coordinates: &Coordinates,
    axis: &Axis,
    num_tiles: usize,
    candidates: &mut Vec<(Vec<PlayedTile>, i32)>,
)
    requires
        game_board.wf(),
        search_rack_ok(rack.tiles@),
        1 <= num_tiles <= rack.tiles@.len(),
        all_candidates_ok(*game_board, *dictionary, old(candidates)@),
    ensures
        final(candidates)@.len() >= old(candidates)@.len(),
        forall|x: int|
            0 <= x < old(candidates)@.len() ==> final(candidates)@[x] == old(candidates)@[x],
        all_candidates_ok(*game_board, *dictionary, final(candidates)@),
        forall|x: int|
            old(candidates)@.len() <= x < final(candidates)@.len() ==> candidate_tiles_from(
                rack.tiles@,
                #[trigger] final(candidates)@[x],
            ),
        forall|selection: Seq<usize>, ordering: Seq<usize>|
            selection.len() == num_tiles as int ==> search_complete_for(
                *game_board,
                *dictionary,
                rack.tiles@,
                *start_coordinates,
                *axis,
                selection,
                ordering,
                final(candidates)@,
            ),
{
    let ghost sr = start_coordinates.row as int;
    let ghost sc = start_coordinates.column as int;
    let ghost ax = *axis;
    let ghost rt = rack.tiles@;
    let ghost base = old(candidates)@;
    let rack_len: usize = rack.tiles.len();
    let mut feasibility_tiles: Vec<&Tile> = Vec::new();
    let mut fi: usize = 0;
    while fi < num_tiles
        invariant
            num_tiles <= rack.tiles@.len(),
            fi <= num_tiles,
            feasibility_tiles@.len() == fi as int,
            forall|m: int|
                0 <= m < fi as int ==> *(#[trigger] feasibility_tiles@[m]) == rack.tiles@[m],
        decreases num_tiles - fi,
    {
        feasibility_tiles.push(&rack.tiles[fi]);
        fi = fi + 1;
    }
    let ghost feas_seq = feasibility_tiles@.map_values(|t: &Tile| *t);
    let feasibility = game_board.build_played_tiles(start_coordinates, feasibility_tiles, axis);
    let feasible_tiles = match feasibility {
        Err(_) => {
            proof {
                lemma_shape_prefiltered(
                    *game_board,
                    *dictionary,
                    rt,
                    *start_coordinates,
                    ax,
                    feas_seq,
                );
            }
            return ;
        },
        Ok(feasible_tiles) => feasible_tiles,
    };
    let ghost feas_p = feasible_tiles@;
    proof {
        assert(feas_seq.len() == num_tiles as int);
        assert(game_board.spec_place_tiles(sr, sc, feas_seq, ax) == Some(feas_p));
    }
    if !game_board.is_connected(&feasible_tiles) && !game_board.is_through_center(
        &feasible_tiles,
    ) {
        proof {
            lemma_shape_prefiltered(*game_board, *dictionary, rt, *start_coordinates, ax, feas_seq);
        }
        return ;
    }
    let mut selection: Vec<usize> = identity_indices(num_tiles);
    proof {
        assert forall|sel2: Seq<usize>, ord2: Seq<usize>|
            sel2.len() == num_tiles as int && lex_lt(sel2, selection@) implies search_complete_for(
            *game_board,
            *dictionary,
            rt,
            *start_coordinates,
            ax,
            sel2,
            ord2,
            candidates@,
        ) by {
            if spec_pair_domain(sel2, ord2, rt.len() as int) {
                assert(selection@ =~= spec_identity_indices(num_tiles as int));
                lemma_combination_first(sel2, rack_len as int);
            }
        }
    }
    loop
        invariant_except_break
            game_board.wf(),
            search_rack_ok(rack.tiles@),
            rt == rack.tiles@,
            rack_len == rack.tiles@.len(),
            1 <= num_tiles <= rack_len,
            selection@.len() == num_tiles as int,
            is_combination(selection@, rack_len as int),
            feas_seq.len() == num_tiles as int,
            game_board.spec_place_tiles(sr, sc, feas_seq, ax) == Some(feas_p),
            game_board.spec_connected(feas_p) || game_board.spec_through_center(feas_p),
            sr == start_coordinates.row as int,
            sc == start_coordinates.column as int,
            ax == *axis,
            all_candidates_ok(*game_board, *dictionary, candidates@),
            candidates@.len() >= base.len(),
            forall|x: int| 0 <= x < base.len() ==> candidates@[x] == base[x],
            forall|x: int|
                base.len() <= x < candidates@.len() ==> candidate_tiles_from(
                    rt,
                    #[trigger] candidates@[x],
                ),
            forall|sel2: Seq<usize>, ord2: Seq<usize>|
                sel2.len() == num_tiles as int && lex_lt(sel2, selection@)
                    ==> search_complete_for(
                    *game_board,
                    *dictionary,
                    rt,
                    *start_coordinates,
                    ax,
                    sel2,
                    ord2,
                    candidates@,
                ),
        ensures
            all_candidates_ok(*game_board, *dictionary, candidates@),
            candidates@.len() >= base.len(),
            forall|x: int| 0 <= x < base.len() ==> candidates@[x] == base[x],
            forall|x: int|
                base.len() <= x < candidates@.len() ==> candidate_tiles_from(
                    rt,
                    #[trigger] candidates@[x],
                ),
            forall|sel2: Seq<usize>, ord2: Seq<usize>|
                sel2.len() == num_tiles as int ==> search_complete_for(
                    *game_board,
                    *dictionary,
                    rt,
                    *start_coordinates,
                    ax,
                    sel2,
                    ord2,
                    candidates@,
                ),
        decreases pow(rack_len as int, num_tiles as nat) - seq_rank(selection@, rack_len as int),
    {
        let mut ordering: Vec<usize> = identity_indices(num_tiles);
        proof {
            assert(ordering@ =~= spec_identity_indices(num_tiles as int));
            assert(is_index_permutation(ordering@, num_tiles as int));
            assert forall|ord2: Seq<usize>|
                lex_lt(ord2, ordering@) && ord2.len()
                    == num_tiles as int implies search_complete_for(
                *game_board,
                *dictionary,
                rt,
                *start_coordinates,
                ax,
                selection@,
                ord2,
                candidates@,
            ) by {
                if spec_pair_domain(selection@, ord2, rt.len() as int) {
                    lemma_permutation_first(ord2, num_tiles as int);
                }
            }
        }
        loop
            invariant_except_break
                game_board.wf(),
                search_rack_ok(rack.tiles@),
                rt == rack.tiles@,
                rack_len == rack.tiles@.len(),
                1 <= num_tiles <= rack_len,
                selection@.len() == num_tiles as int,
                is_combination(selection@, rack_len as int),
                ordering@.len() == num_tiles as int,
                is_index_permutation(ordering@, num_tiles as int),
                feas_seq.len() == num_tiles as int,
                game_board.spec_place_tiles(sr, sc, feas_seq, ax) == Some(feas_p),
                game_board.spec_connected(feas_p) || game_board.spec_through_center(feas_p),
                sr == start_coordinates.row as int,
                sc == start_coordinates.column as int,
                ax == *axis,
                all_candidates_ok(*game_board, *dictionary, candidates@),
                candidates@.len() >= base.len(),
                forall|x: int| 0 <= x < base.len() ==> candidates@[x] == base[x],
                forall|x: int|
                    base.len() <= x < candidates@.len() ==> candidate_tiles_from(
                        rt,
                        #[trigger] candidates@[x],
                    ),
                forall|sel2: Seq<usize>, ord2: Seq<usize>|
                    sel2.len() == num_tiles as int && lex_lt(sel2, selection@)
                        ==> search_complete_for(
                        *game_board,
                        *dictionary,
                        rt,
                        *start_coordinates,
                        ax,
                        sel2,
                        ord2,
                        candidates@,
                    ),
                forall|ord2: Seq<usize>|
                    lex_lt(ord2, ordering@) && ord2.len() == num_tiles as int
                        ==> search_complete_for(
                        *game_board,
                        *dictionary,
                        rt,
                        *start_coordinates,
                        ax,
                        selection@,
                        ord2,
                        candidates@,
                    ),
            ensures
                all_candidates_ok(*game_board, *dictionary, candidates@),
                candidates@.len() >= base.len(),
                forall|x: int| 0 <= x < base.len() ==> candidates@[x] == base[x],
                forall|x: int|
                    base.len() <= x < candidates@.len() ==> candidate_tiles_from(
                        rt,
                        #[trigger] candidates@[x],
                    ),
                forall|sel2: Seq<usize>, ord2: Seq<usize>|
                    sel2.len() == num_tiles as int && lex_lt(sel2, selection@)
                        ==> search_complete_for(
                        *game_board,
                        *dictionary,
                        rt,
                        *start_coordinates,
                        ax,
                        sel2,
                        ord2,
                        candidates@,
                    ),
                forall|ord2: Seq<usize>|
                    ord2.len() == num_tiles as int ==> search_complete_for(
                        *game_board,
                        *dictionary,
                        rt,
                        *start_coordinates,
                        ax,
                        selection@,
                        ord2,
                        candidates@,
                    ),
            decreases pow(num_tiles as int, num_tiles as nat) - seq_rank(
                ordering@,
                num_tiles as int,
            ),
        {
            proof {
                lemma_index_permutation_values(ordering@, num_tiles as int);
            }
            let mut tiles_permutation: Vec<&Tile> = Vec::new();
            let mut m: usize = 0;
            while m < num_tiles
                invariant
                    search_rack_ok(rack.tiles@),
                    rack_len == rack.tiles@.len(),
                    num_tiles <= rack_len,
                    selection@.len() == num_tiles as int,
                    is_combination(selection@, rack_len as int),
                    ordering@.len() == num_tiles as int,
                    forall|x: int| 0 <= x < num_tiles as int ==> #[trigger] ordering@[x] < num_tiles,
                    m <= num_tiles,
                    tiles_permutation@.len() == m as int,
                    forall|x: int|
                        0 <= x < m as int ==> *(#[trigger] tiles_permutation@[x])
                            == rack.tiles@[selection@[ordering@[x] as int] as int],
                decreases num_tiles - m,
            {
                let ordering_index: usize = ordering[m];
                let rack_index: usize = selection[ordering_index];
                tiles_permutation.push(&rack.tiles[rack_index]);
                m = m + 1;
            }
            let ghost tiles_seq = tiles_permutation@.map_values(|t: &Tile| *t);
            proof {
                assert forall|x: int| 0 <= x < tiles_seq.len() implies {
                    &&& (#[trigger] tiles_seq[x]).letter is Some
                    &&& 0 <= tiles_seq[x].value <= crate::tiles::MAX_TILE_VALUE
                } by {
                    assert(tiles_seq[x] == *tiles_permutation@[x]);
                    assert(*tiles_permutation@[x] == rack.tiles@[selection@[ordering@[x] as int] as int]);
                }
                assert(tiles_seq =~= spec_selected_tiles(rt, selection@, ordering@));
            }
            let built = game_board.build_played_tiles(start_coordinates, tiles_permutation, axis);
            match built {
                Err(_) => {
                    proof {
                        assert(search_complete_for(
                            *game_board,
                            *dictionary,
                            rt,
                            *start_coordinates,
                            ax,
                            selection@,
                            ordering@,
                            candidates@,
                        ));
                    }
                },
                Ok(played_tiles) => {
                    proof {
                        game_board.lemma_built_placement_geometry(
                            *start_coordinates,
                            tiles_seq,
                            ax,
                        );
                        game_board.lemma_place_tiles_same_cells(sr, sc, tiles_seq, feas_seq, ax);
                        game_board.lemma_same_coords_connectivity(played_tiles@, feas_p);
                        assert(game_board.placement_geometry(played_tiles@));
                        assert(played_tiles@.len() == num_tiles as int);
                        assert(crate::board::placement_values_bounded(played_tiles@));
                        assert(game_board.placement_scorable(played_tiles@));
                        assert(game_board.spec_connected(played_tiles@)
                            || game_board.spec_through_center(played_tiles@));
                    }
                    let words = game_board.words_created(&played_tiles);
                    let mut all_in_dictionary: bool = true;
                    let mut wi: usize = 0;
                    while wi < words.len()
                        invariant
                            wi <= words@.len(),
                            all_in_dictionary ==> forall|x: int|
                                0 <= x < wi as int ==> dictionary.spec_contains(
                                    spec_upper((#[trigger] words@[x])@),
                                ),
                            !all_in_dictionary ==> exists|x: int|
                                0 <= x < words@.len() && !dictionary.spec_contains(
                                    spec_upper((#[trigger] words@[x])@),
                                ),
                        decreases words@.len() - wi,
                    {
                        if !dictionary.contains_folded(&words[wi]) {
                            all_in_dictionary = false;
                            proof {
                                assert(!dictionary.spec_contains(
                                    spec_upper((words@[wi as int])@),
                                ));
                            }
                        }
                        wi = wi + 1;
                    }
                    if all_in_dictionary {
                        let score = game_board.score(&played_tiles);
                        let ghost before = candidates@;
                        let candidate = (played_tiles, score);
                        proof {
                            assert forall|w: int|
                                0 <= w < game_board.spec_words(candidate.0@).len()
                                    implies dictionary.spec_contains(
                                spec_upper(#[trigger] game_board.spec_words(candidate.0@)[w]),
                            ) by {
                                assert(words@[w]@ == game_board.spec_words(candidate.0@)[w]);
                            }
                            assert(candidate_ok(*game_board, *dictionary, candidate));
                            assert(candidate_tiles_from(rt, candidate)) by {
                                let idxs = Seq::new(
                                    num_tiles as nat,
                                    |x: int| selection@[ordering@[x] as int] as int,
                                );
                                assert(idxs.len() == candidate.0@.len());
                                assert forall|x: int|
                                    0 <= x < idxs.len() implies 0 <= #[trigger] idxs[x]
                                    < rt.len() by {
                                    assert(ordering@[x] < num_tiles);
                                    assert(selection@[ordering@[x] as int] < rack_len);
                                }
                                assert forall|m1: int, m2: int|
                                    0 <= m1 < m2 < idxs.len() implies idxs[m1] != idxs[m2] by {
                                    assert(ordering@[m1] != ordering@[m2]);
                                    if (ordering@[m1] as int) < ordering@[m2] as int {
                                        assert(selection@[ordering@[m1] as int] < selection@[
                                            ordering@[m2] as int]);
                                    } else {
                                        assert(selection@[ordering@[m2] as int] < selection@[
                                            ordering@[m1] as int]);
                                    }
                                }
                                assert forall|x: int|
                                    0 <= x < idxs.len() implies candidate.0@[x].tile == rt[
                                    #[trigger] idxs[x]] by {
                                    assert(candidate.0@[x].tile == tiles_seq[x]);
                                }
                            }
                        }
                        candidates.push(candidate);
                        proof {
                            assert forall|k: int| 0 <= k < candidates@.len() implies candidate_ok(
                                *game_board,
                                *dictionary,
                                #[trigger] candidates@[k],
                            ) by {
                                if k < before.len() {
                                    assert(candidates@[k] == before[k]);
                                }
                            }
                            assert forall|x: int|
                                base.len() <= x < candidates@.len() implies candidate_tiles_from(
                                rt,
                                #[trigger] candidates@[x],
                            ) by {
                                if x < before.len() {
                                    assert(candidates@[x] == before[x]);
                                } else {
                                    assert(candidates@[x] == candidate);
                                }
                            }
                            lemma_complete_grows(
                                *game_board,
                                *dictionary,
                                rt,
                                before,
                                candidates@,
                            );
                            assert(spec_play_included(
                                *game_board,
                                rt,
                                *start_coordinates,
                                ax,
                                selection@,
                                ordering@,
                                candidates@,
                            )) by {
                                assert(candidates@[candidates@.len() - 1] == candidate);
                                assert(candidate.0@ == played_tiles@);
                            }
                            assert(search_complete_for(
                                *game_board,
                                *dictionary,
                                rt,
                                *start_coordinates,
                                ax,
                                selection@,
                                ordering@,
                                candidates@,
                            ));
                        }
                    } else {
                        proof {
                            assert(search_complete_for(
                                *game_board,
                                *dictionary,
                                rt,
                                *start_coordinates,
                                ax,
                                selection@,
                                ordering@,
                                candidates@,
                            )) by {
                                if spec_pair_domain(selection@, ordering@, rt.len() as int)
                                    && spec_play_accepted(
                                    *game_board,
                                    *dictionary,
                                    rt,
                                    *start_coordinates,
                                    ax,
                                    selection@,
                                    ordering@,
                                ) {
                                    let x = choose|x: int|
                                        0 <= x < words@.len() && !dictionary.spec_contains(
                                            spec_upper((#[trigger] words@[x])@),
                                        );
                                    assert(words@[x]@ == game_board.spec_words(played_tiles@)[x]);
                                }
                            }
                        }
                    }
                },
            }
            let ghost old_ordering = ordering@;
            match next_permutation(ordering) {
                Some(next) => {
                    proof {
                        let (k, j) = choose|k: int, j: int|
                            {
                                &&& 0 <= k < j < old_ordering.len()
                                &&& old_ordering[k] < old_ordering[k + 1]
                                &&& non_increasing_from(old_ordering, k + 1)
                                &&& old_ordering[j] > old_ordering[k]
                                &&& (forall|m2: int|
                                    j < m2 < old_ordering.len() ==> old_ordering[m2]
                                        <= old_ordering[k])
                                &&& next@ =~= crate::utilities::permutation_step(
                                    old_ordering,
                                    k,
                                    j,
                                )
                            };
                        assert(next@[k] == old_ordering[j]);
                        assert forall|m2: int| 0 <= m2 < k implies old_ordering[m2] == next@[m2] by {
                            assert(next@[m2] == old_ordering.update(
                                k,
                                old_ordering[j],
                            ).update(j, old_ordering[k])[m2]);
                        }
                        lemma_index_permutation_values(old_ordering, num_tiles as int);
                        lemma_rank_increases(old_ordering, next@, num_tiles as int, k);
                        assert forall|m2: int| 0 <= m2 < next@.len() implies #[trigger] next@[m2]
                            < num_tiles by {
                            assert(old_ordering.contains(next@[m2]));
                            let w = choose|w: int|
                                0 <= w < old_ordering.len() && old_ordering[w] == next@[m2];
                        }
                        lemma_rank_bounds(next@, num_tiles as int);
                        assert(is_index_permutation(next@, num_tiles as int));
                        // Every ordering before the successor is either an
                        // earlier one or the one just processed.
                        assert forall|ord2: Seq<usize>|
                            lex_lt(ord2, next@) && ord2.len()
                                == num_tiles as int implies search_complete_for(
                            *game_board,
                            *dictionary,
                            rt,
                            *start_coordinates,
                            ax,
                            selection@,
                            ord2,
                            candidates@,
                        ) by {
                            if spec_pair_domain(selection@, ord2, rt.len() as int) {
                                if lex_lt(old_ordering, ord2) {
                                    lemma_permutation_successor_tight(
                                        old_ordering,
                                        next@,
                                        ord2,
                                        k,
                                        j,
                                    );
                                    assert(false);
                                } else if !lex_lt(ord2, old_ordering) {
                                    lemma_lex_trichotomy(ord2, old_ordering);
                                    assert(ord2 == old_ordering);
                                }
                            }
                        }
                    }
                    ordering = next;
                },
                None => {
                    proof {
                        assert forall|ord2: Seq<usize>|
                            ord2.len() == num_tiles as int implies search_complete_for(
                            *game_board,
                            *dictionary,
                            rt,
                            *start_coordinates,
                            ax,
                            selection@,
                            ord2,
                            candidates@,
                        ) by {
                            if spec_pair_domain(selection@, ord2, rt.len() as int) {
                                lemma_permutation_last(old_ordering, ord2);
                                if !lex_lt(ord2, old_ordering) {
                                    lemma_lex_trichotomy(ord2, old_ordering);
                                    assert(ord2 == old_ordering);
                                }
                            }
                        }
                    }
                    break ;
                },
            }
        }
        let ghost old_selection = selection@;
        match next_combination(selection, rack_len) {
            Some(next) => {
                proof {
                    let i = choose|i: int|
                        {
                            &&& 0 <= i < old_selection.len()
                            &&& old_selection[i] != rack_len as int - old_selection.len() + i
                            &&& combination_tail_maxed(old_selection, rack_len as int, i + 1)
                            &&& next@[i] == old_selection[i] + 1
                            &&& (forall|m2: int| 0 <= m2 < i ==> next@[m2] == old_selection[m2])
                            &&& (forall|m2: int|
                                i < m2 < next@.len() ==> next@[m2] == next@[i] + (m2 - i))
                            &&& next@ =~= crate::utilities::combination_step(old_selection, i)
                        };
                    lemma_rank_increases(old_selection, next@, rack_len as int, i);
                    lemma_rank_bounds(next@, rack_len as int);
                    // Every combination before the successor is either an
                    // earlier one or the one just finished.
                    assert forall|sel2: Seq<usize>, ord2: Seq<usize>|
                        sel2.len() == num_tiles as int && lex_lt(
                            sel2,
                            next@,
                        ) implies search_complete_for(
                        *game_board,
                        *dictionary,
                        rt,
                        *start_coordinates,
                        ax,
                        sel2,
                        ord2,
                        candidates@,
                    ) by {
                        if spec_pair_domain(sel2, ord2, rt.len() as int) {
                            if lex_lt(old_selection, sel2) {
                                lemma_combination_successor_tight(
                                    old_selection,
                                    next@,
                                    sel2,
                                    rack_len as int,
                                    i,
                                );
                                assert(false);
                            } else if !lex_lt(sel2, old_selection) {
                                lemma_lex_trichotomy(sel2, old_selection);
                                assert(sel2 == old_selection);
                            }
                        }
                    }
                }
                selection = next;
            },
            None => {
                proof {
                    assert forall|sel2: Seq<usize>, ord2: Seq<usize>|
                        sel2.len() == num_tiles as int implies search_complete_for(
                        *game_board,
                        *dictionary,
                        rt,
                        *start_coordinates,
                        ax,
                        sel2,
                        ord2,
                        candidates@,
                    ) by {
                        if spec_pair_domain(sel2, ord2, rt.len() as int) {
                            lemma_combination_last(old_selection, sel2, rack_len as int);
                            if !lex_lt(sel2, old_selection) {
                                lemma_lex_trichotomy(sel2, old_selection);
                                assert(sel2 == old_selection);
                            }
                        }
                    }
                }
                break ;
            },
        }
    }
}

} // verus!