//! The acting player's rack: an ordered multiset of tiles built from the
//! snapshot's run-length tile counts, with blank-letter resolution.

use vstd::prelude::*;
use vstd::string::StrSliceExecFns;
use crate::tiles::MAX_TILE_VALUE;
use crate::tiles::Tile;
use crate::serializers::GameSerializer;
use crate::serializers::TileCountSerializer;
use crate::serializers::TileSerializer;
use crate::serializers::tile_serializer_letter_wf;

verus! {

/// The tile a serialized tile record stands for: its letter is the first
/// character of the letter string, or absent for a blank.
pub open spec fn spec_tile_of_serializer(t: TileSerializer) -> Tile {
    Tile {
        letter: match t.letter {
            Some(s) => Some(s@[0]),
            None => None,
        },
        value: t.value,
        is_blank: t.is_blank,
    }
}

/// `count` copies of `t` (none for a non-positive count).
pub open spec fn spec_repeat_tile(t: Tile, count: int) -> Seq<Tile> {
    if count <= 0 {
        Seq::empty()
    } else {
        Seq::new(count as nat, |x: int| t)
    }
}

/// The rack contents a run-length count list expands to.
pub open spec fn spec_expand_rack(counts: Seq<TileCountSerializer>) -> Seq<Tile>
    decreases counts.len(),
{
    if counts.len() == 0 {
        Seq::empty()
    } else {
        spec_expand_rack(counts.drop_last()) + spec_repeat_tile(
            spec_tile_of_serializer(counts.last().tile),
            counts.last().count as int,
        )
    }
}

/// The number of letterless tiles among the first `i` entries.
pub open spec fn spec_blanks_before(s: Seq<Tile>, i: int) -> int
    decreases i,
{
    if i <= 0 {
        0
    } else {
        spec_blanks_before(s, i - 1) + if s[i - 1].letter is None {
            1int
        } else {
            0int
        }
    }
}

pub proof fn lemma_blanks_before_mono(s: Seq<Tile>, i: int, j: int)
    requires
        i <= j,
    ensures
        spec_blanks_before(s, i) <= spec_blanks_before(s, j),
    decreases j - i,
{
    if i < j {
        lemma_blanks_before_mono(s, i, j - 1);
    }
}

/// The rack a letter assignment resolves to: each letterless tile takes
/// the next letter left to right, keeping its value and blank-origin
/// flag; every other tile is unchanged.
pub open spec fn spec_fill_blanks(tiles: Seq<Tile>, fills: Seq<char>) -> Seq<Tile> {
    Seq::new(
        tiles.len(),
        |i: int|
            if tiles[i].letter is None {
                Tile {
                    letter: Some(fills[spec_blanks_before(tiles, i)]),
                    value: tiles[i].value,
                    is_blank: tiles[i].is_blank,
                }
            } else {
                tiles[i]
            },
    )
}

/// A rack with no letterless tile among its first `i` has all of them
/// resolved there.
pub proof fn lemma_blanks_zero(s: Seq<Tile>)
    requires
        spec_blanks_before(s, s.len() as int) == 0,
    ensures
        forall|i: int| 0 <= i < s.len() ==> (#[trigger] s[i]).letter is Some,
{
    assert forall|i: int| 0 <= i < s.len() implies (#[trigger] s[i]).letter is Some by {
        if s[i].letter is None {
            lemma_blanks_before_mono(s, 0, i);
            assert(spec_blanks_before(s, i + 1) == spec_blanks_before(s, i) + 1);
            lemma_blanks_before_mono(s, i + 1, s.len() as int);
        }
    }
}

/// All rack tiles carry values within the engine's capacity bound.
pub open spec fn rack_values_bounded(tiles: Seq<Tile>) -> bool {
    forall|i: int| 0 <= i < tiles.len() ==> 0 <= #[trigger] tiles[i].value <= MAX_TILE_VALUE
}

/// Every rack entry of the snapshot is readable and within capacity.
pub open spec fn rack_snapshot_wf(counts: Seq<TileCountSerializer>) -> bool {
    forall|i: int| 0 <= i < counts.len() ==> {
        &&& tile_serializer_letter_wf(#[trigger] counts[i].tile)
        &&& 0 <= counts[i].tile.value <= MAX_TILE_VALUE
    }
}

pub struct Rack {
    pub tiles: Vec<Tile>,
}

impl Rack {
    /// Expands the snapshot's run-length tile counts into the rack, in
    /// order, each group repeated `count` times.
    pub fn new(game_state: &GameSerializer) -> (r: Rack)
        requires
            rack_snapshot_wf(game_state.rack@),
        ensures
            r.tiles@ == spec_expand_rack(game_state.rack@),
            rack_values_bounded(r.tiles@),
    {
        let counts = &game_state.rack;
        let mut tiles: Vec<Tile> = Vec::new();
        let mut i: usize = 0;
        while i < counts.len()
            invariant
                counts == game_state.rack,
                rack_snapshot_wf(counts@),
                i <= counts@.len(),
                tiles@ == spec_expand_rack(counts@.take(i as int)),
                rack_values_bounded(tiles@),
            decreases counts@.len() - i,
        {
            let entry = &counts[i];
            let letter: Option<char> = match &entry.tile.letter {
                Some(letter_text) => Some(letter_text.as_str().get_char(0)),
                None => None,
            };
            let tile = Tile { letter, value: entry.tile.value, is_blank: entry.tile.is_blank };
            proof {
                assert(tile == spec_tile_of_serializer(counts@[i as int].tile));
            }
            let ghost tiles_at_entry = tiles@;
            let mut j: i32 = 0;
            while j < entry.count
                invariant
                    0 <= j,
                    entry.count > 0 ==> j <= entry.count,
                    entry.count <= 0 ==> j == 0,
                    tile == spec_tile_of_serializer(counts@[i as int].tile),
                    i < counts@.len(),
                    entry == counts@[i as int],
                    tiles@ == tiles_at_entry + spec_repeat_tile(tile, j as int),
                    rack_values_bounded(tiles_at_entry),
                    0 <= tile.value <= MAX_TILE_VALUE,
                    rack_values_bounded(tiles@),
                decreases entry.count - j,
            {
                tiles.push(tile);
                j = j + 1;
                proof {
                    assert(tiles@ =~= tiles_at_entry + spec_repeat_tile(tile, j as int));
                }
            }
            i = i + 1;
            proof {
                assert(counts@.take(i as int).drop_last() =~= counts@.take(i as int - 1));
                assert(counts@.take(i as int).last() == counts@[i as int - 1]);
                assert(spec_repeat_tile(tile, j as int) == spec_repeat_tile(
                    spec_tile_of_serializer(counts@[i as int - 1].tile),
                    counts@[i as int - 1].count as int,
                ));
                assert(tiles@ == spec_expand_rack(counts@.take(i as int)));
            }
        }
        proof {
            assert(counts@.take(counts@.len() as int) =~= counts@);
        }
        Rack { tiles }
    }

    /// Resolves the rack's letterless tiles, left to right, to the supplied
    /// letters, preserving each tile's value and blank-origin flag; every
    /// other tile is kept unchanged in its position. The caller supplies
    /// exactly one letter per letterless tile, so the result has none left.
    pub fn fill_blanks(&self, letter_fills: &Vec<char>) -> (r: Rack)
        requires
            letter_fills@.len() == spec_blanks_before(self.tiles@, self.tiles@.len() as int),
        ensures
            r.tiles@.len() == self.tiles@.len(),
            r.tiles@ == spec_fill_blanks(self.tiles@, letter_fills@),
            forall|i: int| 0 <= i < self.tiles@.len() ==> #[trigger] r.tiles@[i] == (
            if self.tiles@[i].letter is None {
                Tile {
                    letter: Some(letter_fills@[spec_blanks_before(self.tiles@, i)]),
                    value: self.tiles@[i].value,
                    is_blank: self.tiles@[i].is_blank,
                }
            } else {
                self.tiles@[i]
            }),
            forall|i: int| 0 <= i < r.tiles@.len() ==> (#[trigger] r.tiles@[i].letter) is Some,
    {
        let ghost s = self.tiles@;
        let fills_len: usize = letter_fills.len();
        let mut tiles: Vec<Tile> = Vec::new();
        let mut fill_index: usize = 0;
        let mut i: usize = 0;
        while i < self.tiles.len()
            invariant
                s == self.tiles@,
                fills_len == letter_fills@.len(),
                letter_fills@.len() == spec_blanks_before(s, s.len() as int),
                i <= s.len(),
                fill_index == spec_blanks_before(s, i as int),
                tiles@.len() == i as int,
                forall|m: int| 0 <= m < i as int ==> #[trigger] tiles@[m] == (
                if s[m].letter is None {
                    Tile {
                        letter: Some(letter_fills@[spec_blanks_before(s, m)]),
                        value: s[m].value,
                        is_blank: s[m].is_blank,
                    }
                } else {
                    s[m]
                }),
            decreases s.len() - i,
        {
            let tile = &self.tiles[i];
            if tile.letter.is_none() {
                proof {
                    assert(spec_blanks_before(s, i as int + 1) == spec_blanks_before(s, i as int)
                        + 1);
                    lemma_blanks_before_mono(s, i as int + 1, s.len() as int);
                    assert(fill_index < fills_len);
                }
                let fill = letter_fills[fill_index];
                tiles.push(Tile { letter: Some(fill), value: tile.value, is_blank: tile.is_blank });
                fill_index = fill_index + 1;
            } else {
                tiles.push(*tile);
            }
            i = i + 1;
        }
        proof {
            assert(tiles@ =~= spec_fill_blanks(s, letter_fills@));
        }
        Rack { tiles }
    }
}

} // verus!
