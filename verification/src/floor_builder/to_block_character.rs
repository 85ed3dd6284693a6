//! Maps as text, two characters to a tile.

use crate::bounded_int::BoundedInt;
use crate::dungeon_tile::DungeonTile;
use crate::floor_builder::floor_builder_state::FloorBuilderState;
use crate::floor_builder::{FloorBuilder, MAX_FLOOR_SIZE, MIN_FLOOR_SIZE};
use vstd::prelude::*;

verus! {

/// `String::push` appends one character to the end of the string, as the
/// documentation of std says.
pub assume_specification[ String::push ](s: &mut String, c: char)
    ensures
        final(s)@ == old(s)@.push(c),
;

/// A type whose values can be shown as two characters.
///
/// Two characters, because the characters of most fixed fonts are about
/// twice as tall as they are wide: two of them make a square, or nearly.
pub trait ToAsciiCharacter {
    /// The two characters that stand for the value.
    spec fn ascii_chars(&self) -> (char, char);

    /// The two characters that stand for the value.
    fn to_ascii_chars(&self) -> (r: [char; 2])
        ensures
            r@ == seq![self.ascii_chars().0, self.ascii_chars().1],
    ;
}

impl ToAsciiCharacter for bool {
    open spec fn ascii_chars(&self) -> (char, char) {
        if *self {
            ('█', '█')
        } else {
            ('░', '░')
        }
    }

    fn to_ascii_chars(&self) -> (r: [char; 2]) {
        let r = if *self {
            ['█', '█']
        } else {
            ['░', '░']
        };
        assert(r@ =~= seq![self.ascii_chars().0, self.ascii_chars().1]);
        r
    }
}

impl ToAsciiCharacter for DungeonTile {
    open spec fn ascii_chars(&self) -> (char, char) {
        match *self {
            DungeonTile::Empty => (' ', ' '),
            DungeonTile::Wall => ('█', '█'),
            DungeonTile::SecretDoor { .. } => ('S', 'D'),
            DungeonTile::SecretPassage => ('<', '>'),
            DungeonTile::TreasureChest { .. } => ('T', 'C'),
            DungeonTile::Entrance => ('E', 'N'),
            DungeonTile::Exit => ('E', 'X'),
        }
    }

    fn to_ascii_chars(&self) -> (r: [char; 2]) {
        let r = match self {
            DungeonTile::Empty => [' ', ' '],
            DungeonTile::Wall => ['█', '█'],
            DungeonTile::SecretDoor { .. } => ['S', 'D'],
            DungeonTile::SecretPassage => ['<', '>'],
            DungeonTile::TreasureChest { .. } => ['T', 'C'],
            DungeonTile::Entrance => ['E', 'N'],
            DungeonTile::Exit => ['E', 'X'],
        };
        assert(r@ =~= seq![self.ascii_chars().0, self.ascii_chars().1]);
        r
    }
}

/// The text that shows the first `n` cells of a grid of the given width:
/// two characters for each cell, and a line break between one row and the
/// next.
pub open spec fn rendered<T: ToAsciiCharacter>(cells: Seq<T>, width: int, n: nat) -> Seq<char>
    decreases n,
{
    if n == 0 {
        Seq::empty()
    } else {
        let before = rendered(cells, width, (n - 1) as nat);
        let broken = if n > 1 && (n - 1) % width == 0 {
            before.push('\n')
        } else {
            before
        };
        broken.push(cells[n - 1].ascii_chars().0).push(cells[n - 1].ascii_chars().1)
    }
}

/// The grid that `vec` holds row after row, as text: two characters for
/// each cell, and a line break between the rows.
pub fn _print_vec_2d<T: ToAsciiCharacter>(
    vec: &[T],
    width: BoundedInt<MIN_FLOOR_SIZE, MAX_FLOOR_SIZE>,
) -> (r: String)
    ensures
        r@ == rendered(vec@, width.value(), vec@.len()),
{
    let w: usize = width.as_unbounded() as usize;
    let mut out = String::new();
    let mut column: usize = 0;
    let mut i: usize = 0;
    while i < vec.len()
        invariant
            0 <= i <= vec.len(),
            w == width.value(),
            w >= 10,
            column < w,
            column == (i as int) % (w as int),
            out@ == rendered(vec@, w as int, i as nat),
        decreases vec.len() - i,
    {
        if i > 0 && column == 0 {
            out.push('\n');
        }
        let pair = vec[i].to_ascii_chars();
        out.push(pair[0]);
        out.push(pair[1]);
        proof {
            assert(pair@[0] == vec@[i as int].ascii_chars().0);
            assert(pair@[1] == vec@[i as int].ascii_chars().1);
            assert((i as int + 1) % (w as int) == if column + 1 == w {
                0int
            } else {
                column + 1
            }) by (nonlinear_arith)
                requires
                    column == (i as int) % (w as int),
                    column < w,
                    w > 0,
            ;
        }
        column += 1;
        if column == w {
            column = 0;
        }
        i += 1;
    }
    out
}

impl<S: FloorBuilderState> FloorBuilder<S> {
    /// The map as text: two characters for each tile, and a line break
    /// between the rows.
    pub fn _pretty(&self) -> (r: String)
        ensures
            r@ == rendered(self.map@, self.w(), self.map@.len()),
    {
        _print_vec_2d(self.map.as_slice(), self.width)
    }
}

} // verus!
