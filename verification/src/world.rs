//! The `World`: one complete puzzle instance at one instant, and its
//! well-formedness invariant.

use crate::board::Board;
use crate::board::grid_seq;
use crate::types::Coordinate;
use crate::types::Entity;
use crate::types::Tile;
use vstd::prelude::*;

verus! {

/// The complete state of one puzzle instance: a title, the static terrain
/// grid, and the movable entities. Terrain never changes after parsing; a
/// move produces a whole new `World` value.
pub struct World {
    /// The level's title, taken from its header line.
    pub name: String,
    /// The static terrain grid.
    pub board: Board,
    /// The movable entities, in parse order. The player is found by linear
    /// scan; order carries no precedence.
    pub entities: Vec<Entity>,
    /// A viewport anchor for rendering collaborators; the engine never reads
    /// it and moves leave it unchanged.
    pub camera_position: Coordinate,
}

/// The mathematical value of a `World`.
pub struct WorldV {
    pub name: Seq<char>,
    pub board: Seq<Seq<Tile>>,
    pub entities: Seq<Entity>,
    pub camera_position: Coordinate,
}

impl View for World {
    type V = WorldV;

    open spec fn view(&self) -> WorldV {
        WorldV {
            name: self.name@,
            board: grid_seq(self.board),
            entities: self.entities@,
            camera_position: self.camera_position,
        }
    }
}

/// The number of columns of a board: the length of its first row (every row
/// of a well-formed board has the same length).
pub open spec fn board_cols(b: Seq<Seq<Tile>>) -> int {
    if b.len() == 0 {
        0
    } else {
        b[0].len() as int
    }
}

/// Every row of the board has the same length.
pub open spec fn board_rect(b: Seq<Seq<Tile>>) -> bool {
    forall|y: int| 0 <= y < b.len() ==> #[trigger] b[y].len() == board_cols(b)
}

/// The coordinate lies on the board.
pub open spec fn in_bounds(b: Seq<Seq<Tile>>, c: Coordinate) -> bool {
    c.y < b.len() && c.x < b[c.y as int].len()
}

/// The tile of the board under a coordinate.
pub open spec fn tile_at(b: Seq<Seq<Tile>>, c: Coordinate) -> Tile {
    b[c.y as int][c.x as int]
}

/// A world is well formed when its board is rectangular, exactly one player
/// exists, every entity lies on the board, no box stands on a wall, and no
/// two entities share a coordinate.
pub open spec fn wf(w: WorldV) -> bool {
    &&& board_rect(w.board)
    &&& exists|i: int| 0 <= i < w.entities.len() && (#[trigger] w.entities[i]).is_player()
    &&& forall|i: int, j: int|
        0 <= i < w.entities.len() && 0 <= j < w.entities.len() && w.entities[i].is_player()
            && w.entities[j].is_player() ==> i == j
    &&& forall|i: int|
        0 <= i < w.entities.len() ==> in_bounds(w.board, (#[trigger] w.entities[i]).pos())
    &&& forall|i: int|
        0 <= i < w.entities.len() && (#[trigger] w.entities[i]).is_box() ==> tile_at(
            w.board,
            w.entities[i].pos(),
        ) != Tile::Wall
    &&& forall|i: int, j: int|
        0 <= i < w.entities.len() && 0 <= j < w.entities.len() && i != j ==> (
        #[trigger] w.entities[i]).pos() != (#[trigger] w.entities[j]).pos()
}

/// The index of the world's player: the one index holding a `Player` entity.
pub open spec fn player_index(es: Seq<Entity>) -> int {
    choose|i: int| 0 <= i < es.len() && (#[trigger] es[i]).is_player()
}

impl World {
    /// A full copy of the world: same title, same terrain, same entities.
    pub fn duplicate(&self) -> (w: World)
        ensures
            w@ == self@,
    {
        let mut es: Vec<Entity> = Vec::new();
        let mut i: usize = 0;
        while i < self.entities.len()
            invariant
                i <= self.entities.len(),
                es@ == self.entities@.take(i as int),
            decreases self.entities.len() - i,
        {
            es.push(self.entities[i]);
            i += 1;
        }
        proof {
            assert(es@ =~= self.entities@);
        }
        let w = World {
            name: self.name.clone(),
            board: self.board.duplicate(),
            entities: es,
            camera_position: self.camera_position,
        };
        proof {
            assert(w@ =~= self@);
        }
        w
    }

    /// Compares two worlds by value: same title, same board contents, same
    /// entity sequence, same camera anchor.
    pub fn same_state(&self, other: &World) -> (r: bool)
        ensures
            r == (self@ == other@),
    {
        if !(self.name == other.name) {
            return false;
        }
        if !(self.camera_position == other.camera_position) {
            return false;
        }
        if self.entities.len() != other.entities.len() {
            proof {
                assert(self@.entities.len() != other@.entities.len());
            }
            return false;
        }
        let mut i: usize = 0;
        while i < self.entities.len()
            invariant
                i <= self.entities.len(),
                self.entities.len() == other.entities.len(),
                forall|j: int| 0 <= j < i ==> self.entities@[j] == other.entities@[j],
            decreases self.entities.len() - i,
        {
            if !(self.entities[i] == other.entities[i]) {
                return false;
            }
            i += 1;
        }
        proof {
            assert(self@.entities =~= other@.entities);
        }
        if !boards_equal(&self.board, &other.board) {
            return false;
        }
        proof {
            assert(self@ =~= other@);
        }
        true
    }
}

impl World {
    /// Decides the well-formedness invariant: callers use it to guard a
    /// parsed world before handing it to the resolver, since the parser
    /// itself accepts texts whose entities overlap or sit on walls.
    pub fn is_well_formed(&self) -> (b: bool)
        ensures
            b == wf(self@),
    {
        let rows = self.board.rows();
        let cols = self.board.cols();
        proof {
            assert(board_rect(self@.board));
        }
        // exactly one player
        let mut first_player: Option<usize> = None;
        let mut second_player = false;
        let mut i: usize = 0;
        while i < self.entities.len()
            invariant
                i <= self.entities.len(),
                match first_player {
                    None => !second_player && forall|j: int|
                        0 <= j < i ==> !(#[trigger] self.entities@[j]).is_player(),
                    Some(p) => p < i && self.entities@[p as int].is_player() && (!second_player
                        ==> forall|j: int|
                        0 <= j < i && j != p ==> !(#[trigger] self.entities@[j]).is_player()),
                },
                second_player ==> exists|a: int, b: int|
                    0 <= a < i && 0 <= b < i && a != b && (#[trigger] self.entities@[a]).is_player()
                        && (#[trigger] self.entities@[b]).is_player(),
            decreases self.entities.len() - i,
        {
            if matches!(self.entities[i], Entity::Player(_)) {
                if first_player.is_none() {
                    first_player = Some(i);
                } else {
                    second_player = true;
                }
            }
            i += 1;
        }
        if first_player.is_none() {
            return false;
        }
        if second_player {
            return false;
        }
        // every entity on the board; no box on a wall
        let mut i: usize = 0;
        while i < self.entities.len()
            invariant
                i <= self.entities.len(),
                rows == self@.board.len(),
                forall|y: int| 0 <= y < rows ==> #[trigger] self@.board[y].len() == cols,
                forall|j: int|
                    0 <= j < i ==> in_bounds(self@.board, (#[trigger] self.entities@[j]).pos()),
                forall|j: int|
                    0 <= j < i && (#[trigger] self.entities@[j]).is_box() ==> tile_at(
                        self@.board,
                        self.entities@[j].pos(),
                    ) != Tile::Wall,
            decreases self.entities.len() - i,
        {
            let c = self.entities[i].position();
            if !(c.y < rows && c.x < cols) {
                return false;
            }
            if matches!(self.entities[i], Entity::SokoBox(_)) {
                if self.board.get(c.y, c.x) == Tile::Wall {
                    return false;
                }
            }
            i += 1;
        }
        // no two entities on one cell
        let mut i: usize = 0;
        while i < self.entities.len()
            invariant
                i <= self.entities.len(),
                forall|a: int, b: int|
                    0 <= a < i && 0 <= b < self.entities@.len() && a != b ==> (
                    #[trigger] self.entities@[a]).pos() != (#[trigger] self.entities@[b]).pos(),
            decreases self.entities.len() - i,
        {
            let ca = self.entities[i].position();
            let mut j: usize = i + 1;
            while j < self.entities.len()
                invariant
                    i < j <= self.entities.len(),
                    i < self.entities.len(),
                    ca == self.entities@[i as int].pos(),
                    forall|b: int|
                        i < b < j ==> self.entities@[i as int].pos() != (
                        #[trigger] self.entities@[b]).pos(),
                decreases self.entities.len() - j,
            {
                let cb = self.entities[j].position();
                if ca.x == cb.x && ca.y == cb.y {
                    return false;
                }
                j += 1;
            }
            i += 1;
        }
        true
    }
}

/// Compares two boards cell by cell.
pub fn boards_equal(a: &Board, b: &Board) -> (r: bool)
    ensures
        r == (grid_seq(*a) == grid_seq(*b)),
{
    let ra = a.rows();
    let rb = b.rows();
    if ra != rb {
        return false;
    }
    if ra == 0 {
        proof {
            assert(grid_seq(*a) =~= grid_seq(*b));
        }
        return true;
    }
    let ca = a.cols();
    let cb = b.cols();
    if ca != cb {
        proof {
            assert(grid_seq(*a)[0].len() != grid_seq(*b)[0].len());
        }
        return false;
    }
    let mut y: usize = 0;
    while y < ra
        invariant
            y <= ra,
            ra == grid_seq(*a).len(),
            ra == grid_seq(*b).len(),
            forall|i: int| 0 <= i < ra ==> #[trigger] grid_seq(*a)[i].len() == ca,
            forall|i: int| 0 <= i < ra ==> #[trigger] grid_seq(*b)[i].len() == ca,
            forall|i: int| 0 <= i < y ==> #[trigger] grid_seq(*a)[i] =~= grid_seq(*b)[i],
        decreases ra - y,
    {
        let mut x: usize = 0;
        while x < ca
            invariant
                x <= ca,
                y < ra,
                ra == grid_seq(*a).len(),
                ra == grid_seq(*b).len(),
                forall|i: int| 0 <= i < ra ==> #[trigger] grid_seq(*a)[i].len() == ca,
                forall|i: int| 0 <= i < ra ==> #[trigger] grid_seq(*b)[i].len() == ca,
                forall|j: int| 0 <= j < x ==> grid_seq(*a)[y as int][j] == grid_seq(*b)[y as int][j],
            decreases ca - x,
        {
            if !(a.get(y, x) == b.get(y, x)) {
                return false;
            }
            x += 1;
        }
        proof {
            assert(grid_seq(*a)[y as int] =~= grid_seq(*b)[y as int]);
        }
        y += 1;
    }
    proof {
        assert(grid_seq(*a) =~= grid_seq(*b));
    }
    true
}

} // verus!
