//! The movement resolver and the history of prior worlds.

use crate::types::Coordinate;
use crate::types::Direction;
use crate::types::Entity;
use crate::types::Tile;
use crate::world::player_index;
use crate::world::wf;
use crate::world::World;
use crate::world::WorldV;
use vstd::prelude::*;

verus! {

/// Where one step in a direction leads, as mathematics: a unit delta, with
/// upward and leftward steps clamped at the board edge.
pub open spec fn spec_dest(c: Coordinate, d: Direction) -> (int, int) {
    match d {
        Direction::Up => (c.x as int, if c.y == 0 {
            0int
        } else {
            c.y - 1
        }),
        Direction::Down => (c.x as int, c.y + 1),
        Direction::Left => (if c.x == 0 {
            0int
        } else {
            c.x - 1
        }, c.y as int),
        Direction::Right => (c.x + 1, c.y as int),
    }
}

/// The coordinate lies on the board (coordinates given as integers).
pub open spec fn xy_in_bounds(b: Seq<Seq<Tile>>, x: int, y: int) -> bool {
    0 <= y < b.len() && 0 <= x < b[y].len()
}

/// The entity stands at the given cell.
pub open spec fn at_xy(e: Entity, x: int, y: int) -> bool {
    e.pos().x == x && e.pos().y == y
}

/// There is a box at the given cell.
pub open spec fn box_at(es: Seq<Entity>, x: int, y: int) -> bool {
    exists|i: int| 0 <= i < es.len() && (#[trigger] es[i]).is_box() && at_xy(es[i], x, y)
}

/// The index of the box at the given cell (one at most, in a well-formed
/// world).
pub open spec fn box_index(es: Seq<Entity>, x: int, y: int) -> int {
    choose|i: int| 0 <= i < es.len() && (#[trigger] es[i]).is_box() && at_xy(es[i], x, y)
}

/// There is any entity at the given cell.
pub open spec fn occupied(es: Seq<Entity>, x: int, y: int) -> bool {
    exists|i: int| 0 <= i < es.len() && at_xy(#[trigger] es[i], x, y)
}

/// What one requested move resolves to: `None` where the move is illegal and
/// the world must stay as it is, else the world after the move.
///
/// The player's destination is one step away, clamped at the top and left
/// edges; a step that cannot change the player's cell, or leads off the
/// board, or leads onto a wall, is illegal. A box at the destination is
/// pushed one further cell in the same direction; the push is illegal — and
/// cancels the whole move — where that cell would be unchanged by clamping,
/// off the board, a wall, or already occupied by any entity.
pub open spec fn spec_attempt_move(w: WorldV, d: Direction) -> Option<WorldV> {
    let pi = player_index(w.entities);
    let p = w.entities[pi].pos();
    let (qx, qy) = spec_dest(p, d);
    if qx == p.x && qy == p.y {
        None
    } else if !xy_in_bounds(w.board, qx, qy) {
        None
    } else if w.board[qy][qx] == Tile::Wall {
        None
    } else if box_at(w.entities, qx, qy) {
        let bi = box_index(w.entities, qx, qy);
        let q = Coordinate { x: qx as usize, y: qy as usize };
        let (rx, ry) = spec_dest(q, d);
        if rx == qx && ry == qy {
            None
        } else if !xy_in_bounds(w.board, rx, ry) {
            None
        } else if w.board[ry][rx] == Tile::Wall {
            None
        } else if occupied(w.entities, rx, ry) {
            None
        } else {
            Some(
                WorldV {
                    entities: w.entities.update(pi, Entity::Player(q)).update(
                        bi,
                        Entity::SokoBox(Coordinate { x: rx as usize, y: ry as usize }),
                    ),
                    ..w
                },
            )
        }
    } else {
        Some(
            WorldV {
                entities: w.entities.update(
                    pi,
                    Entity::Player(Coordinate { x: qx as usize, y: qy as usize }),
                ),
                ..w
            },
        )
    }
}

/// One clamped step in a direction, as executable code takes it.
fn step(c: Coordinate, d: Direction) -> (r: Coordinate)
    requires
        c.x < usize::MAX,
        c.y < usize::MAX,
    ensures
        (r.x as int, r.y as int) == spec_dest(c, d),
{
    match d {
        Direction::Up => Coordinate {
            x: c.x,
            y: if c.y == 0 {
                0
            } else {
                c.y - 1
            },
        },
        Direction::Down => Coordinate { x: c.x, y: c.y + 1 },
        Direction::Left => Coordinate {
            x: if c.x == 0 {
                0
            } else {
                c.x - 1
            },
            y: c.y,
        },
        Direction::Right => Coordinate { x: c.x + 1, y: c.y },
    }
}

impl World {
    /// The index of the player entity, by linear scan.
    fn player_entity_index(&self) -> (r: Option<usize>)
        requires
            wf(self@),
        ensures
            r is Some && r->Some_0 == player_index(self@.entities) && 0 <= player_index(
                self@.entities,
            ) < self@.entities.len(),
    {
        let mut i: usize = 0;
        while i < self.entities.len()
            invariant
                wf(self@),
                i <= self.entities.len(),
                forall|j: int| 0 <= j < i ==> !(#[trigger] self.entities@[j]).is_player(),
            decreases self.entities.len() - i,
        {
            if matches!(self.entities[i], Entity::Player(_)) {
                proof {
                    let k = player_index(self@.entities);
                    assert(0 <= k < self@.entities.len() && self@.entities[k].is_player());
                    assert(k == i as int);
                }
                return Some(i);
            }
            i += 1;
        }
        proof {
            let k = player_index(self@.entities);
            assert(0 <= k < self@.entities.len() && self@.entities[k].is_player());
        }
        None
    }

    /// The index of the box at `c`, if one stands there, by linear scan.
    fn box_entity_index(&self, c: Coordinate) -> (r: Option<usize>)
        requires
            wf(self@),
        ensures
            match r {
                Some(i) => box_at(self@.entities, c.x as int, c.y as int) && i == box_index(
                    self@.entities,
                    c.x as int,
                    c.y as int,
                ) && 0 <= i < self@.entities.len(),
                None => !box_at(self@.entities, c.x as int, c.y as int),
            },
    {
        let mut i: usize = 0;
        while i < self.entities.len()
            invariant
                wf(self@),
                i <= self.entities.len(),
                forall|j: int|
                    0 <= j < i ==> !((#[trigger] self.entities@[j]).is_box() && at_xy(
                        self.entities@[j],
                        c.x as int,
                        c.y as int,
                    )),
            decreases self.entities.len() - i,
        {
            if let Entity::SokoBox(b) = self.entities[i] {
                if b.x == c.x && b.y == c.y {
                    proof {
                        let k = box_index(self@.entities, c.x as int, c.y as int);
                        assert(0 <= k < self@.entities.len() && self@.entities[k].is_box()
                            && at_xy(self@.entities[k], c.x as int, c.y as int));
                        assert(k == i as int);
                    }
                    return Some(i);
                }
            }
            i += 1;
        }
        None
    }
}

/// Resolves one requested move against a world: `None` where the move is
/// illegal, else the world after it, built as a full copy with only the
/// moved coordinates altered. The board itself never changes.
pub fn attempt_move(world: &World, direction: Direction) -> (r: Option<World>)
    requires
        wf(world@),
    ensures
        match r {
            Some(w2) => spec_attempt_move(world@, direction) == Some(w2@) && wf(w2@),
            None => spec_attempt_move(world@, direction) is None,
        },
{
    let pi = match world.player_entity_index() {
        Some(i) => i,
        None => {
            return None;
        },
    };
    let p = world.entities[pi].position();
    let rows = world.board.rows();
    let cols = world.board.cols();
    proof {
        assert(p.y < world@.board.len());
        assert(p.x < world@.board[p.y as int].len());
        assert(world@.board[p.y as int].len() == cols);
        assert(p.y < rows && p.x < cols);
    }
    let q = step(p, direction);
    if q.x == p.x && q.y == p.y {
        return None;
    }
    if !(q.y < rows && q.x < cols) {
        proof {
            assert(!xy_in_bounds(world@.board, q.x as int, q.y as int));
        }
        return None;
    }
    proof {
        assert(xy_in_bounds(world@.board, q.x as int, q.y as int));
    }
    if world.board.get(q.y, q.x) == Tile::Wall {
        return None;
    }
    match world.box_entity_index(q) {
        None => {
            let w2 = world.with_player_and_box(pi, q, None);
            proof {
                assert(board_sized(world@.board));
                lemma_move_preserves_wf(world@, direction, w2@);
            }
            Some(w2)
        },
        Some(bi) => {
            proof {
                assert(q.x < usize::MAX && q.y < usize::MAX);
            }
            let b2 = step(q, direction);
            if b2.x == q.x && b2.y == q.y {
                return None;
            }
            if !(b2.y < rows && b2.x < cols) {
                proof {
                    assert(!xy_in_bounds(world@.board, b2.x as int, b2.y as int));
                }
                return None;
            }
            proof {
                assert(xy_in_bounds(world@.board, b2.x as int, b2.y as int));
            }
            if world.board.get(b2.y, b2.x) == Tile::Wall {
                return None;
            }
            if world.any_entity_at(b2) {
                return None;
            }
            let w2 = world.with_player_and_box(pi, q, Some((bi, b2)));
            proof {
                assert(board_sized(world@.board));
                lemma_move_preserves_wf(world@, direction, w2@);
            }
            Some(w2)
        },
    }
}

impl World {
    /// Whether any entity stands at `c`, by linear scan.
    fn any_entity_at(&self, c: Coordinate) -> (r: bool)
        ensures
            r == occupied(self@.entities, c.x as int, c.y as int),
    {
        let mut i: usize = 0;
        while i < self.entities.len()
            invariant
                i <= self.entities.len(),
                forall|j: int|
                    0 <= j < i ==> !at_xy(#[trigger] self.entities@[j], c.x as int, c.y as int),
            decreases self.entities.len() - i,
        {
            let e = self.entities[i].position();
            if e.x == c.x && e.y == c.y {
                return true;
            }
            i += 1;
        }
        false
    }

    /// A copy of the world with the player moved to `q` and, on a push, the
    /// box at index `bi` moved to its own destination.
    fn with_player_and_box(
        &self,
        pi: usize,
        q: Coordinate,
        push: Option<(usize, Coordinate)>,
    ) -> (w: World)
        requires
            pi < self.entities@.len(),
            match push {
                Some((bi, _)) => bi < self.entities@.len(),
                None => true,
            },
        ensures
            w@.name == self@.name,
            w@.board == self@.board,
            w@.camera_position == self@.camera_position,
            w@.entities == (match push {
                Some((bi, b2)) => self@.entities.update(pi as int, Entity::Player(q)).update(
                    bi as int,
                    Entity::SokoBox(b2),
                ),
                None => self@.entities.update(pi as int, Entity::Player(q)),
            }),
    {
        let mut w = self.duplicate();
        w.entities.set(pi, Entity::Player(q));
        if let Some((bi, b2)) = push {
            w.entities.set(bi, Entity::SokoBox(b2));
        }
        w
    }
}

/// The board fits the machine: each axis length fits in a `usize`. True of
/// every board an `ndarray` array holds.
pub open spec fn board_sized(b: Seq<Seq<Tile>>) -> bool {
    b.len() <= usize::MAX && forall|y: int| 0 <= y < b.len() ==> #[trigger] b[y].len() <= usize::MAX
}

/// A legal move keeps the world well formed: the board is untouched, the
/// moved player and box land on in-bounds, non-wall, unoccupied cells.
#[verifier::rlimit(60)]
proof fn lemma_move_preserves_wf(w: WorldV, d: Direction, w2: WorldV)
    requires
        wf(w),
        board_sized(w.board),
        spec_attempt_move(w, d) == Some(w2),
    ensures
        wf(w2),
{
    let es = w.entities;
    let pi = player_index(es);
    let p = es[pi].pos();
    let (qx, qy) = spec_dest(p, d);
    let q = Coordinate { x: qx as usize, y: qy as usize };
    assert(0 <= pi < es.len() && es[pi].is_player());
    assert(w2.board == w.board);
    assert(xy_in_bounds(w.board, qx, qy));
    assert(q.x == qx && q.y == qy);
    if box_at(es, qx, qy) {
        let bi = box_index(es, qx, qy);
        assert(0 <= bi < es.len() && es[bi].is_box() && at_xy(es[bi], qx, qy));
        assert(bi != pi);
        assert(es[bi].pos() == q);
        let (rx, ry) = spec_dest(q, d);
        let r = Coordinate { x: rx as usize, y: ry as usize };
        assert(xy_in_bounds(w.board, rx, ry));
        assert(r.x == rx && r.y == ry);
        let es2 = es.update(pi, Entity::Player(q)).update(bi, Entity::SokoBox(r));
        assert(w2.entities == es2);
        assert(es2[pi] == Entity::Player(q));
        assert(es2[bi] == Entity::SokoBox(r));
        assert(forall|m: int|
            0 <= m < es2.len() && m != pi && m != bi ==> #[trigger] es2[m] == es[m]);
        assert(!occupied(es, rx, ry));
        assert(forall|m: int| 0 <= m < es.len() ==> !at_xy(#[trigger] es[m], rx, ry));
        // exactly one player
        assert forall|i: int, j: int|
            0 <= i < es2.len() && 0 <= j < es2.len() && es2[i].is_player() && es2[j].is_player()
                implies i == j by {
            if i != pi && i != bi {
                assert(es2[i] == es[i]);
            }
            if j != pi && j != bi {
                assert(es2[j] == es[j]);
            }
        }
        // no two entities share a cell
        assert forall|i: int, j: int|
            0 <= i < es2.len() && 0 <= j < es2.len() && i != j implies (#[trigger] es2[i]).pos()
            != (#[trigger] es2[j]).pos() by {
            assert((rx, ry) != (qx, qy));
            if i != pi && i != bi {
                assert(es2[i] == es[i]);
                assert(es[i].pos() != es[bi].pos());
                assert(es[i].pos() != es[pi].pos());
                assert(!at_xy(es[i], rx, ry));
            }
            if j != pi && j != bi {
                assert(es2[j] == es[j]);
                assert(es[j].pos() != es[bi].pos());
                assert(es[j].pos() != es[pi].pos());
                assert(!at_xy(es[j], rx, ry));
            }
        }
    } else {
        let es2 = es.update(pi, Entity::Player(q));
        assert(w2.entities == es2);
        assert(es2[pi] == Entity::Player(q));
        assert(forall|m: int| 0 <= m < es2.len() && m != pi ==> #[trigger] es2[m] == es[m]);
        assert forall|i: int, j: int|
            0 <= i < es2.len() && 0 <= j < es2.len() && es2[i].is_player() && es2[j].is_player()
                implies i == j by {
            if i != pi {
                assert(es2[i] == es[i]);
            }
            if j != pi {
                assert(es2[j] == es[j]);
            }
        }
        assert forall|i: int, j: int|
            0 <= i < es2.len() && 0 <= j < es2.len() && i != j implies (#[trigger] es2[i]).pos()
            != (#[trigger] es2[j]).pos() by {
            assert(!(qx == p.x && qy == p.y));
            if i != pi && j != pi {
                assert(es2[i] == es[i]);
                assert(es2[j] == es[j]);
            } else {
                let o = if i == pi {
                    j
                } else {
                    i
                };
                assert(es2[o] == es[o]);
                // nothing stands at the destination: a box there would make
                // box_at true, and the one player stands at p
                if es[o].is_player() {
                    assert(o == pi);
                    assert(false);
                }
                assert(es[o].is_box());
                assert(!at_xy(es[o], qx, qy));
            }
        }
    }
}

/// The ordered record of prior worlds, oldest first: a stack pushed only
/// when a move actually changed the world, popped by undo.
pub struct History {
    worlds: Vec<World>,
}

impl View for History {
    type V = Seq<World>;

    closed spec fn view(&self) -> Seq<World> {
        self.worlds@
    }
}

impl History {
    /// An empty history.
    pub fn new() -> (h: History)
        ensures
            h@.len() == 0,
    {
        History { worlds: Vec::new() }
    }

    /// How many snapshots the history holds.
    pub fn len(&self) -> (n: usize)
        ensures
            n == self@.len(),
    {
        self.worlds.len()
    }

    /// Appends a snapshot. The caller records the world it is about to
    /// leave, right before swapping in the world a successful move yielded.
    pub fn record(&mut self, w: World)
        ensures
            final(self)@ == old(self)@.push(w),
    {
        self.worlds.push(w);
    }

    /// Pops and returns the most recent snapshot; `None`, and no change,
    /// where there is nothing to undo.
    pub fn undo(&mut self) -> (r: Option<World>)
        ensures
            match r {
                Some(w) => old(self)@.len() > 0 && w == old(self)@.last() && final(self)@ == old(
                    self,
                )@.drop_last(),
                None => old(self)@.len() == 0 && final(self)@ == old(self)@,
            },
    {
        self.worlds.pop()
    }

    /// Records `current`, then returns the oldest snapshot — which also
    /// stays in the history. With no prior snapshot the oldest is `current`
    /// itself, so a reset with no history is a no-op.
    pub fn reset(&mut self, current: World) -> (r: World)
        ensures
            final(self)@ == old(self)@.push(current),
            old(self)@.len() == 0 ==> r@ == current@,
            old(self)@.len() > 0 ==> r@ == old(self)@[0]@,
    {
        self.worlds.push(current);
        let first = &self.worlds[0];
        first.duplicate()
    }
}

/// One running session: the active world and the history of the worlds it
/// replaced, oldest first.
pub struct Game {
    pub world: World,
    pub history: History,
}

impl Game {
    /// A fresh session on a starting world, with nothing to undo.
    pub fn new(start: World) -> (g: Game)
        ensures
            g.world == start,
            g.history@.len() == 0,
    {
        Game { world: start, history: History::new() }
    }

    /// Resolves one requested move. On a legal move the world it replaces
    /// goes onto the history and the new world becomes active; an illegal
    /// move changes nothing, however often it is retried.
    pub fn try_move(&mut self, direction: Direction) -> (moved: bool)
        requires
            wf(old(self).world@),
        ensures
            match spec_attempt_move(old(self).world@, direction) {
                Some(wv) => moved && final(self).world@ == wv && wf(final(self).world@)
                    && final(self).history@ == old(self).history@.push(old(self).world),
                None => !moved && final(self).world == old(self).world && final(self).history@ == old(self).history@,
            },
    {
        match attempt_move(&self.world, direction) {
            Some(next) => {
                let mut prev = next;
                core::mem::swap(&mut self.world, &mut prev);
                self.history.record(prev);
                true
            },
            None => false,
        }
    }

    /// Undoes the most recent move: the latest snapshot becomes active
    /// again. With nothing to undo, nothing changes.
    pub fn undo_move(&mut self) -> (undone: bool)
        ensures
            old(self).history@.len() > 0 ==> undone && final(self).world == old(self).history@.last()
                && final(self).history@ == old(self).history@.drop_last(),
            old(self).history@.len() == 0 ==> !undone && final(self).world == old(self).world
                && final(self).history@ == old(self).history@,
    {
        match self.history.undo() {
            Some(w) => {
                self.world = w;
                true
            },
            None => false,
        }
    }

    /// Jumps back to the first world ever recorded, recording the current
    /// one first, so that one undo returns to the state before the reset.
    /// With no history the reset records the current world and keeps it
    /// active.
    pub fn reset_game(&mut self)
        ensures
            final(self).history@.len() == old(self).history@.len() + 1,
            final(self).history@.drop_last() == old(self).history@,
            final(self).history@.last()@ == old(self).world@,
            old(self).history@.len() == 0 ==> final(self).world@ == old(self).world@,
            old(self).history@.len() > 0 ==> final(self).world@ == old(self).history@[0]@,
    {
        let current = self.world.duplicate();
        let first = self.history.reset(current);
        self.world = first;
        proof {
            assert(self.history@.drop_last() =~= old(self).history@);
        }
    }
}

} // verus!
