//! Laws of the engine: properties that span several functions, stated over
//! the same models the functions' contracts use, and proved once for all
//! inputs.

use crate::game::box_at;
use crate::game::occupied;
use crate::game::spec_attempt_move;
use crate::game::spec_dest;
use crate::loader::ent_of;
use crate::loader::groups_from;
use crate::loader::lemma_next_text_unique;
use crate::loader::next_text;
use crate::loader::lemma_rows_cons;
use crate::loader::lemma_tokenize_cons;
use crate::loader::max_row_len;
use crate::loader::row_entities;
use crate::loader::rows_entities;
use crate::loader::spec_cell;
use crate::loader::spec_parse_level;
use crate::loader::spec_groups;
use crate::loader::spec_parse_worlds;
use crate::loader::spec_rows;
use crate::loader::worlds_of_groups;
use crate::token::line_toks;
use crate::token::row_toks;
use crate::token::spec_tokenize;
use crate::token::strip_cr;
use crate::token::title_of;
use crate::token::lemma_row_toks_len;
use crate::token::char_tok;
use crate::token::Tok;
use crate::types::Direction;
use crate::types::Entity;
use crate::types::Tile;
use crate::world::player_index;
use crate::world::wf;
use crate::world::World;
use crate::world::WorldV;
use vstd::prelude::*;

verus! {

/// Round-trip geometry of the parser: a level body with R delimited rows,
/// the longest of length W, parses to a board of exactly R rows and W
/// columns, and every cell holds the tile its row token writes, with short
/// rows padded by `Empty`.
pub proof fn lemma_parse_geometry(ts: Seq<Tok>)
    requires
        spec_parse_level(ts) is Some,
    ensures
        spec_parse_level(ts)->Some_0.board.len() == spec_rows(ts.skip(1)).len(),
        forall|y: int|
            0 <= y < spec_rows(ts.skip(1)).len() ==> #[trigger] spec_parse_level(
                ts,
            )->Some_0.board[y].len() == max_row_len(spec_rows(ts.skip(1))),
        forall|y: int, x: int|
            0 <= y < spec_rows(ts.skip(1)).len() && 0 <= x < max_row_len(spec_rows(ts.skip(1)))
                ==> #[trigger] spec_parse_level(ts)->Some_0.board[y][x] == spec_cell(
                spec_rows(ts.skip(1)),
                y,
                x,
            ),
{
}

/// Round-trip geometry of the tokenizer: a board row of N characters
/// tokenizes to exactly N tokens, each the one the character table gives for
/// the character at its position.
pub proof fn lemma_row_chars(l: Seq<char>)
    requires
        row_toks(l) is Some,
    ensures
        row_toks(l)->Some_0.len() == l.len(),
        forall|m: int| 0 <= m < l.len() ==> char_tok(l[m]) == Some(row_toks(l)->Some_0[m]),
{
    lemma_row_toks_len(l);
}

proof fn lemma_concat_contains(a: Seq<Entity>, b: Seq<Entity>, e: Entity)
    ensures
        (a + b).contains(e) <==> a.contains(e) || b.contains(e),
{
    if (a + b).contains(e) {
        let i = choose|i: int| 0 <= i < (a + b).len() && (a + b)[i] == e;
        if i < a.len() {
            assert(a[i] == e);
        } else {
            assert(b[i - a.len()] == e);
        }
    }
    if a.contains(e) {
        let i = choose|i: int| 0 <= i < a.len() && a[i] == e;
        assert((a + b)[i] == e);
    }
    if b.contains(e) {
        let i = choose|i: int| 0 <= i < b.len() && b[i] == e;
        assert((a + b)[a.len() + i] == e);
    }
}

proof fn lemma_row_entities_contains(row: Seq<Tok>, y: int, e: Entity)
    ensures
        row_entities(row, y).contains(e) <==> exists|x: int|
            0 <= x < row.len() && (#[trigger] ent_of(row[x], x, y)).contains(e),
    decreases row.len(),
{
    if row.len() > 0 {
        let a = row_entities(row.drop_last(), y);
        let b = ent_of(row.last(), row.len() - 1, y);
        lemma_row_entities_contains(row.drop_last(), y, e);
        lemma_concat_contains(a, b, e);
        if a.contains(e) {
            let x = choose|x: int|
                0 <= x < row.drop_last().len() && (#[trigger] ent_of(
                    row.drop_last()[x],
                    x,
                    y,
                )).contains(e);
            assert(row.drop_last()[x] == row[x]);
            assert(ent_of(row[x], x, y).contains(e));
        }
        if b.contains(e) {
            assert(ent_of(row[row.len() - 1], row.len() - 1, y).contains(e));
        }
        if exists|x: int| 0 <= x < row.len() && (#[trigger] ent_of(row[x], x, y)).contains(e) {
            let x = choose|x: int|
                0 <= x < row.len() && (#[trigger] ent_of(row[x], x, y)).contains(e);
            if x < row.len() - 1 {
                assert(ent_of(row.drop_last()[x], x, y).contains(e));
            } else {
                assert(b.contains(e));
            }
        }
    }
}

/// Round-trip entities: an entity is in a parsed level's list exactly when
/// the character table predicts it at some row position — a player at the
/// cell of a `@` or `+` token, a box at the cell of a `$` or `*` token.
pub proof fn lemma_parse_entities(ts: Seq<Tok>, e: Entity)
    requires
        spec_parse_level(ts) is Some,
    ensures
        spec_parse_level(ts)->Some_0.entities.contains(e) <==> exists|y: int, x: int|
            0 <= y < spec_rows(ts.skip(1)).len() && 0 <= x < spec_rows(ts.skip(1))[y].len() && (
            #[trigger] ent_of(spec_rows(ts.skip(1))[y][x], x, y)).contains(e),
{
    lemma_rows_entities_contains(spec_rows(ts.skip(1)), e);
}

proof fn lemma_rows_entities_contains(rows: Seq<Seq<Tok>>, e: Entity)
    ensures
        rows_entities(rows).contains(e) <==> exists|y: int, x: int|
            0 <= y < rows.len() && 0 <= x < rows[y].len() && (#[trigger] ent_of(
                rows[y][x],
                x,
                y,
            )).contains(e),
    decreases rows.len(),
{
    if rows.len() > 0 {
        let a = rows_entities(rows.drop_last());
        let b = row_entities(rows.last(), rows.len() - 1);
        lemma_rows_entities_contains(rows.drop_last(), e);
        lemma_row_entities_contains(rows.last(), rows.len() - 1, e);
        lemma_concat_contains(a, b, e);
        if a.contains(e) {
            let (y, x) = choose|y: int, x: int|
                0 <= y < rows.drop_last().len() && 0 <= x < rows.drop_last()[y].len() && (
                #[trigger] ent_of(rows.drop_last()[y][x], x, y)).contains(e);
            assert(rows.drop_last()[y] == rows[y]);
            assert(ent_of(rows[y][x], x, y).contains(e));
        }
        if b.contains(e) {
            let x = choose|x: int|
                0 <= x < rows.last().len() && (#[trigger] ent_of(
                    rows.last()[x],
                    x,
                    rows.len() - 1,
                )).contains(e);
            assert(ent_of(rows[rows.len() - 1][x], x, rows.len() - 1).contains(e));
        }
        if exists|y: int, x: int|
            0 <= y < rows.len() && 0 <= x < rows[y].len() && (#[trigger] ent_of(
                rows[y][x],
                x,
                y,
            )).contains(e) {
            let (y, x) = choose|y: int, x: int|
                0 <= y < rows.len() && 0 <= x < rows[y].len() && (#[trigger] ent_of(
                    rows[y][x],
                    x,
                    y,
                )).contains(e);
            if y < rows.len() - 1 {
                assert(ent_of(rows.drop_last()[y][x], x, y).contains(e));
            } else {
                assert(ent_of(rows.last()[x], x, rows.len() - 1).contains(e));
            }
        }
    }
}

/// The given lines joined into one text, a line break after each line.
pub open spec fn join_lines(ls: Seq<Seq<char>>) -> Seq<char>
    decreases ls.len(),
{
    if ls.len() == 0 {
        Seq::empty()
    } else {
        ls[0] + seq!['\n'] + join_lines(ls.skip(1))
    }
}

/// The token rows of the given board lines.
pub open spec fn token_rows(ls: Seq<Seq<char>>) -> Seq<Seq<Tok>> {
    ls.map_values(|l: Seq<char>| row_toks(l)->Some_0)
}

/// The token stream of the given board lines: each line's row tokens closed
/// by a delimiter.
pub open spec fn block_body(ls: Seq<Seq<char>>) -> Seq<Tok>
    decreases ls.len(),
{
    if ls.len() == 0 {
        Seq::empty()
    } else {
        row_toks(ls[0])->Some_0.push(Tok::NewLine) + block_body(ls.skip(1))
    }
}

/// The length of the longest of the given lines.
pub open spec fn widest_line(ls: Seq<Seq<char>>) -> int
    decreases ls.len(),
{
    if ls.len() == 0 {
        0
    } else {
        let m = widest_line(ls.drop_last());
        if ls.last().len() > m {
            ls.last().len() as int
        } else {
            m
        }
    }
}

/// A board line: at least one character, all of them in the board table.
pub open spec fn board_line(l: Seq<char>) -> bool {
    l.len() >= 1 && row_toks(l) is Some
}

/// A board line holds no line break, carriage return or title marker (none
/// of those is in the table), and its tokens are board tokens.
proof fn lemma_board_line_chars(l: Seq<char>)
    requires
        row_toks(l) is Some,
    ensures
        row_toks(l)->Some_0.len() == l.len(),
        forall|m: int| 0 <= m < l.len() ==> l[m] != '\n' && l[m] != '\r' && l[m] != ';',
        forall|m: int|
            0 <= m < l.len() ==> !((#[trigger] row_toks(l)->Some_0[m]) is Text) && !(row_toks(
                l,
            )->Some_0[m] is NewLine),
{
    lemma_row_toks_len(l);
    assert forall|m: int| 0 <= m < l.len() implies l[m] != '\n' && l[m] != '\r' && l[m] != ';' by {
        assert(char_tok(l[m]) is Some);
    }
    assert forall|m: int|
        0 <= m < l.len() implies !((#[trigger] row_toks(l)->Some_0[m]) is Text) && !(row_toks(
        l,
    )->Some_0[m] is NewLine) by {
        assert(char_tok(l[m]) == Some(row_toks(l)->Some_0[m]));
    }
}

/// Board lines tokenize, when joined, to their row tokens with a delimiter
/// after each row — a stream with no title in it that splits back into
/// exactly those rows.
proof fn lemma_block_body(ls: Seq<Seq<char>>)
    requires
        forall|k: int| 0 <= k < ls.len() ==> board_line(#[trigger] ls[k]),
    ensures
        spec_tokenize(join_lines(ls)) == Some(block_body(ls)),
        spec_rows(block_body(ls)) == token_rows(ls),
        forall|m: int| 0 <= m < block_body(ls).len() ==> !((#[trigger] block_body(ls)[m]) is Text),
    decreases ls.len(),
{
    if ls.len() == 0 {
        assert(join_lines(ls).len() == 0);
        assert(token_rows(ls) =~= Seq::<Seq<Tok>>::empty());
    } else {
        let l = ls[0];
        let rest = ls.skip(1);
        assert(forall|k: int| 0 <= k < rest.len() ==> board_line(#[trigger] rest[k]));
        lemma_block_body(rest);
        lemma_board_line_chars(l);
        lemma_tokenize_cons(l, join_lines(rest));
        assert(strip_cr(l) == l);
        let rt = row_toks(l)->Some_0;
        assert(rt.len() == l.len());
        assert(line_toks(l) == Some(rt.push(Tok::NewLine)));
        let bb = block_body(rest);
        assert(block_body(ls) == rt.push(Tok::NewLine) + bb);
        assert(spec_tokenize(join_lines(ls)) == Some(block_body(ls)));
        // rows: the first delimiter closes exactly the first line's tokens
        assert(forall|m: int| 0 <= m < rt.len() ==> !((#[trigger] rt[m]) is NewLine));
        lemma_rows_cons(rt, bb);
        assert(rt.push(Tok::NewLine) + bb =~= rt + seq![Tok::NewLine] + bb);
        assert(spec_rows(block_body(ls)) == seq![rt] + spec_rows(bb));
        assert(seq![rt] + token_rows(rest) =~= token_rows(ls));
        assert forall|m: int| 0 <= m < block_body(ls).len() implies !((#[trigger] block_body(
            ls,
        )[m]) is Text) by {
            let a = rt.push(Tok::NewLine);
            if m < a.len() {
                assert(block_body(ls)[m] == a[m]);
                if m < rt.len() {
                    assert(a[m] == rt[m]);
                } else {
                    assert(a[m] == Tok::NewLine);
                }
            } else {
                assert(block_body(ls)[m] == bb[m - a.len()]);
            }
        }
    }
}

proof fn lemma_widest_eq(rows: Seq<Seq<Tok>>, ls: Seq<Seq<char>>)
    requires
        rows.len() == ls.len(),
        forall|k: int| 0 <= k < ls.len() ==> rows[k].len() == (#[trigger] ls[k]).len(),
    ensures
        max_row_len(rows) == widest_line(ls),
    decreases ls.len(),
{
    if ls.len() > 0 {
        assert(forall|k: int|
            0 <= k < ls.len() - 1 ==> rows.drop_last()[k].len() == (
            #[trigger] ls.drop_last()[k]).len());
        lemma_widest_eq(rows.drop_last(), ls.drop_last());
        assert(rows.last().len() == ls.last().len());
    }
}

/// Round-trip geometry over the raw text, for one block: a title line
/// followed by R board rows of table characters, the longest W long, parses
/// to exactly one world, named by the title, whose board has exactly R rows
/// and W columns. The board must fit one allocation: each dimension and
/// their product within the machine's limit.
pub proof fn lemma_single_block_geometry(ls: Seq<Seq<char>>)
    requires
        ls.len() >= 2,
        ls[0].len() >= 1,
        ls[0][0] == ';',
        forall|m: int| 0 <= m < ls[0].len() ==> ls[0][m] != '\n',
        ls[0].last() != '\r',
        forall|k: int| 1 <= k < ls.len() ==> board_line(#[trigger] ls[k]),
        widest_line(ls.skip(1)) <= isize::MAX as int,
        ls.len() - 1 <= isize::MAX as int,
        widest_line(ls.skip(1)) * (ls.len() - 1) <= isize::MAX as int,
    ensures
        spec_parse_worlds(join_lines(ls)) is Some,
        spec_parse_worlds(join_lines(ls))->Some_0.len() == 1,
        spec_parse_worlds(join_lines(ls))->Some_0[0].name == title_of(ls[0]),
        spec_parse_worlds(join_lines(ls))->Some_0[0].board.len() == ls.len() - 1,
        forall|y: int|
            0 <= y < ls.len() - 1 ==> #[trigger] spec_parse_worlds(
                join_lines(ls),
            )->Some_0[0].board[y].len() == widest_line(ls.skip(1)),
{
    let title = ls[0];
    let rest = ls.skip(1);
    assert forall|k: int| 0 <= k < rest.len() implies board_line(#[trigger] rest[k]) by {
        assert(rest[k] == ls[k + 1]);
    }
    lemma_block_body(rest);
    lemma_tokenize_cons(title, join_lines(rest));
    assert(strip_cr(title) == title);
    let bb = block_body(rest);
    assert(line_toks(title) == Some(seq![Tok::Text(title_of(title))]));
    let ts = seq![Tok::Text(title_of(title))] + bb;
    assert(spec_tokenize(join_lines(ls)) == Some(ts));
    // one group: the title opens the stream and no other title follows
    assert(ts[0] is Text);
    lemma_next_text_unique(ts, 0, 0);
    assert forall|m: int| 1 <= m < ts.len() implies !((#[trigger] ts[m]) is Text) by {
        assert(ts[m] == bb[m - 1]);
    }
    lemma_next_text_unique(ts, 1, ts.len() as int);
    assert(ts.subrange(0, ts.len() as int) =~= ts);
    let gs = spec_groups(ts);
    assert(next_text(ts, 0) == 0);
    assert(groups_from(ts, ts.len() as int) == Seq::<Seq<Tok>>::empty());
    assert(groups_from(ts, 0) == seq![ts.subrange(0, ts.len() as int)] + groups_from(
        ts,
        ts.len() as int,
    ));
    assert(gs =~= seq![ts]);
    // that one group parses
    assert(gs.drop_last() =~= Seq::<Seq<Tok>>::empty());
    assert(gs.last() == ts);
    assert(ts.skip(1) =~= bb);
    let rows = spec_rows(bb);
    assert(rows == token_rows(rest));
    assert forall|k: int| 0 <= k < rest.len() implies rows[k].len() == (
    #[trigger] rest[k]).len() by {
        lemma_row_toks_len(rest[k]);
    }
    lemma_widest_eq(rows, rest);
    let w = max_row_len(rows);
    assert(rows.len() == ls.len() - 1);
    assert(w <= isize::MAX as int && rows.len() <= isize::MAX as int && w * rows.len()
        <= isize::MAX as int);
    assert(spec_parse_level(ts) is Some);
    let wv = spec_parse_level(ts)->Some_0;
    assert(worlds_of_groups(gs.drop_last()) == Seq::<WorldV>::empty());
    assert(worlds_of_groups(gs) == worlds_of_groups(gs.drop_last()) + seq![wv]);
    assert(worlds_of_groups(gs) =~= seq![wv]);
    assert(wv.name == title_of(ls[0]));
    assert(wv.board.len() == rows.len());
    assert(forall|y: int| 0 <= y < rows.len() ==> #[trigger] wv.board[y].len() == w);
}

/// Wall blocking: where the player's destination cell holds a wall, the move
/// resolves to no change at all.
pub proof fn lemma_wall_blocks(w: WorldV, d: Direction)
    requires
        wf(w),
        ({
            let p = w.entities[player_index(w.entities)].pos();
            let (qx, qy) = spec_dest(p, d);
            0 <= qy < w.board.len() && 0 <= qx < w.board[qy].len() && w.board[qy][qx] == Tile::Wall
        }),
    ensures
        spec_attempt_move(w, d) is None,
{
}

/// Chained pushes are rejected: where a box stands at the player's
/// destination and another entity — in particular a second box — stands one
/// further cell in the same direction, the move resolves to no change.
pub proof fn lemma_chained_push_blocked(w: WorldV, d: Direction)
    requires
        wf(w),
        ({
            let p = w.entities[player_index(w.entities)].pos();
            let (qx, qy) = spec_dest(p, d);
            let (rx, ry) = spec_dest(
                crate::types::Coordinate { x: qx as usize, y: qy as usize },
                d,
            );
            box_at(w.entities, qx, qy) && occupied(w.entities, rx, ry)
        }),
    ensures
        spec_attempt_move(w, d) is None,
{
}

/// A push into a wall is fully blocked: where a box stands at the player's
/// destination and the cell one further in the same direction holds a wall,
/// the move resolves to no change — the box stays and so does the player.
pub proof fn lemma_push_into_wall_blocked(w: WorldV, d: Direction)
    requires
        wf(w),
        ({
            let p = w.entities[player_index(w.entities)].pos();
            let (qx, qy) = spec_dest(p, d);
            let (rx, ry) = spec_dest(
                crate::types::Coordinate { x: qx as usize, y: qy as usize },
                d,
            );
            box_at(w.entities, qx, qy) && 0 <= ry < w.board.len() && 0 <= rx < w.board[ry].len()
                && w.board[ry][rx] == Tile::Wall
        }),
    ensures
        spec_attempt_move(w, d) is None,
{
}

/// One undo, as the history works it: pop the most recent snapshot where one
/// exists, else change nothing.
pub open spec fn spec_undo(h: Seq<World>, w: World) -> (Seq<World>, World) {
    if h.len() > 0 {
        (h.drop_last(), h.last())
    } else {
        (h, w)
    }
}

/// `n` undos in a row.
pub open spec fn spec_undo_n(h: Seq<World>, w: World, n: nat) -> (Seq<World>, World)
    decreases n,
{
    if n == 0 {
        (h, w)
    } else {
        let (h2, w2) = spec_undo(h, w);
        spec_undo_n(h2, w2, (n - 1) as nat)
    }
}

/// Undo restores the start: after moves that left the history holding the
/// worlds `h` — the starting world `h[0]` oldest — `h.len()` undos make the
/// starting world active again with nothing left to undo, and any further
/// undo changes nothing.
pub proof fn lemma_undo_restores_start(h: Seq<World>, w: World, n: nat)
    requires
        n >= h.len(),
    ensures
        spec_undo_n(h, w, n) == (Seq::<World>::empty(), if h.len() > 0 {
            h[0]
        } else {
            w
        }),
    decreases n,
{
    if h.len() == 0 {
        if n > 0 {
            lemma_undo_restores_start(h, w, (n - 1) as nat);
        } else {
            assert(h =~= Seq::<World>::empty());
        }
    } else {
        lemma_undo_restores_start(h.drop_last(), h.last(), (n - 1) as nat);
        if h.len() == 1 {
            assert(h.last() == h[0]);
        } else {
            assert(h.drop_last()[0] == h[0]);
        }
    }
}

/// One reset, as the history works it: the current world is recorded, and
/// the oldest snapshot — the current world itself where there was none —
/// becomes active.
pub open spec fn spec_reset(h: Seq<World>, w: World) -> (Seq<World>, World) {
    (h.push(w), if h.len() > 0 {
        h[0]
    } else {
        w
    })
}

/// Reset, then undo: the reset makes the first-ever recorded world active,
/// and one undo afterwards brings back exactly the world that was active
/// before the reset.
pub proof fn lemma_reset_then_undo(h: Seq<World>, w: World)
    ensures
        spec_reset(h, w).1 == (if h.len() > 0 {
            h[0]
        } else {
            w
        }),
        spec_undo(spec_reset(h, w).0, spec_reset(h, w).1) == (h, w),
{
    assert(h.push(w).drop_last() =~= h);
    assert(h.push(w).last() == w);
}

/// One game step, as `Game::try_move` works it: a legal move records the
/// world it replaces and activates the new one; an illegal move changes
/// nothing.
pub open spec fn spec_game_step(h: Seq<World>, w: World, d: Direction) -> (Seq<World>, WorldV) {
    match spec_attempt_move(w@, d) {
        Some(wv) => (h.push(w), wv),
        None => (h, w@),
    }
}

/// Illegal moves are idempotent: where a move is illegal, the game step
/// leaves history and world exactly as they were — so attempting it any
/// number of times returns the same negative result and never touches the
/// history.
pub proof fn lemma_illegal_move_idempotent(h: Seq<World>, w: World, d: Direction)
    requires
        spec_attempt_move(w@, d) is None,
    ensures
        spec_game_step(h, w, d) == (h, w@),
        spec_game_step(spec_game_step(h, w, d).0, w, d) == (h, w@),
{
}

} // verus!
