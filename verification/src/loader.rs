//! The level parser: level-set text to a list of `World`s.

use crate::token::char_tok;
use crate::token::line_end;
use crate::token::line_toks;
use crate::token::lemma_line_end;
use crate::token::lemma_row_toks_len;
use crate::token::lemma_tok_views_push;
use crate::token::row_toks;
use crate::token::spec_tokenize;
use crate::token::strip_cr;
use crate::token::title_of;
use crate::token::tok_views;
use crate::token::toks_from;
use crate::token::Tok;
use crate::token::Token;
use crate::board::grid_seq;
use crate::board::Board;
use crate::types::Coordinate;
use crate::types::Entity;
use crate::types::Tile;
use crate::token::tile_of;
use crate::world::World;
use crate::world::WorldV;
use vstd::prelude::*;
use vstd::slice::slice_index_get;
use vstd::slice::slice_subrange;

verus! {

pub proof fn lemma_row_toks_poison(l: Seq<char>, m: int)
    requires
        0 <= m < l.len(),
        char_tok(l[m]) is None,
    ensures
        row_toks(l) is None,
    decreases l.len(),
{
    if m < l.len() - 1 {
        assert(l.drop_last()[m] == l[m]);
        lemma_row_toks_poison(l.drop_last(), m);
    }
}

pub proof fn lemma_line_end_unique(s: Seq<char>, i: int, j: int)
    requires
        0 <= i <= j <= s.len(),
        forall|m: int| i <= m < j ==> s[m] != '\n',
        j < s.len() ==> s[j] == '\n',
    ensures
        line_end(s, i) == j,
{
    lemma_line_end(s, i);
    let je = line_end(s, i);
    if je < j {
        assert(s[je] == '\n');
    } else if j < je {
        assert(s[j] != '\n');
    }
}

/// The index of the first row delimiter at or after `i`, or the end of the
/// token sequence.
pub open spec fn nl_end(ts: Seq<Tok>, i: int) -> int
    decreases ts.len() - i,
{
    if i < 0 || i >= ts.len() {
        ts.len() as int
    } else if ts[i] is NewLine {
        i
    } else {
        nl_end(ts, i + 1)
    }
}

pub proof fn lemma_nl_end(ts: Seq<Tok>, i: int)
    requires
        0 <= i <= ts.len(),
    ensures
        i <= nl_end(ts, i) <= ts.len(),
        nl_end(ts, i) < ts.len() ==> ts[nl_end(ts, i)] is NewLine,
        forall|m: int| i <= m < nl_end(ts, i) ==> !((#[trigger] ts[m]) is NewLine),
    decreases ts.len() - i,
{
    if i < ts.len() && !(ts[i] is NewLine) {
        lemma_nl_end(ts, i + 1);
    }
}

pub proof fn lemma_nl_end_unique(ts: Seq<Tok>, i: int, j: int)
    requires
        0 <= i <= j <= ts.len(),
        forall|m: int| i <= m < j ==> !((#[trigger] ts[m]) is NewLine),
        j < ts.len() ==> ts[j] is NewLine,
    ensures
        nl_end(ts, i) == j,
{
    lemma_nl_end(ts, i);
    let je = nl_end(ts, i);
    if je < j {
        assert(ts[je] is NewLine);
    } else if j < je {
        assert(!(ts[j] is NewLine));
    }
}

/// Tokenization from position `i` reads nothing before `i`.
pub proof fn lemma_toks_from_skip(s: Seq<char>, i: int)
    requires
        0 <= i <= s.len(),
    ensures
        toks_from(s, i) == toks_from(s.skip(i), 0),
    decreases s.len() - i,
{
    let t = s.skip(i);
    if i == s.len() {
        assert(t.len() == 0);
    } else {
        lemma_line_end(s, i);
        let j = line_end(s, i);
        assert forall|m: int| 0 <= m < j - i implies t[m] != '\n' by {
            assert(t[m] == s[i + m]);
        }
        if j - i < t.len() {
            assert(t[j - i] == s[j]);
        }
        lemma_line_end_unique(t, 0, j - i);
        assert(s.subrange(i, j) =~= t.subrange(0, j - i));
        if j < s.len() {
            lemma_toks_from_skip(s, j + 1);
            lemma_toks_from_skip(t, j - i + 1);
            assert(s.skip(j + 1) =~= t.skip(j - i + 1));
        }
    }
}

/// The rows of one level body: the runs of tokens between row delimiters,
/// in order. Tokens after the last delimiter close no row and belong to
/// none.
pub open spec fn rows_from(ts: Seq<Tok>, i: int) -> Seq<Seq<Tok>>
    decreases ts.len() - i,
    when 0 <= i <= ts.len()
    via rows_from_decreases
{
    if i == ts.len() {
        Seq::empty()
    } else {
        let j = nl_end(ts, i);
        if j == ts.len() {
            Seq::empty()
        } else {
            seq![ts.subrange(i, j)] + rows_from(ts, j + 1)
        }
    }
}

#[via_fn]
proof fn rows_from_decreases(ts: Seq<Tok>, i: int) {
    lemma_nl_end(ts, i);
}

pub open spec fn spec_rows(ts: Seq<Tok>) -> Seq<Seq<Tok>> {
    rows_from(ts, 0)
}

/// Row-splitting from position `i` reads nothing before `i`.
pub proof fn lemma_rows_from_skip(ts: Seq<Tok>, i: int)
    requires
        0 <= i <= ts.len(),
    ensures
        rows_from(ts, i) == rows_from(ts.skip(i), 0),
    decreases ts.len() - i,
{
    let t = ts.skip(i);
    if i == ts.len() {
        assert(t.len() == 0);
    } else {
        lemma_nl_end(ts, i);
        let j = nl_end(ts, i);
        assert forall|m: int| 0 <= m < j - i implies !((#[trigger] t[m]) is NewLine) by {
            assert(t[m] == ts[i + m]);
        }
        if j - i < t.len() {
            assert(t[j - i] == ts[j]);
        }
        lemma_nl_end_unique(t, 0, j - i);
        assert(ts.subrange(i, j) =~= t.subrange(0, j - i));
        if j < ts.len() {
            lemma_rows_from_skip(ts, j + 1);
            lemma_rows_from_skip(t, j - i + 1);
            assert(ts.skip(j + 1) =~= t.skip(j - i + 1));
        }
    }
}

/// The width of a board: the length of its longest row.
pub open spec fn max_row_len(rs: Seq<Seq<Tok>>) -> int
    decreases rs.len(),
{
    if rs.len() == 0 {
        0
    } else {
        let m = max_row_len(rs.drop_last());
        if rs.last().len() > m {
            rs.last().len() as int
        } else {
            m
        }
    }
}

pub proof fn lemma_max_row_len(rs: Seq<Seq<Tok>>, i: int)
    requires
        0 <= i < rs.len(),
    ensures
        rs[i].len() <= max_row_len(rs),
        max_row_len(rs) >= 0,
    decreases rs.len(),
{
    if rs.len() > 0 {
        if i < rs.len() - 1 {
            lemma_max_row_len(rs.drop_last(), i);
        } else if rs.len() >= 2 {
            lemma_max_row_len(rs.drop_last(), 0);
        }
    }
}

/// Computes the board dimensions of one level body: width is the longest
/// row, height the number of rows.
pub fn get_board_dimensions(tokens: &[Token]) -> (dims: (usize, usize))
    ensures
        dims.0 == max_row_len(spec_rows(tok_views(tokens@))),
        dims.1 == spec_rows(tok_views(tokens@)).len(),
{
    let ghost ts = tok_views(tokens@);
    let ghost rows = spec_rows(ts);
    let mut x: usize = 0;
    let mut count: usize = 0;
    let mut y: usize = 0;
    let mut k: usize = 0;
    let ghost mut i0: int = 0;
    proof {
        assert(rows.skip(0) =~= rows);
        assert(rows.take(0) =~= Seq::<Seq<Tok>>::empty());
    }
    while k < tokens.len()
        invariant
            ts == tok_views(tokens@),
            ts.len() == tokens@.len(),
            rows == spec_rows(ts),
            k <= tokens@.len(),
            0 <= i0 <= k,
            count == k - i0,
            y <= k,
            y <= rows.len(),
            forall|m: int| i0 <= m < k ==> !((#[trigger] ts[m]) is NewLine),
            rows_from(ts, i0) == rows.skip(y as int),
            x == max_row_len(rows.take(y as int)),
        decreases tokens@.len() - k,
    {
        let is_nl = matches!(slice_index_get(tokens, k), Token::NewLine);
        proof {
            assert(ts[k as int] == tokens@[k as int]@);
        }
        if is_nl {
            proof {
                lemma_nl_end_unique(ts, i0, k as int);
                assert(rows_from(ts, i0) == seq![ts.subrange(i0, k as int)] + rows_from(
                    ts,
                    k + 1,
                ));
                assert(rows.skip(y as int)[0] == rows[y as int]);
                assert(rows[y as int] == ts.subrange(i0, k as int));
                assert(rows[y as int].len() == count);
                assert(rows_from(ts, k + 1) =~= rows.skip(y as int).skip(1));
                assert(rows.skip(y as int).skip(1) =~= rows.skip(y + 1));
                assert(rows.take(y + 1).drop_last() =~= rows.take(y as int));
                assert(rows.take(y + 1).last() == rows[y as int]);
            }
            if count > x {
                x = count;
            }
            count = 0;
            y += 1;
            proof {
                i0 = k + 1;
            }
        } else {
            count += 1;
        }
        k += 1;
    }
    proof {
        lemma_nl_end_unique(ts, i0, ts.len() as int);
        assert(rows_from(ts, i0) =~= Seq::<Seq<Tok>>::empty());
        assert(rows.skip(y as int).len() == 0);
        assert(y == rows.len());
        assert(rows.take(y as int) =~= rows);
    }
    (x, y)
}

/// Tokenizing a text that opens with one break-free line: that line's
/// tokens, then the rest's.
pub proof fn lemma_tokenize_cons(l: Seq<char>, rest: Seq<char>)
    requires
        forall|m: int| 0 <= m < l.len() ==> l[m] != '\n',
    ensures
        spec_tokenize(l + seq!['\n'] + rest) == (match (line_toks(l), spec_tokenize(rest)) {
            (Some(a), Some(b)) => Some(a + b),
            _ => None,
        }),
{
    let s = l + seq!['\n'] + rest;
    assert forall|m: int| 0 <= m < l.len() implies s[m] != '\n' by {
        assert(s[m] == l[m]);
    }
    assert(s[l.len() as int] == '\n');
    lemma_line_end_unique(s, 0, l.len() as int);
    assert(s.subrange(0, l.len() as int) =~= l);
    lemma_toks_from_skip(s, l.len() as int + 1);
    assert(s.skip(l.len() as int + 1) =~= rest);
}

/// Splitting a token stream that opens with one delimiter-free row closed by
/// a delimiter: that row, then the rest's rows.
pub proof fn lemma_rows_cons(row: Seq<Tok>, rest: Seq<Tok>)
    requires
        forall|m: int| 0 <= m < row.len() ==> !((#[trigger] row[m]) is NewLine),
    ensures
        spec_rows(row + seq![Tok::NewLine] + rest) == seq![row] + spec_rows(rest),
{
    let ts = row + seq![Tok::NewLine] + rest;
    assert forall|m: int| 0 <= m < row.len() implies !((#[trigger] ts[m]) is NewLine) by {
        assert(ts[m] == row[m]);
    }
    assert(ts[row.len() as int] is NewLine);
    lemma_nl_end_unique(ts, 0, row.len() as int);
    assert(ts.subrange(0, row.len() as int) =~= row);
    lemma_rows_from_skip(ts, row.len() as int + 1);
    assert(ts.skip(row.len() as int + 1) =~= rest);
}

/// The tile of one board cell: what the row token at that position writes,
/// `Empty` where the row is shorter than the board is wide.
pub open spec fn spec_cell(rows: Seq<Seq<Tok>>, y: int, x: int) -> Tile {
    if x < rows[y].len() {
        tile_of(rows[y][x])
    } else {
        Tile::Empty
    }
}

/// The board of a level body: height is the number of rows, width the
/// longest row, and every cell holds what its token writes, with short rows
/// padded by `Empty`.
pub open spec fn spec_board(rows: Seq<Seq<Tok>>, w: int) -> Seq<Seq<Tile>> {
    Seq::new(rows.len(), |y: int| Seq::new(w as nat, |x: int| spec_cell(rows, y, x)))
}

/// The entities one token at cursor `(x, y)` contributes.
pub open spec fn ent_of(t: Tok, x: int, y: int) -> Seq<Entity> {
    match t {
        Tok::Player => seq![Entity::Player(Coordinate { x: x as usize, y: y as usize })],
        Tok::PlayerAndGoal => seq![Entity::Player(Coordinate { x: x as usize, y: y as usize })],
        Tok::SokoBox => seq![Entity::SokoBox(Coordinate { x: x as usize, y: y as usize })],
        Tok::SokoBoxAndGoal => seq![Entity::SokoBox(Coordinate { x: x as usize, y: y as usize })],
        _ => Seq::empty(),
    }
}

/// The entities of one row, left to right.
pub open spec fn row_entities(row: Seq<Tok>, y: int) -> Seq<Entity>
    decreases row.len(),
{
    if row.len() == 0 {
        Seq::empty()
    } else {
        row_entities(row.drop_last(), y) + ent_of(row.last(), row.len() - 1, y)
    }
}

/// The entities of a level body, top to bottom, left to right within a row.
pub open spec fn rows_entities(rows: Seq<Seq<Tok>>) -> Seq<Entity>
    decreases rows.len(),
{
    if rows.len() == 0 {
        Seq::empty()
    } else {
        rows_entities(rows.drop_last()) + row_entities(rows.last(), rows.len() - 1)
    }
}

/// What one title-led token group parses to: `None` where the group does not
/// open with a title, or where the board would be too large for one
/// allocation on this machine.
pub open spec fn spec_parse_level(ts: Seq<Tok>) -> Option<WorldV> {
    if ts.len() == 0 || !(ts[0] is Text) {
        None
    } else {
        let rows = spec_rows(ts.skip(1));
        let w = max_row_len(rows);
        if w > isize::MAX as int || rows.len() > isize::MAX as int || w * rows.len() > isize::MAX
            as int {
            None
        } else {
            Some(
                WorldV {
                    name: ts[0]->Text_0,
                    board: spec_board(rows, w),
                    entities: rows_entities(rows),
                    camera_position: Coordinate { x: 0, y: 0 },
                },
            )
        }
    }
}

/// The board as far as the cursor has walked: cells above the cursor row,
/// and cells left of the cursor on its own row, hold their final tile; the
/// rest still hold the default.
pub open spec fn partial_board(rows: Seq<Seq<Tok>>, w: int, y: int, x: int) -> Seq<Seq<Tile>> {
    Seq::new(
        rows.len(),
        |yy: int|
            Seq::new(
                w as nat,
                |xx: int|
                    if yy < y || (yy == y && xx < x) {
                        spec_cell(rows, yy, xx)
                    } else {
                        Tile::Empty
                    },
            ),
    )
}

/// Parses one title-led token group into a `World`: reads the title, sizes
/// the board, then walks the tokens behind a cursor, writing tiles and
/// collecting entities. A group that does not open with a title is refused,
/// as is one whose board would be too large for one allocation.
///
/// The group must close each of its rows with a row delimiter, as every
/// group cut from `tokenize` output does.
pub fn parse_sokoban_level(tokens: Vec<Token>) -> (r: Result<World, String>)
    requires
        tok_views(tokens@).len() <= 1 || tok_views(tokens@).last() is NewLine,
    ensures
        match spec_parse_level(tok_views(tokens@)) {
            Some(wv) => r is Ok && r->Ok_0@ == wv,
            None => r is Err,
        },
        r is Err && (tok_views(tokens@).len() == 0 || !(tok_views(tokens@)[0] is Text))
            ==> r->Err_0@ == "Level must start with a title"@,
        r is Err && tok_views(tokens@).len() > 0 && tok_views(tokens@)[0] is Text
            ==> r->Err_0@ == "Level too large"@,
{
    let ghost ts = tok_views(tokens@);
    let ghost body = ts.skip(1);
    let ghost rows = spec_rows(body);
    if tokens.len() == 0 {
        return Err("Level must start with a title".to_owned());
    }
    let title = match slice_index_get(tokens.as_slice(), 0) {
        Token::Text(t) => t.clone(),
        _ => {
            proof {
                assert(!(ts[0] is Text));
            }
            return Err("Level must start with a title".to_owned());
        },
    };
    let tail = slice_subrange(tokens.as_slice(), 1, tokens.len());
    proof {
        assert(tok_views(tail@) =~= body);
    }
    let (w, h) = get_board_dimensions(tail);
    let lim: usize = isize::MAX as usize;
    let fits = w <= lim && h <= lim && (match w.checked_mul(h) {
        Some(p) => p <= lim,
        None => false,
    });
    if !fits {
        proof {
            if w <= lim && h <= lim {
                assert(w * rows.len() > isize::MAX as int) by (nonlinear_arith)
                    requires
                        w as int * h as int > isize::MAX as int || w as int * h as int > usize::MAX
                            as int,
                        h == rows.len(),
                        isize::MAX as int <= usize::MAX as int,
                ;
            }
        }
        return Err("Level too large".to_owned());
    }
    let mut board = Board::new(h, w);
    let mut entities: Vec<Entity> = Vec::new();
    let mut x: usize = 0;
    let mut y: usize = 0;
    let mut k: usize = 1;
    let ghost mut i0: int = 0;
    proof {
        assert(rows.skip(0) =~= rows);
        assert(rows.take(0) =~= Seq::<Seq<Tok>>::empty());
        assert(grid_seq(board) =~~= partial_board(rows, w as int, 0, 0));
        if rows.len() > 0 {
            assert(rows[0].take(0) =~= Seq::<Tok>::empty());
        }
    }
    while k < tokens.len()
        invariant
            ts == tok_views(tokens@),
            ts.len() == tokens@.len(),
            body == ts.skip(1),
            body.len() == 0 || body.last() is NewLine,
            rows == spec_rows(body),
            w == max_row_len(rows),
            h == rows.len(),
            1 <= k <= tokens@.len(),
            0 <= i0 <= k - 1,
            x == k - 1 - i0,
            y <= k - 1,
            y <= rows.len(),
            forall|m: int| i0 <= m < k - 1 ==> !((#[trigger] body[m]) is NewLine),
            rows_from(body, i0) == rows.skip(y as int),
            grid_seq(board) == partial_board(rows, w as int, y as int, x as int),
            entities@ == rows_entities(rows.take(y as int)) + (if y < rows.len() {
                row_entities(rows[y as int].take(x as int), y as int)
            } else {
                Seq::empty()
            }),
        decreases tokens@.len() - k,
    {
        let ghost kk = k - 1;
        proof {
            assert(body[kk as int] == ts[k as int]);
            assert(ts[k as int] == tokens@[k as int]@);
        }
        let tok = slice_index_get(tokens.as_slice(), k);
        if matches!(tok, Token::NewLine) {
            proof {
                lemma_nl_end_unique(body, i0, kk as int);
                assert(rows_from(body, i0) == seq![body.subrange(i0, kk as int)] + rows_from(
                    body,
                    kk + 1,
                ));
                assert(rows.skip(y as int)[0] == rows[y as int]);
                assert(rows[y as int] == body.subrange(i0, kk as int));
                assert(rows[y as int].len() == x);
                assert(rows_from(body, kk + 1) =~= rows.skip(y as int).skip(1));
                assert(rows.skip(y as int).skip(1) =~= rows.skip(y + 1));
                // the finished row's entities
                assert(rows.take(y + 1).drop_last() =~= rows.take(y as int));
                assert(rows.take(y + 1).last() == rows[y as int]);
                assert(rows[y as int].take(x as int) =~= rows[y as int]);
                assert(rows_entities(rows.take(y + 1)) == rows_entities(rows.take(y as int))
                    + row_entities(rows[y as int], y as int));
                if y + 1 < rows.len() {
                    assert(rows[y + 1].take(0) =~= Seq::<Tok>::empty());
                }
                assert(entities@ == rows_entities(rows.take(y + 1)) + (if y + 1 < rows.len() {
                    row_entities(rows[y + 1].take(0), y + 1)
                } else {
                    Seq::<Entity>::empty()
                }));
                // the board does not change: the finished row had no cells left
                assert(partial_board(rows, w as int, y as int, x as int) =~~= partial_board(
                    rows,
                    w as int,
                    y + 1,
                    0,
                ));
                i0 = kk + 1;
            }
            y += 1;
            x = 0;
        } else {
            proof {
                // the cursor stands inside a delimited row
                if y == rows.len() {
                    lemma_nl_end(body, i0);
                    assert(rows_from(body, i0).len() == 0);
                    assert(nl_end(body, i0) == body.len());
                    assert(!(body[body.len() - 1] is NewLine));
                    assert(false);
                }
                assert(rows.skip(y as int)[0] == rows[y as int]);
                lemma_nl_end(body, i0);
                let j = nl_end(body, i0);
                assert(j < body.len());
                assert(rows_from(body, i0) == seq![body.subrange(i0, j)] + rows_from(body, j + 1));
                assert(rows[y as int] == body.subrange(i0, j));
                if j <= kk {
                    assert(body[j] is NewLine);
                    assert(false);
                }
                assert(x < rows[y as int].len());
                assert(rows[y as int][x as int] == body[kk as int]);
                lemma_max_row_len(rows, y as int);
                assert(x < w);
                // the row prefix grows by this token
                assert(rows[y as int].take(x + 1).drop_last() =~= rows[y as int].take(x as int));
                assert(rows[y as int].take(x + 1).last() == rows[y as int][x as int]);
            }
            match tok {
                Token::Wall => {
                    board.set(y, x, Tile::Wall);
                },
                Token::Goal => {
                    board.set(y, x, Tile::Goal);
                },
                Token::SokoBoxAndGoal => {
                    board.set(y, x, Tile::Goal);
                    entities.push(Entity::SokoBox(Coordinate { x, y }));
                },
                Token::PlayerAndGoal => {
                    board.set(y, x, Tile::Goal);
                    entities.push(Entity::Player(Coordinate { x, y }));
                },
                Token::Player => {
                    entities.push(Entity::Player(Coordinate { x, y }));
                },
                Token::SokoBox => {
                    entities.push(Entity::SokoBox(Coordinate { x, y }));
                },
                _ => {},
            }
            proof {
                assert(grid_seq(board) =~~= partial_board(rows, w as int, y as int, x + 1));
                assert(entities@ =~= rows_entities(rows.take(y as int)) + row_entities(
                    rows[y as int].take(x + 1),
                    y as int,
                ));
            }
            x += 1;
        }
        k += 1;
    }
    proof {
        // at the end the cursor stands right after the final delimiter
        if i0 < k - 1 {
            assert(!(body[k - 2] is NewLine));
            assert(body.last() is NewLine);
            assert(false);
        }
        lemma_nl_end_unique(body, i0, body.len() as int);
        assert(rows_from(body, i0) =~= Seq::<Seq<Tok>>::empty());
        assert(y == rows.len());
        assert(rows.take(y as int) =~= rows);
        assert(entities@ == rows_entities(rows));
        assert(grid_seq(board) =~~= spec_board(rows, w as int));
    }
    let world = World { name: title, board, entities, camera_position: Coordinate { x: 0, y: 0 } };
    proof {
        assert(w * rows.len() <= isize::MAX as int) by (nonlinear_arith)
            requires
                w as int * h as int <= isize::MAX as int,
                h == rows.len(),
        ;
        assert(world@ == spec_parse_level(ts)->Some_0);
    }
    Ok(world)
}

/// Scans the text line by line into tokens: `None` on the first board
/// character outside the table, else the token sequence that
/// `spec_tokenize` gives.
pub fn tokenize(contents: &str) -> (r: Option<Vec<Token>>)
    ensures
        match r {
            Some(v) => spec_tokenize(contents@) == Some(tok_views(v@)),
            None => spec_tokenize(contents@) is None,
        },
{
    let s = Ghost(contents@);
    let n = contents.unicode_len();
    let mut toks: Vec<Token> = Vec::new();
    let mut i: usize = 0;
    let mut done = false;
    while !done
        invariant
            n == s@.len(),
            s@ == contents@,
            i <= n,
            !done ==> match toks_from(s@, i as int) {
                Some(rest) => toks_from(s@, 0) == Some(tok_views(toks@) + rest),
                None => toks_from(s@, 0) is None,
            },
            done ==> toks_from(s@, 0) == Some(tok_views(toks@)),
        decreases n - i + (if done {
            0int
        } else {
            1int
        }),
    {
        if i >= n {
            proof {
                assert(toks_from(s@, n as int) == Some(Seq::<Tok>::empty()));
                assert(tok_views(toks@) + Seq::<Tok>::empty() =~= tok_views(toks@));
            }
            done = true;
            continue;
        }
        // find the end of the line that starts at i
        let mut j: usize = i;
        while j < n && contents.get_char(j) != '\n'
            invariant
                n == s@.len(),
                s@ == contents@,
                i <= j <= n,
                forall|m: int| i <= m < j ==> s@[m] != '\n',
            decreases n - j,
        {
            j += 1;
        }
        proof {
            lemma_line_end_unique(s@, i as int, j as int);
        }
        let ghost l0 = s@.subrange(i as int, j as int);
        // a trailing carriage return is not part of the line
        let e = if j > i && contents.get_char(j - 1) == '\r' {
            j - 1
        } else {
            j
        };
        proof {
            assert(s@.subrange(i as int, e as int) =~= strip_cr(l0));
        }
        let ghost l = strip_cr(l0);
        let ghost pre = tok_views(toks@);
        if e == i {
            // blank line: no tokens
            proof {
                assert(line_toks(l0) == Some(Seq::<Tok>::empty()));
            }
        } else if contents.get_char(i) == ';' {
            // title line: the text after the two-character marker
            let start = if e - i >= 2 {
                i + 2
            } else {
                e
            };
            let title = contents.substring_char(start, e).to_owned();
            proof {
                assert(title@ =~= title_of(l));
            }
            let t = Token::Text(title);
            proof {
                lemma_tok_views_push(toks@, t);
            }
            toks.push(t);
            proof {
                assert(line_toks(l0) == Some(seq![Tok::Text(title_of(l))]));
                assert(pre + seq![Tok::Text(title_of(l))] =~= tok_views(toks@));
            }
        } else {
            // board row: one token per character, then a row delimiter
            proof {
                assert(l.take(0) =~= Seq::<char>::empty());
                assert(tok_views(toks@).skip(pre.len() as int) =~= Seq::<Tok>::empty());
                assert(tok_views(toks@) =~= pre + Seq::<Tok>::empty());
                assert(pre =~= tok_views(toks@).take(pre.len() as int));
            }
            let mut k = i;
            while k < e
                invariant
                    n == s@.len(),
                    s@ == contents@,
                    i <= k <= e <= j <= n,
                    i < n,
                    e > i,
                    s@[i as int] != ';',
                    line_end(s@, i as int) == j as int,
                    l0 == s@.subrange(i as int, j as int),
                    l == strip_cr(l0),
                    l == s@.subrange(i as int, e as int),
                    row_toks(l.take(k - i)) == Some(tok_views(toks@).skip(pre.len() as int)),
                    tok_views(toks@) == pre + tok_views(toks@).skip(pre.len() as int),
                    pre == tok_views(toks@).take(pre.len() as int),
                    match toks_from(s@, i as int) {
                        Some(rest) => toks_from(s@, 0) == Some(pre + rest),
                        None => toks_from(s@, 0) is None,
                    },
                decreases e - k,
            {
                let c = contents.get_char(k);
                let t = match c {
                    '#' => Token::Wall,
                    '@' => Token::Player,
                    '$' => Token::SokoBox,
                    '.' => Token::Goal,
                    '*' => Token::SokoBoxAndGoal,
                    '+' => Token::PlayerAndGoal,
                    ' ' => Token::Empty,
                    _ => {
                        proof {
                            assert(l.len() == e - i);
                            assert(l[0] == s@[i as int]);
                            assert(l[k - i] == s@[k as int]);
                            assert(char_tok(l[k - i]) is None);
                            lemma_row_toks_poison(l, k - i);
                            assert(line_toks(l0) is None);
                            assert(toks_from(s@, i as int) is None);
                        }
                        return None;
                    },
                };
                proof {
                    lemma_tok_views_push(toks@, t);
                    assert(l.take(k - i + 1).drop_last() =~= l.take(k - i));
                    assert(l.take(k - i + 1).last() == s@[k as int]);
                    assert(char_tok(s@[k as int]) == Some(t@));
                }
                toks.push(t);
                proof {
                    assert(tok_views(toks@).skip(pre.len() as int) =~= row_toks(l.take(
                        k + 1 - i,
                    ))->Some_0);
                    assert(tok_views(toks@) =~= pre + tok_views(toks@).skip(pre.len() as int));
                }
                k += 1;
            }
            proof {
                assert(l.take(e - i) =~= l);
                lemma_tok_views_push(toks@, Token::NewLine);
            }
            toks.push(Token::NewLine);
            proof {
                assert(l.len() > 0 && l[0] != ';');
                assert(line_toks(l0) == Some(row_toks(l)->Some_0.push(Tok::NewLine)));
                assert(tok_views(toks@) =~= pre + row_toks(l)->Some_0.push(Tok::NewLine));
            }
        }
        // account the finished line against the spec model
        proof {
            let ts = line_toks(l0)->Some_0;
            assert(tok_views(toks@) == pre + ts);
            if (j as int) == s@.len() {
                assert(toks_from(s@, i as int) == Some(ts));
            } else {
                match toks_from(s@, j + 1) {
                    Some(rest) => {
                        assert(toks_from(s@, i as int) == Some(ts + rest));
                        assert((pre + (ts + rest)) =~= (tok_views(toks@) + rest));
                    },
                    None => {
                        assert(toks_from(s@, i as int) is None);
                    },
                }
            }
        }
        if j < n {
            i = j + 1;
        } else {
            done = true;
        }
    }
    Some(toks)
}

/// The index of the first title token at or after `i`, or the end of the
/// token sequence.
pub open spec fn next_text(ts: Seq<Tok>, i: int) -> int
    decreases ts.len() - i,
{
    if i < 0 || i >= ts.len() {
        ts.len() as int
    } else if ts[i] is Text {
        i
    } else {
        next_text(ts, i + 1)
    }
}

pub proof fn lemma_next_text(ts: Seq<Tok>, i: int)
    requires
        0 <= i <= ts.len(),
    ensures
        i <= next_text(ts, i) <= ts.len(),
        next_text(ts, i) < ts.len() ==> ts[next_text(ts, i)] is Text,
        forall|m: int| i <= m < next_text(ts, i) ==> !((#[trigger] ts[m]) is Text),
    decreases ts.len() - i,
{
    if i < ts.len() && !(ts[i] is Text) {
        lemma_next_text(ts, i + 1);
    }
}

pub proof fn lemma_next_text_unique(ts: Seq<Tok>, i: int, j: int)
    requires
        0 <= i <= j <= ts.len(),
        forall|m: int| i <= m < j ==> !((#[trigger] ts[m]) is Text),
        j < ts.len() ==> ts[j] is Text,
    ensures
        next_text(ts, i) == j,
{
    lemma_next_text(ts, i);
    let je = next_text(ts, i);
    if je < j {
        assert(ts[je] is Text);
    } else if j < je {
        assert(!(ts[j] is Text));
    }
}

/// The title-led groups of a token stream from `i` on: each group opens at a
/// title token and runs up to, but not including, the next one.
pub open spec fn groups_from(ts: Seq<Tok>, i: int) -> Seq<Seq<Tok>>
    decreases ts.len() - i,
    when 0 <= i <= ts.len()
    via groups_from_decreases
{
    if i == ts.len() {
        Seq::empty()
    } else {
        let j = next_text(ts, i + 1);
        seq![ts.subrange(i, j)] + groups_from(ts, j)
    }
}

#[via_fn]
proof fn groups_from_decreases(ts: Seq<Tok>, i: int) {
    if i < ts.len() {
        lemma_next_text(ts, i + 1);
    }
}

/// The title-led groups of a token stream. Tokens before the first title
/// belong to no group and are discarded.
pub open spec fn spec_groups(ts: Seq<Tok>) -> Seq<Seq<Tok>> {
    groups_from(ts, next_text(ts, 0))
}

/// The values of a sequence of token groups.
pub open spec fn group_views(gs: Seq<Vec<Token>>) -> Seq<Seq<Tok>> {
    gs.map_values(|g: Vec<Token>| tok_views(g@))
}

/// In a stream of tokenizer output, the token right before a title token, or
/// before the end of the stream, is itself a title or a row delimiter: every
/// board row was closed by its delimiter.
pub open spec fn stream_q(ts: Seq<Tok>) -> bool {
    forall|m: int|
        0 <= m < ts.len() && (m == ts.len() - 1 || ts[m + 1] is Text) ==> ((#[trigger] ts[m])
            is Text || ts[m] is NewLine)
}

/// What `line_toks` can yield: nothing, one title token, or a row of board
/// tokens closed by a delimiter.
pub open spec fn chunk_ok(lt: Seq<Tok>) -> bool {
    ||| lt.len() == 0
    ||| (lt.len() == 1 && lt[0] is Text)
    ||| (lt.len() >= 1 && lt.last() is NewLine && forall|m: int|
        0 <= m < lt.len() ==> !((#[trigger] lt[m]) is Text))
}

pub proof fn lemma_line_chunk(l: Seq<char>)
    requires
        line_toks(l) is Some,
    ensures
        chunk_ok(line_toks(l)->Some_0),
{
    let lt = line_toks(l)->Some_0;
    let ls = strip_cr(l);
    if ls.len() == 0 {
    } else if ls[0] == ';' {
    } else {
        let rt = row_toks(ls)->Some_0;
        lemma_row_toks_len(ls);
        assert forall|m: int| 0 <= m < lt.len() implies !((#[trigger] lt[m]) is Text) by {
            if m < lt.len() - 1 {
                assert(lt[m] == rt[m]);
                assert(char_tok(ls[m]) == Some(rt[m]));
            }
        }
    }
}

pub proof fn lemma_chunk_q(a: Seq<Tok>)
    requires
        chunk_ok(a),
    ensures
        stream_q(a),
{
}

pub proof fn lemma_q_concat(a: Seq<Tok>, b: Seq<Tok>)
    requires
        chunk_ok(a),
        stream_q(b),
    ensures
        stream_q(a + b),
{
    let c = a + b;
    assert forall|m: int|
        0 <= m < c.len() && (m == c.len() - 1 || c[m + 1] is Text) implies ((#[trigger] c[m])
        is Text || c[m] is NewLine) by {
        if m < a.len() {
            if m == a.len() - 1 {
                assert(c[m] == a.last());
            } else {
                assert(c[m] == a[m]);
                assert(c[m + 1] == a[m + 1]);
            }
        } else {
            let mb = m - a.len();
            assert(c[m] == b[mb]);
            if m < c.len() - 1 {
                assert(c[m + 1] == b[mb + 1]);
            }
        }
    }
}

/// Every stream the tokenizer yields closes its board rows: see `stream_q`.
pub proof fn lemma_toks_q(s: Seq<char>, i: int)
    requires
        0 <= i <= s.len(),
        toks_from(s, i) is Some,
    ensures
        stream_q(toks_from(s, i)->Some_0),
    decreases s.len() - i,
{
    if i == s.len() {
    } else {
        lemma_line_end(s, i);
        let j = line_end(s, i);
        let lt = line_toks(s.subrange(i, j))->Some_0;
        lemma_line_chunk(s.subrange(i, j));
        if j == s.len() {
            lemma_chunk_q(lt);
        } else {
            lemma_toks_q(s, j + 1);
            lemma_q_concat(lt, toks_from(s, j + 1)->Some_0);
        }
    }
}

/// A title-led group cut from a well-shaped stream: it opens with a title
/// and, past the title, closes with a row delimiter.
pub open spec fn group_ok(g: Seq<Tok>) -> bool {
    g.len() >= 1 && g[0] is Text && (g.len() <= 1 || g.last() is NewLine)
}

#[verifier::rlimit(50)]
pub proof fn lemma_groups_ok(ts: Seq<Tok>, i: int)
    requires
        stream_q(ts),
        0 <= i <= ts.len(),
        i < ts.len() ==> ts[i] is Text,
    ensures
        forall|gi: int|
            0 <= gi < groups_from(ts, i).len() ==> group_ok(#[trigger] groups_from(ts, i)[gi]),
    decreases ts.len() - i,
{
    if i < ts.len() {
        let j = next_text(ts, i + 1);
        lemma_next_text(ts, i + 1);
        let g = ts.subrange(i, j);
        assert(g[0] == ts[i]);
        if g.len() > 1 {
            assert(g.last() == ts[j - 1]);
            assert(!(ts[j - 1] is Text));
            assert(j - 1 == ts.len() - 1 || ts[j] is Text);
            assert(ts[j - 1] is NewLine);
        }
        assert(group_ok(g));
        lemma_groups_ok(ts, j);
        assert forall|gi: int| 0 <= gi < groups_from(ts, i).len() implies group_ok(
            #[trigger] groups_from(ts, i)[gi],
        ) by {
            if gi == 0 {
                assert(groups_from(ts, i)[0] == g);
            } else {
                assert(groups_from(ts, i)[gi] == groups_from(ts, j)[gi - 1]);
            }
        }
    }
}

/// A copy of one token, same value.
fn clone_token(t: &Token) -> (r: Token)
    ensures
        r@ == t@,
{
    match t {
        Token::Text(s) => Token::Text(s.clone()),
        Token::Wall => Token::Wall,
        Token::Player => Token::Player,
        Token::SokoBox => Token::SokoBox,
        Token::Goal => Token::Goal,
        Token::SokoBoxAndGoal => Token::SokoBoxAndGoal,
        Token::PlayerAndGoal => Token::PlayerAndGoal,
        Token::Empty => Token::Empty,
        Token::NewLine => Token::NewLine,
    }
}

/// Cuts the token stream into one group per title token, each group running
/// from its title up to the next. Tokens before the first title are
/// discarded.
pub fn group_sokoban_tokens(tokens: Vec<Token>) -> (groups: Vec<Vec<Token>>)
    ensures
        group_views(groups@) == spec_groups(tok_views(tokens@)),
{
    let ghost ts = tok_views(tokens@);
    let ghost gs = spec_groups(ts);
    let mut groups: Vec<Vec<Token>> = Vec::new();
    let mut k: usize = 0;
    while k < tokens.len() && !matches!(slice_index_get(tokens.as_slice(), k), Token::Text(_))
        invariant
            ts == tok_views(tokens@),
            ts.len() == tokens@.len(),
            k <= ts.len(),
            forall|m: int| 0 <= m < k ==> !((#[trigger] ts[m]) is Text),
        decreases tokens@.len() - k,
    {
        proof {
            assert(ts[k as int] == tokens@[k as int]@);
        }
        k += 1;
    }
    proof {
        assert(k < tokens@.len() ==> ts[k as int] == tokens@[k as int]@);
        lemma_next_text_unique(ts, 0, k as int);
        assert(gs.skip(0) =~= gs);
        assert(group_views(groups@) =~= gs.take(0));
    }
    while k < tokens.len()
        invariant
            ts == tok_views(tokens@),
            ts.len() == tokens@.len(),
            k <= ts.len(),
            k < ts.len() ==> ts[k as int] is Text,
            groups@.len() <= gs.len(),
            groups_from(ts, k as int) == gs.skip(groups@.len() as int),
            group_views(groups@) == gs.take(groups@.len() as int),
        decreases tokens@.len() - k,
    {
        let mut cur: Vec<Token> = Vec::new();
        cur.push(clone_token(slice_index_get(tokens.as_slice(), k)));
        proof {
            assert(ts[k as int] == tokens@[k as int]@);
            assert(tok_views(cur@) =~= ts.subrange(k as int, k + 1));
        }
        let mut m = k + 1;
        while m < tokens.len() && !matches!(slice_index_get(tokens.as_slice(), m), Token::Text(_))
            invariant
                ts == tok_views(tokens@),
                ts.len() == tokens@.len(),
                k < m <= ts.len(),
                tok_views(cur@) == ts.subrange(k as int, m as int),
                forall|p: int| k < p < m ==> !((#[trigger] ts[p]) is Text),
            decreases tokens@.len() - m,
        {
            let t = clone_token(slice_index_get(tokens.as_slice(), m));
            proof {
                assert(ts[m as int] == tokens@[m as int]@);
                lemma_tok_views_push(cur@, t);
            }
            cur.push(t);
            proof {
                assert(tok_views(cur@) =~= ts.subrange(k as int, m + 1));
            }
            m += 1;
        }
        proof {
            assert(m < tokens@.len() ==> ts[m as int] == tokens@[m as int]@);
            lemma_next_text_unique(ts, k + 1, m as int);
            let g = groups@.len() as int;
            assert(groups_from(ts, k as int) == seq![ts.subrange(k as int, m as int)]
                + groups_from(ts, m as int));
            assert(gs.skip(g)[0] == gs[g]);
            assert(gs[g] == ts.subrange(k as int, m as int));
            assert(groups_from(ts, m as int) =~= gs.skip(g).skip(1));
            assert(gs.skip(g).skip(1) =~= gs.skip(g + 1));
            assert(group_views(groups@.push(cur)) =~= group_views(groups@).push(tok_views(cur@)));
            assert(gs.take(g + 1).drop_last() =~= gs.take(g));
            assert(group_views(groups@.push(cur)) =~= gs.take(g + 1));
        }
        groups.push(cur);
        k = m;
    }
    proof {
        assert(gs.skip(groups@.len() as int).len() == 0);
        assert(groups@.len() == gs.len());
        assert(gs.take(gs.len() as int) =~= gs);
    }
    groups
}

/// The values of a sequence of worlds.
pub open spec fn world_views(ws: Seq<World>) -> Seq<WorldV> {
    ws.map_values(|w: World| w@)
}

/// The worlds of a sequence of token groups: groups that fail level parsing
/// are dropped, the rest parse in order.
pub open spec fn worlds_of_groups(gs: Seq<Seq<Tok>>) -> Seq<WorldV>
    decreases gs.len(),
{
    if gs.len() == 0 {
        Seq::empty()
    } else {
        worlds_of_groups(gs.drop_last()) + (match spec_parse_level(gs.last()) {
            Some(wv) => seq![wv],
            None => Seq::empty(),
        })
    }
}

/// What a whole level-set text parses to: `None` on a character outside the
/// board table, else the worlds of its title-led groups, in source order.
pub open spec fn spec_parse_worlds(s: Seq<char>) -> Option<Seq<WorldV>> {
    match spec_tokenize(s) {
        None => None,
        Some(ts) => Some(worlds_of_groups(spec_groups(ts))),
    }
}

/// Parses a level-set text into its worlds: tokenization failure fails the
/// whole call; a group that fails level parsing is silently dropped.
#[verifier::rlimit(50)]
pub fn parse_sokoban_worlds(sokoban_text: &str) -> (r: Result<Vec<World>, String>)
    ensures
        match r {
            Ok(ws) => spec_parse_worlds(sokoban_text@) == Some(world_views(ws@)),
            Err(e) => spec_parse_worlds(sokoban_text@) is None && e@ == "Level failed to load"@,
        },
{
    let toks = match tokenize(sokoban_text) {
        Some(t) => t,
        None => {
            return Err("Level failed to load".to_owned());
        },
    };
    let ghost ts = tok_views(toks@);
    proof {
        lemma_toks_q(sokoban_text@, 0);
        lemma_next_text(ts, 0);
        lemma_groups_ok(ts, next_text(ts, 0));
    }
    let groups = group_sokoban_tokens(toks);
    let ghost gs = spec_groups(ts);
    let mut worlds: Vec<World> = Vec::new();
    let mut i: usize = 0;
    proof {
        assert(gs.take(0) =~= Seq::<Seq<Tok>>::empty());
        assert(world_views(worlds@) =~= worlds_of_groups(gs.take(0)));
    }
    while i < groups.len()
        invariant
            gs == spec_groups(ts),
            group_views(groups@) == gs,
            groups@.len() == gs.len(),
            i <= gs.len(),
            forall|gi: int| 0 <= gi < gs.len() ==> group_ok(#[trigger] gs[gi]),
            world_views(worlds@) == worlds_of_groups(gs.take(i as int)),
        decreases groups@.len() - i,
    {
        let group = clone_tokens(slice_index_get(groups.as_slice(), i));
        proof {
            assert(group_views(groups@)[i as int] == gs[i as int]);
            assert(tok_views(group@) == gs[i as int]);
            assert(group_ok(gs[i as int]));
        }
        let parsed = parse_sokoban_level(group);
        proof {
            assert(gs.take(i + 1).drop_last() =~= gs.take(i as int));
            assert(gs.take(i + 1).last() == gs[i as int]);
        }
        match parsed {
            Ok(world) => {
                proof {
                    assert(world_views(worlds@.push(world)) =~= world_views(worlds@).push(world@));
                    assert(world_views(worlds@.push(world)) =~= worlds_of_groups(gs.take(i + 1)));
                }
                worlds.push(world);
            },
            Err(_) => {
                proof {
                    assert(world_views(worlds@) + Seq::<WorldV>::empty() =~= world_views(worlds@));
                }
            },
        }
        i += 1;
    }
    proof {
        assert(gs.take(gs.len() as int) =~= gs);
    }
    Ok(worlds)
}

/// A copy of a token group, same values.
fn clone_tokens(g: &Vec<Token>) -> (r: Vec<Token>)
    ensures
        tok_views(r@) == tok_views(g@),
{
    let mut r: Vec<Token> = Vec::new();
    let mut i: usize = 0;
    proof {
        assert(tok_views(r@) =~= tok_views(g@).take(0));
    }
    while i < g.len()
        invariant
            i <= g@.len(),
            tok_views(r@) == tok_views(g@).take(i as int),
        decreases g@.len() - i,
    {
        let t = clone_token(slice_index_get(g.as_slice(), i));
        proof {
            lemma_tok_views_push(r@, t);
            assert(tok_views(g@)[i as int] == g@[i as int]@);
            assert(tok_views(r@).push(t@) =~= tok_views(g@).take(i + 1));
        }
        r.push(t);
        i += 1;
    }
    proof {
        assert(tok_views(g@).take(g@.len() as int) =~= tok_views(g@));
    }
    r
}

} // verus!
