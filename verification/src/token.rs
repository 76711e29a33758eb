//! Tokens of the level-set text format, and the mathematical model of
//! tokenization.

use crate::types::Tile;
use vstd::prelude::*;

verus! {

/// One token of the level-set format: a title, one board character, or a
/// row delimiter.
#[derive(Clone, Debug)]
pub enum Token {
    Text(String),
    Wall,
    Player,
    SokoBox,
    Goal,
    SokoBoxAndGoal,
    PlayerAndGoal,
    Empty,
    NewLine,
}

/// The mathematical value of a `Token`.
pub enum Tok {
    Text(Seq<char>),
    Wall,
    Player,
    SokoBox,
    Goal,
    SokoBoxAndGoal,
    PlayerAndGoal,
    Empty,
    NewLine,
}

impl View for Token {
    type V = Tok;

    open spec fn view(&self) -> Tok {
        match self {
            Token::Text(s) => Tok::Text(s@),
            Token::Wall => Tok::Wall,
            Token::Player => Tok::Player,
            Token::SokoBox => Tok::SokoBox,
            Token::Goal => Tok::Goal,
            Token::SokoBoxAndGoal => Tok::SokoBoxAndGoal,
            Token::PlayerAndGoal => Tok::PlayerAndGoal,
            Token::Empty => Tok::Empty,
            Token::NewLine => Tok::NewLine,
        }
    }
}

/// The values of a sequence of tokens.
pub open spec fn tok_views(v: Seq<Token>) -> Seq<Tok> {
    v.map_values(|t: Token| t@)
}

pub proof fn lemma_tok_views_push(v: Seq<Token>, t: Token)
    ensures
        tok_views(v.push(t)) == tok_views(v).push(t@),
{
    assert(tok_views(v.push(t)) =~= tok_views(v).push(t@));
}

/// The board-character table: what one character of a board row stands for.
/// A character outside the table has no token and poisons the whole parse.
pub open spec fn char_tok(c: char) -> Option<Tok> {
    if c == '#' {
        Some(Tok::Wall)
    } else if c == '@' {
        Some(Tok::Player)
    } else if c == '$' {
        Some(Tok::SokoBox)
    } else if c == '.' {
        Some(Tok::Goal)
    } else if c == '*' {
        Some(Tok::SokoBoxAndGoal)
    } else if c == '+' {
        Some(Tok::PlayerAndGoal)
    } else if c == ' ' {
        Some(Tok::Empty)
    } else {
        None
    }
}

/// The tile a token writes to its board cell; tokens that write no tile
/// leave the default `Empty`.
pub open spec fn tile_of(t: Tok) -> Tile {
    match t {
        Tok::Wall => Tile::Wall,
        Tok::Goal => Tile::Goal,
        Tok::SokoBoxAndGoal => Tile::Goal,
        Tok::PlayerAndGoal => Tile::Goal,
        _ => Tile::Empty,
    }
}

/// The tokens of the characters of one board row, in order; `None` as soon
/// as one character is outside the table.
pub open spec fn row_toks(l: Seq<char>) -> Option<Seq<Tok>>
    decreases l.len(),
{
    if l.len() == 0 {
        Some(Seq::empty())
    } else {
        match (row_toks(l.drop_last()), char_tok(l.last())) {
            (Some(ts), Some(t)) => Some(ts.push(t)),
            _ => None,
        }
    }
}

pub proof fn lemma_row_toks_len(l: Seq<char>)
    requires
        row_toks(l) is Some,
    ensures
        row_toks(l)->Some_0.len() == l.len(),
        forall|m: int| 0 <= m < l.len() ==> char_tok(l[m]) == Some(row_toks(l)->Some_0[m]),
    decreases l.len(),
{
    if l.len() > 0 {
        lemma_row_toks_len(l.drop_last());
        let ts = row_toks(l)->Some_0;
        let pre = row_toks(l.drop_last())->Some_0;
        assert forall|m: int| 0 <= m < l.len() implies char_tok(l[m]) == Some(ts[m]) by {
            if m < l.len() - 1 {
                assert(l.drop_last()[m] == l[m]);
                assert(ts[m] == pre[m]);
            } else {
                assert(ts[m] == char_tok(l.last())->Some_0);
            }
        }
    }
}

/// A trailing carriage return is not part of a line.
pub open spec fn strip_cr(l: Seq<char>) -> Seq<char> {
    if l.len() > 0 && l.last() == '\r' {
        l.drop_last()
    } else {
        l
    }
}

/// The title of a title line: what follows the two-character `"; "` marker,
/// or the empty sequence where the line is shorter than the marker.
pub open spec fn title_of(l: Seq<char>) -> Seq<char> {
    if l.len() >= 2 {
        l.subrange(2, l.len() as int)
    } else {
        Seq::empty()
    }
}

/// The tokens of one line of the input. A line opening with `;` is a title
/// line and yields one `Text` token; a blank line yields nothing; any other
/// line yields one token per character and a closing `NewLine`, or poisons
/// the parse on a character outside the table.
pub open spec fn line_toks(l0: Seq<char>) -> Option<Seq<Tok>> {
    let l = strip_cr(l0);
    if l.len() == 0 {
        Some(Seq::empty())
    } else if l[0] == ';' {
        Some(seq![Tok::Text(title_of(l))])
    } else {
        match row_toks(l) {
            Some(ts) => Some(ts.push(Tok::NewLine)),
            None => None,
        }
    }
}

/// The index of the first line break at or after `i`, or the end of the text.
pub open spec fn line_end(s: Seq<char>, i: int) -> int
    decreases s.len() - i,
{
    if i < 0 || i >= s.len() {
        s.len() as int
    } else if s[i] == '\n' {
        i
    } else {
        line_end(s, i + 1)
    }
}

pub proof fn lemma_line_end(s: Seq<char>, i: int)
    requires
        0 <= i <= s.len(),
    ensures
        i <= line_end(s, i) <= s.len(),
        line_end(s, i) < s.len() ==> s[line_end(s, i)] == '\n',
        forall|m: int| i <= m < line_end(s, i) ==> s[m] != '\n',
    decreases s.len() - i,
{
    if i < s.len() && s[i] != '\n' {
        lemma_line_end(s, i + 1);
    }
}

/// The tokens of the text from position `i` on: line by line, each line up
/// to the next line break, `None` as soon as one line fails.
pub open spec fn toks_from(s: Seq<char>, i: int) -> Option<Seq<Tok>>
    decreases s.len() - i,
    when 0 <= i <= s.len()
    via toks_from_decreases
{
    if i == s.len() {
        Some(Seq::empty())
    } else {
        let j = line_end(s, i);
        match line_toks(s.subrange(i, j)) {
            None => None,
            Some(ts) => {
                if j == s.len() {
                    Some(ts)
                } else {
                    match toks_from(s, j + 1) {
                        None => None,
                        Some(rest) => Some(ts + rest),
                    }
                }
            },
        }
    }
}

#[via_fn]
proof fn toks_from_decreases(s: Seq<char>, i: int) {
    lemma_line_end(s, i);
}

/// The tokens of a whole level-set text, or `None` where some board row
/// holds a character outside the table.
pub open spec fn spec_tokenize(s: Seq<char>) -> Option<Seq<Tok>> {
    toks_from(s, 0)
}

} // verus!
