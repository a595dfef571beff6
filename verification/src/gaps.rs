//! Whitespace and comments stand for nothing.

use crate::chars::is_white;
use crate::grammar::{value_at, Outcome};
use crate::scan::{at, block_comment_end, line_comment_end, skip_trivia, skip_white, Context};
use crate::standard::{lemma_part_stands, stands};
use vstd::prelude::*;

verus! {

/// What can stand between tokens: a whitespace character, a comment up to the end of its line,
/// or a comment between `/*` and `*/`.
pub enum Piece {
    White(char),
    Hash(Seq<char>, char),
    Slashes(Seq<char>, char),
    Block(Seq<char>),
}

/// The text of a piece.
pub open spec fn piece_text(piece: Piece) -> Seq<char> {
    match piece {
        Piece::White(c) => seq![c],
        Piece::Hash(t, end) => seq!['#'] + t + seq![end],
        Piece::Slashes(t, end) => seq!['/', '/'] + t + seq![end],
        Piece::Block(t) => seq!['/', '*'] + t + seq!['*', '/'],
    }
}

/// Whether a text can be a comment in a line: it holds no line break, and no closing bracket or
/// brace, which would end the comment.
pub open spec fn is_line(t: Seq<char>) -> bool {
    forall|k: int|
        0 <= k < t.len() ==> #[trigger] t[k] != '\n' && t[k] != '\r' && t[k] != '}' && t[k] != ']'
}

/// Whether a piece is what it is called.
pub open spec fn piece_is_proper(piece: Piece) -> bool {
    match piece {
        Piece::White(c) => is_white(c),
        Piece::Hash(t, end) => is_line(t) && (end == '\n' || end == '\r'),
        Piece::Slashes(t, end) => is_line(t) && (end == '\n' || end == '\r'),
        Piece::Block(t) => forall|k: int|
            0 <= k && k + 1 < t.len() && #[trigger] t[k] == '*' ==> t[k + 1] != '/',
    }
}

/// The text of pieces one after the other.
pub open spec fn gap_text(pieces: Seq<Piece>) -> Seq<char>
    decreases pieces.len(),
{
    if pieces.len() == 0 {
        Seq::empty()
    } else {
        piece_text(pieces[0]) + gap_text(pieces.skip(1))
    }
}

/// Whether all pieces are proper.
pub open spec fn gap_is_proper(pieces: Seq<Piece>) -> bool {
    forall|k: int| 0 <= k < pieces.len() ==> piece_is_proper(#[trigger] pieces[k])
}

/// Whether a text is whitespace.
pub open spec fn all_white(w: Seq<char>) -> bool {
    forall|k: int| 0 <= k < w.len() ==> is_white(#[trigger] w[k])
}

pub proof fn lemma_white_run(s: Seq<char>, i: int, n: int)
    requires
        0 <= i <= n <= s.len(),
        forall|k: int| i <= k < n ==> is_white(#[trigger] s[k]),
    ensures
        skip_white(s, i) == skip_white(s, n),
        forall|f: bool| skip_trivia(s, i, f) == #[trigger] skip_trivia(s, n, f),
    decreases n - i,
{
    if i < n {
        lemma_white_run(s, i + 1, n);
        assert(is_white(s[i]));
        assert(skip_white(s, i) == skip_white(s, i + 1));
        assert forall|f: bool| skip_trivia(s, i, f) == #[trigger] skip_trivia(s, n, f) by {
            assert(skip_trivia(s, i, f) == skip_trivia(s, i + 1, f));
            assert(skip_trivia(s, n, f) == skip_trivia(s, n, f));
        }
    }
}

/// Whitespace ends at the first character that is none.
pub proof fn lemma_white_stands(s: Seq<char>, i: int, w: Seq<char>)
    requires
        stands(s, i, w),
        all_white(w),
    ensures
        skip_white(s, i) == skip_white(s, i + w.len()),
        forall|f: bool| skip_trivia(s, i, f) == #[trigger] skip_trivia(s, i + w.len(), f),
{
    lemma_part_stands(s, i, w, 0, w.len() as int);
    assert forall|k: int| i <= k < i + w.len() implies is_white(#[trigger] s[k]) by {
        assert(s[i + (k - i)] == w[k - i]);
    }
    lemma_white_run(s, i, i + w.len());
}

/// At a character that is neither whitespace nor the start of a comment nothing is skipped.
pub proof fn lemma_no_trivia(s: Seq<char>, i: int)
    requires
        match at(s, i) {
            Some(c) => !is_white(c) && c != '#' && c != '/',
            None => true,
        },
    ensures
        skip_white(s, i) == i,
        skip_trivia(s, i, true) == i,
        skip_trivia(s, i, false) == i,
{
}

proof fn lemma_line_run(s: Seq<char>, i: int, n: int, f: bool)
    requires
        0 <= i <= n < s.len(),
        forall|k: int|
            i <= k < n ==> #[trigger] s[k] != '\n' && s[k] != '\r' && s[k] != '}' && s[k] != ']',
        s[n] == '\n' || s[n] == '\r' || (f && (s[n] == '}' || s[n] == ']')),
    ensures
        line_comment_end(s, i, f) == n,
    decreases n - i,
{
    if i < n {
        lemma_line_run(s, i + 1, n, f);
    }
}

proof fn lemma_block_run(s: Seq<char>, i: int, n: int)
    requires
        0 <= i <= n,
        n + 2 <= s.len(),
        forall|k: int| i <= k < n && #[trigger] s[k] == '*' ==> s[k + 1] != '/',
        s[n] == '*',
        s[n + 1] == '/',
    ensures
        block_comment_end(s, i) == n + 2,
    decreases n - i,
{
    if i < n {
        lemma_block_run(s, i + 1, n);
    }
}

proof fn lemma_piece(s: Seq<char>, i: int, piece: Piece, f: bool)
    requires
        piece_is_proper(piece),
        stands(s, i, piece_text(piece)),
    ensures
        skip_trivia(s, i, f) == skip_trivia(s, i + piece_text(piece).len(), f),
{
    let t = piece_text(piece);
    let n = t.len() as int;
    lemma_part_stands(s, i, t, 0, n);
    match piece {
        Piece::White(c) => {
            assert(s[i + 0] == t[0]);
            lemma_white_run(s, i, i + 1);
        },
        Piece::Hash(body, _) => {
            assert(s[i + 0] == t[0]);
            assert(s[i + (n - 1)] == t[n - 1]);
            assert forall|k: int| i + 1 <= k < i + n - 1 implies #[trigger] s[k] != '\n' && s[k]
                != '\r' && s[k] != '}' && s[k] != ']' by {
                assert(s[i + (k - i)] == t[k - i]);
                assert(t[k - i] == body[k - i - 1]);
            }
            lemma_line_run(s, i + 1, i + n - 1, f);
            lemma_white_run(s, i + n - 1, i + n);
            assert(skip_white(s, i) == i);
        },
        Piece::Slashes(body, _) => {
            assert(s[i + 0] == t[0] && s[i + 1] == t[1]);
            assert(s[i + (n - 1)] == t[n - 1]);
            assert forall|k: int| i + 2 <= k < i + n - 1 implies #[trigger] s[k] != '\n' && s[k]
                != '\r' && s[k] != '}' && s[k] != ']' by {
                assert(s[i + (k - i)] == t[k - i]);
                assert(t[k - i] == body[k - i - 2]);
            }
            lemma_line_run(s, i + 2, i + n - 1, f);
            lemma_white_run(s, i + n - 1, i + n);
            assert(skip_white(s, i) == i);
        },
        Piece::Block(body) => {
            assert(s[i + 0] == t[0] && s[i + 1] == t[1]);
            assert(s[i + (n - 2)] == t[n - 2]);
            assert(s[i + (n - 1)] == t[n - 1]);
            assert forall|k: int| i + 2 <= k < i + n - 2 && #[trigger] s[k] == '*' implies s[k + 1]
                != '/' by {
                assert(s[i + (k - i)] == t[k - i]);
                assert(s[i + (k + 1 - i)] == t[k + 1 - i]);
                assert(t[k - i] == body[k - i - 2]);
            }
            lemma_block_run(s, i + 2, i + n - 2);
            assert(skip_white(s, i) == i);
        },
    }
}

/// Whitespace and comments are passed over wherever they may stand.
pub proof fn lemma_gap(s: Seq<char>, i: int, pieces: Seq<Piece>, f: bool)
    requires
        gap_is_proper(pieces),
        stands(s, i, gap_text(pieces)),
    ensures
        skip_trivia(s, i, f) == skip_trivia(s, i + gap_text(pieces).len(), f),
    decreases pieces.len(),
{
    if pieces.len() > 0 {
        let t = gap_text(pieces);
        let first = piece_text(pieces[0]);
        let rest = gap_text(pieces.skip(1));
        let n = first.len() as int;
        lemma_part_stands(s, i, t, 0, n);
        lemma_part_stands(s, i, t, n, t.len() as int);
        assert(t.subrange(0, n) =~= first);
        assert(t.subrange(n, t.len() as int) =~= rest);
        lemma_piece(s, i, pieces[0], f);
        lemma_gap(s, i + n, pieces.skip(1), f);
    }
}

/// The value that comes next is the same with whitespace and comments before it as without.
pub proof fn lemma_gap_before_value(
    s: Seq<char>,
    i: int,
    pieces: Seq<Piece>,
    context: Context,
    strict: bool,
)
    requires
        gap_is_proper(pieces),
        stands(s, i, gap_text(pieces)),
    ensures
        value_at(s, i, context, strict) == value_at(
            s,
            i + gap_text(pieces).len(),
            context,
            strict,
        ),
{
    lemma_gap(s, i, pieces, true);
}

/// A comment in a line ends at any line break, and also at a bracket or brace that closes a
/// container.
pub proof fn lemma_comment_ends_at_closing(s: Seq<char>, i: int, t: Seq<char>, c: char)
    requires
        is_line(t),
        c == '}' || c == ']' || c == '\n' || c == '\r',
        stands(s, i, seq!['#'] + t + seq![c]) || stands(s, i, seq!['/', '/'] + t + seq![c]),
    ensures
        ({
            let n = if s[i] == '#' {
                i + 1 + t.len()
            } else {
                i + 2 + t.len()
            };
            forall|context: Context, strict: bool| #[trigger]
                value_at(s, i, context, strict) == value_at(s, n, context, strict)
        }),
{
    let (text, d) = if stands(s, i, seq!['#'] + t + seq![c]) {
        (seq!['#'] + t + seq![c], 1int)
    } else {
        (seq!['/', '/'] + t + seq![c], 2int)
    };
    let n = i + d + t.len();
    lemma_part_stands(s, i, text, 0, text.len() as int);
    assert(s[i + 0] == text[0] && s[i + 1] == text[1]);
    assert(s[i + (text.len() - 1)] == text[text.len() - 1]);
    assert forall|k: int| i + d <= k < n implies #[trigger] s[k] != '\n' && s[k] != '\r' && s[k]
        != '}' && s[k] != ']' by {
        assert(s[i + (k - i)] == text[k - i]);
        assert(text[k - i] == t[k - i - d]);
    }
    lemma_line_run(s, i + d, n, true);
    assert(skip_white(s, i) == i);
    assert(skip_trivia(s, i, true) == skip_trivia(s, n, true));
}

proof fn lemma_line_to_the_end(s: Seq<char>, i: int, f: bool)
    requires
        0 <= i <= s.len(),
        forall|k: int|
            i <= k < s.len() ==> #[trigger] s[k] != '\n' && s[k] != '\r' && s[k] != '}' && s[k]
                != ']',
    ensures
        line_comment_end(s, i, f) == s.len(),
    decreases s.len() - i,
{
    if i < s.len() {
        lemma_line_to_the_end(s, i + 1, f);
    }
}

proof fn lemma_block_to_the_end(s: Seq<char>, i: int)
    requires
        0 <= i <= s.len(),
        forall|k: int| i <= k && k + 1 < s.len() && #[trigger] s[k] == '*' ==> s[k + 1] != '/',
    ensures
        block_comment_end(s, i) == s.len(),
    decreases s.len() - i,
{
    if i < s.len() {
        lemma_block_to_the_end(s, i + 1);
    }
}

/// A comment that nothing ends goes on to the end of the text: there is no value in it.
pub proof fn lemma_comment_without_end(
    s: Seq<char>,
    i: int,
    comment: Piece,
    context: Context,
    strict: bool,
)
    requires
        piece_is_proper(comment),
        match comment {
            Piece::White(_) => false,
            Piece::Hash(t, _) => stands(s, i, seq!['#'] + t) && i + 1 + t.len() == s.len(),
            Piece::Slashes(t, _) => stands(s, i, seq!['/', '/'] + t) && i + 2 + t.len() == s.len(),
            Piece::Block(t) => stands(s, i, seq!['/', '*'] + t) && i + 2 + t.len() == s.len(),
        },
    ensures
        value_at(s, i, context, strict) == Outcome::Nothing(s.len() as int),
{
    let (head, t) = match comment {
        Piece::White(c) => (Seq::empty(), Seq::empty()),
        Piece::Hash(t, _) => (seq!['#'], t),
        Piece::Slashes(t, _) => (seq!['/', '/'], t),
        Piece::Block(t) => (seq!['/', '*'], t),
    };
    let whole = head + t;
    let d = head.len() as int;
    lemma_part_stands(s, i, whole, 0, whole.len() as int);
    assert(s[i + 0] == whole[0]);
    if d == 2 {
        assert(s[i + 1] == whole[1]);
    }
    assert forall|k: int| i + d <= k < s.len() implies #[trigger] s[k] == t[k - i - d] by {
        assert(s[i + (k - i)] == whole[k - i]);
    }
    if comment is Block {
        lemma_block_to_the_end(s, i + d);
    } else {
        lemma_line_to_the_end(s, i + d, true);
    }
    assert(skip_white(s, i) == i);
    lemma_no_trivia(s, s.len() as int);
    assert(skip_trivia(s, i, true) == s.len());
}

} // verus!
