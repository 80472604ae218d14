//! The lines of a text and their literals.

use crate::parsing::literal::{line_token, parse_line, Literal, Token, LINE_FEED};
use vstd::prelude::*;
use vstd::slice::slice_subrange;

verus! {

/// Where the line that starts at `from` ends: at the next line feed, or at
/// the end of the text.
pub open spec fn line_end(s: Seq<u8>, from: int) -> int
    decreases s.len() - from,
{
    if 0 <= from < s.len() && s[from] != LINE_FEED {
        line_end(s, from + 1)
    } else {
        from
    }
}

/// Zero tokens or one, as a sequence.
pub open spec fn token_seq(token: Option<Token>) -> Seq<Token> {
    match token {
        Some(t) => seq![t],
        None => Seq::empty(),
    }
}

/// The tokens of a text, line by line, in the order of the lines.
pub open spec fn chunk_tokens(s: Seq<u8>) -> Seq<Token>
    decreases s.len(),
{
    if s.len() == 0 {
        Seq::empty()
    } else {
        let end = line_end(s, 0);
        let first = token_seq(line_token(s.take(end)));
        if end < s.len() {
            proof {
                lemma_line_end_bounds(s, 0);
            }
            first + chunk_tokens(s.skip(end + 1))
        } else {
            first
        }
    }
}

/// What the literals of a vector stand for.
pub open spec fn tokens_of(literals: Seq<Literal>) -> Seq<Token> {
    Seq::new(literals.len(), |i: int| literals[i]@)
}

/// A line ends within the text, holds no line feed, and is followed by one
/// unless the text ends with it.
pub proof fn lemma_line_end_bounds(s: Seq<u8>, from: int)
    requires
        0 <= from <= s.len(),
    ensures
        from <= line_end(s, from) <= s.len(),
        forall|i: int| from <= i < line_end(s, from) ==> #[trigger] s[i] != LINE_FEED,
        line_end(s, from) < s.len() ==> s[line_end(s, from)] == LINE_FEED,
    decreases s.len() - from,
{
    if from < s.len() && s[from] != LINE_FEED {
        lemma_line_end_bounds(s, from + 1);
    }
}

/// A line ends at the first line feed behind its start, or where the text
/// ends.
pub proof fn lemma_line_end(s: Seq<u8>, from: int, to: int)
    requires
        0 <= from <= to <= s.len(),
        forall|i: int| from <= i < to ==> #[trigger] s[i] != LINE_FEED,
        to < s.len() ==> s[to] == LINE_FEED,
    ensures
        line_end(s, from) == to,
    decreases to - from,
{
    if from < to {
        lemma_line_end(s, from + 1, to);
    }
}

/// A text that ends where a line ends can be read on its own: the tokens of
/// two such texts in a row are the tokens of the first, then those of the
/// second.
pub proof fn lemma_chunk_tokens_concat(a: Seq<u8>, b: Seq<u8>)
    requires
        a.len() > 0 ==> a.last() == LINE_FEED,
    ensures
        chunk_tokens(a + b) == chunk_tokens(a) + chunk_tokens(b),
    decreases a.len(),
{
    if a.len() > 0 {
        // The first line of `a` is the first line of the whole, and what
        // follows it in `a` ends where a line ends too.
        let whole = a + b;
        let end = line_end(a, 0);
        lemma_line_end_bounds(a, 0);
        lemma_line_end(whole, 0, end);
        assert(whole.take(end) =~= a.take(end));
        let rest = a.skip(end + 1);
        assert(whole.skip(end + 1) =~= rest + b);
        lemma_chunk_tokens_concat(rest, b);
        let first = token_seq(line_token(a.take(end)));
        assert(first + (chunk_tokens(rest) + chunk_tokens(b)) =~= (first + chunk_tokens(rest))
            + chunk_tokens(b));
    }
}

/// A single line, with or without its line feed, yields the token of the
/// line.
proof fn lemma_chunk_tokens_line(s: Seq<u8>, end: int)
    requires
        0 <= end <= s.len() <= end + 1,
        s.len() > 0,
        forall|i: int| 0 <= i < end ==> #[trigger] s[i] != LINE_FEED,
        end < s.len() ==> s[end] == LINE_FEED,
    ensures
        chunk_tokens(s) == token_seq(line_token(s.take(end))),
{
    lemma_line_end(s, 0, end);
    if end < s.len() {
        assert(chunk_tokens(s.skip(end + 1)) =~= Seq::<Token>::empty());
    }
}

/// Reads the literals of a text, one line at a time. Lines without a literal
/// are passed over.
pub fn parse_chunk<'a>(chunk: &'a [u8]) -> (literals: Vec<Literal<'a>>)
    ensures
        tokens_of(literals@) == chunk_tokens(chunk@),
{
    let mut literals: Vec<Literal<'a>> = Vec::new();
    let mut start: usize = 0;
    let mut i: usize = 0;
    while i < chunk.len()
        invariant
            start <= i <= chunk.len(),
            start > 0 ==> chunk@[start - 1] == LINE_FEED,
            forall|j: int| start <= j < i ==> #[trigger] chunk@[j] != LINE_FEED,
            tokens_of(literals@) == chunk_tokens(chunk@.take(start as int)),
        decreases chunk.len() - i,
    {
        if chunk[i] == LINE_FEED {
            let ghost done = chunk@.take(start as int);
            let ghost piece = chunk@.subrange(start as int, i + 1);
            let line: &'a [u8] = slice_subrange(chunk, start, i);
            let found: Option<Literal<'a>> = if i > start {
                parse_line(line)
            } else {
                None
            };
            if let Some(literal) = found {
                literals.push(literal);
            }
            proof {
                assert(piece.take(i - start) =~= line@);
                lemma_chunk_tokens_line(piece, i - start);
                lemma_chunk_tokens_concat(done, piece);
                assert(done + piece =~= chunk@.take(i + 1));
            }
            start = i + 1;
        }
        i += 1;
    }
    if start < chunk.len() {
        let ghost done = chunk@.take(start as int);
        let ghost piece = chunk@.skip(start as int);
        let line: &'a [u8] = slice_subrange(chunk, start, chunk.len());
        let found: Option<Literal<'a>> = parse_line(line);
        if let Some(literal) = found {
            literals.push(literal);
        }
        proof {
            assert(piece.take(piece.len() as int) =~= piece);
            lemma_chunk_tokens_line(piece, piece.len() as int);
            lemma_chunk_tokens_concat(done, piece);
            assert(done + piece =~= chunk@);
        }
    } else {
        proof {
            assert(chunk@.take(start as int) =~= chunk@);
        }
    }
    literals
}

} // verus!
