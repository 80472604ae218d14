//! The partitions of a text among workers.
//!
//! A text is dealt out in equal shares, and each boundary between two shares
//! moves forward to the start of the next line. Every partition then holds
//! whole lines, and the partitions can be read apart from each other.

use crate::parsing::lines::{
    chunk_tokens, lemma_chunk_tokens_concat, lemma_line_end, lemma_line_end_bounds, line_end,
};
use crate::parsing::literal::{Token, LINE_FEED};
use vstd::prelude::*;

verus! {

/// The share of one worker when `len` bytes are dealt out among `workers`:
/// the quotient, rounded up.
pub open spec fn share_size(len: int, workers: int) -> int {
    if len % workers == 0 {
        len / workers
    } else {
        len / workers + 1
    }
}

/// The cut that belongs to the naive boundary `pos`: the start of the first
/// line that begins behind `pos`. There is none where `pos` lies at or
/// beyond the end of the text, or where no line ends behind it.
pub open spec fn cut_after(s: Seq<u8>, pos: int) -> Seq<usize> {
    if 0 <= pos < s.len() && line_end(s, pos) < s.len() {
        seq![(line_end(s, pos) + 1) as usize]
    } else {
        Seq::empty()
    }
}

/// The cuts of the naive boundaries `size`, `2 * size`, and so on up to the
/// one below `count * size`.
pub open spec fn cuts_up_to(s: Seq<u8>, size: int, count: int) -> Seq<usize>
    decreases count,
{
    if count <= 1 {
        Seq::empty()
    } else {
        cuts_up_to(s, size, count - 1) + cut_after(s, (count - 1) * size)
    }
}

/// The boundaries of the partitions of a text among `workers`: 0, the cuts
/// in between, and the length of the text.
pub open spec fn partition_cuts(s: Seq<u8>, workers: int) -> Seq<usize> {
    seq![0usize] + cuts_up_to(s, share_size(s.len() as int, workers), workers) + seq![
        s.len() as usize,
    ]
}

/// Whether `cuts` divides a text into partitions that lie side by side, from
/// the first byte to the last, each starting where a line starts.
pub open spec fn is_partition(s: Seq<u8>, cuts: Seq<usize>) -> bool {
    &&& cuts.len() >= 2
    &&& cuts[0] == 0
    &&& cuts.last() == s.len()
    &&& forall|i: int, j: int| 0 <= i <= j < cuts.len() ==> cuts[i] <= cuts[j]
    &&& forall|i: int|
        0 < i < cuts.len() - 1 ==> 0 < #[trigger] cuts[i] && s[cuts[i] - 1] == LINE_FEED
}

/// The tokens of the first `count` partitions, each partition read on its
/// own, in the order of the partitions.
pub open spec fn partition_tokens(s: Seq<u8>, cuts: Seq<usize>, count: int) -> Seq<Token>
    decreases count,
{
    if count <= 0 {
        Seq::empty()
    } else {
        partition_tokens(s, cuts, count - 1) + chunk_tokens(
            s.subrange(cuts[count - 1] as int, cuts[count] as int),
        )
    }
}

proof fn lemma_partition_prefix(s: Seq<u8>, cuts: Seq<usize>, count: int)
    requires
        is_partition(s, cuts),
        0 <= count < cuts.len(),
    ensures
        partition_tokens(s, cuts, count) == chunk_tokens(s.take(cuts[count] as int)),
    decreases count,
{
    if count > 0 {
        // The partitions before the last make up a text that ends where a
        // line ends, so the last partition can be read on its own.
        lemma_partition_prefix(s, cuts, count - 1);
        let from = cuts[count - 1] as int;
        let to = cuts[count] as int;
        let done = s.take(from);
        lemma_chunk_tokens_concat(done, s.subrange(from, to));
        assert(done + s.subrange(from, to) =~= s.take(to));
    }
}

/// Reading the partitions of a text one by one and putting the results in a
/// row gives what reading the whole text gives, however many partitions
/// there are and wherever between two lines they are cut.
pub proof fn lemma_partitions_preserve_tokens(s: Seq<u8>, cuts: Seq<usize>)
    requires
        is_partition(s, cuts),
    ensures
        partition_tokens(s, cuts, cuts.len() - 1) == chunk_tokens(s),
{
    lemma_partition_prefix(s, cuts, cuts.len() - 1);
    assert(s.take(s.len() as int) =~= s);
}

/// A line that starts later ends no earlier.
proof fn lemma_line_end_grows(s: Seq<u8>, from: int, later: int)
    requires
        0 <= from <= later <= s.len(),
    ensures
        line_end(s, from) <= line_end(s, later),
{
    lemma_line_end_bounds(s, from);
    lemma_line_end_bounds(s, later);
    let end = line_end(s, later);
    if end < line_end(s, from) {
        // The earlier line would run over the line feed that ends the
        // later one.
        assert(s[end] != LINE_FEED);
    }
}

proof fn lemma_cuts_stop(s: Seq<u8>, size: int, from: int, to: int)
    requires
        1 <= from <= to,
        size >= 0,
        from * size >= s.len(),
    ensures
        cuts_up_to(s, size, to) == cuts_up_to(s, size, from),
    decreases to - from,
{
    if from < to {
        lemma_cuts_stop(s, size, from, to - 1);
        assert((to - 1) * size >= from * size) by (nonlinear_arith)
            requires
                to - 1 >= from,
                size >= 0,
        ;
        assert(cuts_up_to(s, size, to - 1) + Seq::<usize>::empty() =~= cuts_up_to(
            s,
            size,
            to - 1,
        ));
    }
}

/// Finds the boundaries of the partitions of `region` among `workers`.
///
/// The region is dealt out in equal shares, and each boundary between two
/// shares moves forward to the start of the next line, so that no line is
/// cut in two. A boundary that would lie at or beyond the end is left out.
pub fn partition_boundaries(region: &[u8], workers: usize) -> (cuts: Vec<usize>)
    requires
        workers >= 1,
    ensures
        cuts@ == partition_cuts(region@, workers as int),
        is_partition(region@, cuts@),
        cuts.len() <= workers + 1,
{
    let len: usize = region.len();
    let size: usize = if len % workers == 0 {
        len / workers
    } else {
        proof {
            assert(len / workers < len) by (nonlinear_arith)
                requires
                    workers >= 1,
                    len % workers != 0,
            ;
        }
        len / workers + 1
    };
    let mut cuts: Vec<usize> = Vec::new();
    cuts.push(0);
    let mut naive: usize = 0;
    let mut i: usize = 1;
    proof {
        lemma_line_end_bounds(region@, 0);
    }
    while i < workers
        invariant
            1 <= i <= workers,
            len == region.len(),
            size == share_size(len as int, workers as int),
            naive == (i - 1) * size,
            naive < len || i == 1,
            forall|a: int|
                0 <= a < cuts.len() ==> #[trigger] cuts@[a] <= line_end(region@, naive as int) + 1,
            cuts@ == seq![0usize] + cuts_up_to(region@, size as int, i as int),
            1 <= cuts.len() <= i,
            cuts@[0] == 0,
            forall|a: int, b: int| 0 <= a <= b < cuts.len() ==> cuts@[a] <= cuts@[b],
            forall|a: int| 0 <= a < cuts.len() ==> #[trigger] cuts@[a] <= len,
            forall|a: int|
                0 < a < cuts.len() ==> 0 < #[trigger] cuts@[a] && region@[cuts@[a] - 1]
                    == LINE_FEED,
        ensures
            1 <= i <= workers,
            cuts@ == seq![0usize] + cuts_up_to(region@, size as int, workers as int),
            1 <= cuts.len() <= workers,
            cuts@[0] == 0,
            forall|a: int, b: int| 0 <= a <= b < cuts.len() ==> cuts@[a] <= cuts@[b],
            forall|a: int| 0 <= a < cuts.len() ==> #[trigger] cuts@[a] <= len,
            forall|a: int|
                0 < a < cuts.len() ==> 0 < #[trigger] cuts@[a] && region@[cuts@[a] - 1]
                    == LINE_FEED,
        decreases workers - i,
    {
        proof {
            assert(i * size == (i - 1) * size + size) by (nonlinear_arith);
        }
        if naive >= len || size >= len - naive {
            proof {
                lemma_cuts_stop(region@, size as int, i as int, workers as int);
            }
            break ;
        }
        naive = naive + size;
        let mut pos: usize = naive;
        while pos < len && region[pos] != LINE_FEED
            invariant
                naive <= pos <= len,
                len == region.len(),
                forall|j: int| naive <= j < pos ==> #[trigger] region@[j] != LINE_FEED,
            decreases len - pos,
        {
            pos += 1;
        }
        proof {
            lemma_line_end(region@, naive as int, pos as int);
            lemma_line_end_grows(region@, naive - size, naive as int);
        }
        if pos < len {
            cuts.push(pos + 1);
        }
        i += 1;
    }
    cuts.push(len);
    cuts
}

} // verus!
