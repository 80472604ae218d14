//! A whole region read partition by partition, on rayon's worker threads.

use crate::parsing::lines::{chunk_tokens, parse_chunk, tokens_of};
use crate::parsing::literal::Literal;
use crate::parsing::partition::{
    lemma_partitions_preserve_tokens, partition_boundaries, partition_tokens,
};
use rayon::iter::IntoParallelRefIterator;
use rayon::iter::ParallelIterator;
use vstd::prelude::*;
use vstd::slice::slice_subrange;

verus! {

/// Reads the literals of the partition of `region` from `start` to `end`.
pub fn parse_partition<'a>(region: &'a [u8], start: usize, end: usize) -> (literals: Vec<
    Literal<'a>,
>)
    requires
        start <= end <= region.len(),
    ensures
        tokens_of(literals@) == chunk_tokens(region@.subrange(start as int, end as int)),
{
    parse_chunk(slice_subrange(region, start, end))
}

/// Whether each range of `ranges` lies in a text of `len` bytes.
pub open spec fn ranges_within(ranges: Seq<(usize, usize)>, len: int) -> bool {
    forall|k: int| 0 <= k < ranges.len() ==> (#[trigger] ranges[k]).0 <= ranges[k].1 <= len
}

/// The number of threads in rayon's current pool, from
/// `rayon::current_num_threads`. It depends on the machine and on how the
/// pool was set up, so nothing is claimed of it.
#[verifier::external_body]
fn worker_count() -> (workers: usize) {
    rayon::current_num_threads()
}

/// Reads the partitions of `region` on rayon's worker threads, with
/// `par_iter`, `map` and `collect` of `rayon::iter`.
///
/// The claim: the vector that `collect` gives holds, at each index, what the
/// closure returned for the range at that index. The closure is one call of
/// `parse_partition`, whose contract gives the rest.
#[verifier::external_body]
fn parse_ranges<'a>(region: &'a [u8], ranges: &Vec<(usize, usize)>) -> (parts: Vec<
    Vec<Literal<'a>>,
>)
    requires
        ranges_within(ranges@, region@.len() as int),
    ensures
        parts.len() == ranges.len(),
        forall|k: int|
            0 <= k < ranges.len() ==> tokens_of(#[trigger] parts@[k]@) == chunk_tokens(
                region@.subrange(ranges@[k].0 as int, ranges@[k].1 as int),
            ),
{
    ranges.par_iter().map(|range| parse_partition(region, range.0, range.1)).collect()
}

/// The ranges between each boundary and the next.
fn ranges_between(cuts: &Vec<usize>) -> (ranges: Vec<(usize, usize)>)
    requires
        cuts.len() >= 1,
    ensures
        ranges.len() == cuts.len() - 1,
        forall|k: int|
            0 <= k < ranges.len() ==> #[trigger] ranges@[k] == (cuts@[k], cuts@[k + 1]),
{
    let mut ranges: Vec<(usize, usize)> = Vec::new();
    let mut k: usize = 0;
    while k + 1 < cuts.len()
        invariant
            k + 1 <= cuts.len(),
            ranges.len() == k,
            forall|j: int| 0 <= j < k ==> #[trigger] ranges@[j] == (cuts@[j], cuts@[j + 1]),
        decreases cuts.len() - k,
    {
        ranges.push((cuts[k], cuts[k + 1]));
        k += 1;
    }
    ranges
}

/// Puts the results of the partitions in a row, in the order of the
/// partitions.
fn join_parts<'a>(
    parts: &Vec<Vec<Literal<'a>>>,
    Ghost(region): Ghost<Seq<u8>>,
    Ghost(cuts): Ghost<Seq<usize>>,
) -> (literals: Vec<Literal<'a>>)
    requires
        parts.len() == cuts.len() - 1,
        forall|k: int|
            0 <= k < parts.len() ==> tokens_of(#[trigger] parts@[k]@) == chunk_tokens(
                region.subrange(cuts[k] as int, cuts[k + 1] as int),
            ),
    ensures
        tokens_of(literals@) == partition_tokens(region, cuts, cuts.len() - 1),
{
    let mut literals: Vec<Literal<'a>> = Vec::new();
    let mut k: usize = 0;
    while k < parts.len()
        invariant
            k <= parts.len() == cuts.len() - 1,
            tokens_of(literals@) == partition_tokens(region, cuts, k as int),
            forall|k: int|
                0 <= k < parts.len() ==> tokens_of(#[trigger] parts@[k]@) == chunk_tokens(
                    region.subrange(cuts[k] as int, cuts[k + 1] as int),
                ),
        decreases parts.len() - k,
    {
        let part: &Vec<Literal<'a>> = &parts[k];
        let ghost before = literals@;
        let mut j: usize = 0;
        while j < part.len()
            invariant
                j <= part.len(),
                literals@ == before + part@.take(j as int),
            decreases part.len() - j,
        {
            literals.push(part[j]);
            j += 1;
        }
        k += 1;
    }
    literals
}

/// Reads the literals of a region, partition by partition, with the region
/// dealt out among `workers`.
///
/// The result does not depend on `workers`: it is what reading the region
/// line by line gives.
pub fn parse_region_among<'a>(region: &'a [u8], workers: usize) -> (literals: Vec<Literal<'a>>)
    requires
        workers >= 1,
    ensures
        tokens_of(literals@) == chunk_tokens(region@),
{
    if region.len() == 0 {
        return Vec::new();
    }
    let cuts: Vec<usize> = partition_boundaries(region, workers);
    let ranges: Vec<(usize, usize)> = ranges_between(&cuts);
    let parts: Vec<Vec<Literal<'a>>> = parse_ranges(region, &ranges);
    proof {
        lemma_partitions_preserve_tokens(region@, cuts@);
    }
    join_parts(&parts, Ghost(region@), Ghost(cuts@))
}

/// Reads the literals of a region with as many partitions as rayon has
/// worker threads.
pub fn parse_region<'a>(region: &'a [u8]) -> (literals: Vec<Literal<'a>>)
    ensures
        tokens_of(literals@) == chunk_tokens(region@),
{
    if region.len() == 0 {
        return Vec::new();
    }
    let threads: usize = worker_count();
    let workers: usize = if threads == 0 {
        1
    } else {
        threads
    };
    parse_region_among(region, workers)
}

} // verus!
