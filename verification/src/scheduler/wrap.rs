//! McNaughton's wrap-around construction: blocks of processor time laid end to end along
//! a line that is cut into one piece per processor.
//!
//! Lengths are integers: `unit` of them make up one processor's whole piece.

use vstd::prelude::*;

verus! {

/// The position on the line at which the `n`-th block begins.
pub open spec fn position(densities: Seq<(usize, u64)>, n: int) -> int
    decreases n,
{
    if n <= 0 {
        0
    } else {
        position(densities, n - 1) + densities[n - 1].1
    }
}

/// Where the `i`-th block begins on processor `p`, within the processor's piece.
pub open spec fn block_start(densities: Seq<(usize, u64)>, unit: int, p: int, i: int) -> int {
    if position(densities, i) > p * unit {
        position(densities, i) - p * unit
    } else {
        0
    }
}

/// Where the `i`-th block ends on processor `p`.
pub open spec fn block_end(densities: Seq<(usize, u64)>, unit: int, p: int, i: int) -> int {
    if position(densities, i + 1) - p * unit < unit {
        position(densities, i + 1) - p * unit
    } else {
        unit
    }
}

/// The pieces of the first `n` blocks that fall on processor `p`, in order: each with its
/// block's identifier, its start and its end.
pub open spec fn pieces_on(densities: Seq<(usize, u64)>, unit: int, p: int, n: int) -> Seq<
    (usize, u64, u64),
>
    decreases n,
{
    if n <= 0 {
        Seq::empty()
    } else {
        let rest = pieces_on(densities, unit, p, n - 1);
        let start = block_start(densities, unit, p, n - 1);
        let end = block_end(densities, unit, p, n - 1);
        if start < end {
            rest.push((densities[n - 1].0, start as u64, end as u64))
        } else {
            rest
        }
    }
}

proof fn lemma_position_grows(densities: Seq<(usize, u64)>, low: int, high: int)
    requires
        low <= high,
    ensures
        position(densities, low) <= position(densities, high),
    decreases high - low,
{
    if low < high {
        lemma_position_grows(densities, low, high - 1);
    }
}

/// Processors from which all blocks so far are away have no piece of them.
proof fn lemma_no_pieces_beyond(densities: Seq<(usize, u64)>, unit: int, p: int, n: int)
    requires
        0 < unit,
        0 <= p,
        position(densities, n) <= p * unit,
    ensures
        pieces_on(densities, unit, p, n) == Seq::<(usize, u64, u64)>::empty(),
    decreases n,
{
    if n > 0 {
        lemma_position_grows(densities, n - 1, n);
        lemma_no_pieces_beyond(densities, unit, p, n - 1);
    }
}

/// Lays the blocks along the line, in the order given, and cuts it into `m` pieces, one
/// per processor. What lies beyond the last piece is dropped.
pub fn wrap_blocks(densities: &[(usize, u64)], m: usize, unit: u64) -> (lists: Vec<
    Vec<(usize, u64, u64)>,
>)
    requires
        unit > 0,
    ensures
        lists@.len() == m,
        forall|p: int|
            0 <= p < m ==> (#[trigger] lists@[p])@ == pieces_on(
                densities@,
                unit as int,
                p,
                densities@.len() as int,
            ),
{
    let ghost blocks = densities@;
    let ghost n = blocks.len() as int;
    let ghost u = unit as int;
    let mut lists: Vec<Vec<(usize, u64, u64)>> = Vec::new();
    let mut current: Vec<(usize, u64, u64)> = Vec::new();
    let mut proc: usize = 0;
    let mut offset: u64 = 0;
    let mut i: usize = 0;
    assert(0 * u == 0);
    while i < densities.len()
        invariant
            blocks == densities@,
            n == blocks.len(),
            u == unit,
            0 < unit,
            i <= n,
            proc <= m,
            lists@.len() == proc,
            forall|p: int|
                0 <= p < proc ==> (#[trigger] lists@[p])@ == pieces_on(blocks, u, p, i as int),
            proc < m ==> current@ == pieces_on(blocks, u, proc as int, i as int),
            proc < m ==> position(blocks, i as int) == proc * u + offset && offset < unit,
            proc == m ==> position(blocks, i as int) >= m * u,
        decreases densities@.len() - i,
    {
        let (id, density) = densities[i];
        let mut remaining: u64 = density;
        let ghost begin = position(blocks, i as int);
        proof {
            lemma_full_processors(blocks, u, proc as int, i as int);
        }
        assert(density == 0 ==> position(blocks, i + 1) == begin);
        while remaining > 0 && proc < m
            invariant
                blocks == densities@,
                n == blocks.len(),
                u == unit,
                0 < unit,
                i < n,
                proc <= m,
                lists@.len() == proc,
                (id, density) == blocks[i as int],
                begin == position(blocks, i as int),
                begin >= 0,
                remaining <= density,
                position(blocks, i + 1) == begin + density,
                forall|p: int|
                    0 <= p < proc ==> (#[trigger] lists@[p])@ == pieces_on(blocks, u, p, i + 1),
                proc < m ==> current@ == pieces_on(
                    blocks,
                    u,
                    proc as int,
                    if remaining > 0 {
                        i as int
                    } else {
                        i + 1
                    },
                ),
                proc < m ==> begin + (density - remaining) == proc * u + offset && offset < unit,
                remaining > 0 && remaining < density ==> offset == 0,
                proc == m ==> begin + density >= m * u,
            decreases m - proc, remaining,
        {
            let space: u64 = unit - offset;
            let take: u64 = if remaining < space {
                remaining
            } else {
                space
            };
            let ghost before = current@;
            current.push((id, offset, offset + take));
            proof {
                let p = proc as int;
                let start = block_start(blocks, u, p, i as int);
                let end = block_end(blocks, u, p, i as int);
                assert(start == offset);
                assert(end == offset + take);
                assert(current@ =~= pieces_on(blocks, u, p, i + 1));
                assert((p + 1) * u == p * u + u) by (nonlinear_arith);
            }
            remaining = remaining - take;
            if take == space {
                lists.push(current);
                current = Vec::new();
                proc = proc + 1;
                offset = 0;
                proof {
                    let p = proc as int;
                    lemma_no_pieces_beyond(blocks, u, p, i as int);
                    if remaining == 0 {
                        lemma_no_pieces_beyond(blocks, u, p, i + 1);
                    }
                    assert(current@ =~= Seq::<(usize, u64, u64)>::empty());
                }
            } else {
                offset = offset + take;
            }
        }
        i = i + 1;
    }
    proof {
        let p = proc as int;
        assert((p + 1) * u == p * u + u) by (nonlinear_arith);
    }
    while proc < m
        invariant
            blocks == densities@,
            n == blocks.len(),
            u == unit,
            0 < unit,
            proc <= m,
            lists@.len() == proc,
            forall|p: int|
                0 <= p < proc ==> (#[trigger] lists@[p])@ == pieces_on(blocks, u, p, n),
            proc < m ==> current@ == pieces_on(blocks, u, proc as int, n),
            proc < m ==> position(blocks, n) < (proc + 1) * u,
        decreases m - proc,
    {
        lists.push(current);
        current = Vec::new();
        proc = proc + 1;
        proof {
            let p = proc as int;
            assert((p + 1) * u == p * u + u) by (nonlinear_arith);
            lemma_no_pieces_beyond(blocks, u, p, n);
            assert(current@ =~= Seq::<(usize, u64, u64)>::empty());
        }
    }
    lists
}

/// A processor whose piece is full already gets nothing of the next block.
proof fn lemma_full_processors(blocks: Seq<(usize, u64)>, u: int, proc: int, i: int)
    requires
        0 < u,
        0 <= i < blocks.len(),
        0 <= proc,
        position(blocks, i) >= proc * u,
    ensures
        forall|p: int|
            0 <= p < proc ==> #[trigger] pieces_on(blocks, u, p, i + 1) == pieces_on(
                blocks,
                u,
                p,
                i,
            ),
        blocks[i].1 == 0 ==> forall|p: int| #[trigger]
            pieces_on(blocks, u, p, i + 1) == pieces_on(blocks, u, p, i),
        position(blocks, i + 1) == position(blocks, i) + blocks[i].1,
        position(blocks, i) >= 0,
{
    lemma_position_grows(blocks, 0, i);
    assert forall|p: int| 0 <= p < proc implies #[trigger] pieces_on(blocks, u, p, i + 1)
        == pieces_on(blocks, u, p, i) by {
        assert((p + 1) * u <= proc * u) by (nonlinear_arith)
            requires
                p + 1 <= proc,
                0 < u,
        ;
        assert((p + 1) * u == p * u + u) by (nonlinear_arith);
    }
    if blocks[i].1 == 0 {
        assert forall|p: int| #[trigger] pieces_on(blocks, u, p, i + 1) == pieces_on(
            blocks,
            u,
            p,
            i,
        ) by {
            let start = block_start(blocks, u, p, i);
            let end = block_end(blocks, u, p, i);
            assert(!(start < end));
        }
    }
}

/// How much of the `i`-th block falls on processor `p`.
pub open spec fn piece_length(densities: Seq<(usize, u64)>, unit: int, p: int, i: int) -> int {
    let start = block_start(densities, unit, p, i);
    let end = block_end(densities, unit, p, i);
    if start < end {
        end - start
    } else {
        0
    }
}

/// How much of the `i`-th block falls on the first `m` processors.
pub open spec fn total_length(densities: Seq<(usize, u64)>, unit: int, m: int, i: int) -> int
    decreases m,
{
    if m <= 0 {
        0
    } else {
        total_length(densities, unit, m - 1, i) + piece_length(densities, unit, m - 1, i)
    }
}

proof fn lemma_total_length_below(densities: Seq<(usize, u64)>, unit: int, m: int, i: int)
    requires
        0 < unit,
        0 <= m,
        0 <= i < densities.len(),
    ensures
        ({
            let begin = position(densities, i);
            let end = position(densities, i + 1);
            total_length(densities, unit, m, i) == if m * unit <= begin {
                0
            } else if m * unit <= end {
                m * unit - begin
            } else {
                end - begin
            }
        }),
    decreases m,
{
    lemma_position_grows(densities, 0, i);
    if m > 0 {
        lemma_total_length_below(densities, unit, m - 1, i);
        assert(m * unit == (m - 1) * unit + unit) by (nonlinear_arith);
    } else {
        assert(0 * unit == 0);
    }
}

/// If the blocks together fit onto the processors, every block gets exactly its own
/// length, wherever its pieces fall.
pub proof fn lemma_blocks_get_their_length(
    densities: Seq<(usize, u64)>,
    unit: int,
    m: int,
    i: int,
)
    requires
        0 < unit,
        0 <= m,
        0 <= i < densities.len(),
        position(densities, densities.len() as int) <= m * unit,
    ensures
        total_length(densities, unit, m, i) == densities[i].1,
{
    lemma_position_grows(densities, i + 1, densities.len() as int);
    lemma_position_grows(densities, 0, i);
    lemma_total_length_below(densities, unit, m, i);
}

/// A block that is split between two processors never runs on both at once: it ends on
/// the later one before it begins on the earlier one.
pub proof fn lemma_no_block_runs_in_parallel_with_itself(
    densities: Seq<(usize, u64)>,
    unit: int,
    p: int,
    q: int,
    i: int,
)
    requires
        0 < unit,
        0 <= p < q,
        0 <= i < densities.len(),
        densities[i].1 <= unit,
        piece_length(densities, unit, p, i) > 0,
        piece_length(densities, unit, q, i) > 0,
    ensures
        block_end(densities, unit, q, i) <= block_start(densities, unit, p, i),
{
    assert((p + 1) * unit <= q * unit) by (nonlinear_arith)
        requires
            p + 1 <= q,
            0 < unit,
    ;
    assert((p + 1) * unit == p * unit + unit) by (nonlinear_arith);
}

/// The pieces on one processor lie within its piece of the line, and each ends before the
/// next begins: the processor never runs two blocks at once.
pub proof fn lemma_pieces_do_not_overlap(
    densities: Seq<(usize, u64)>,
    unit: u64,
    p: int,
    n: int,
)
    requires
        0 < unit,
        0 <= p,
        0 <= n <= densities.len(),
    ensures
        ({
            let pieces = pieces_on(densities, unit as int, p, n);
            &&& forall|a: int|
                0 <= a < pieces.len() ==> (#[trigger] pieces[a]).1 < pieces[a].2 <= unit
            &&& forall|a: int|
                0 <= a < pieces.len() ==> p * unit + (#[trigger] pieces[a]).2 <= position(
                    densities,
                    n,
                )
            &&& forall|a: int, b: int|
                #![trigger pieces[a], pieces[b]]
                0 <= a < b < pieces.len() ==> pieces[a].2 <= pieces[b].1
        }),
    decreases n,
{
    if n > 0 {
        lemma_pieces_do_not_overlap(densities, unit, p, n - 1);
        let rest = pieces_on(densities, unit as int, p, n - 1);
        let pieces = pieces_on(densities, unit as int, p, n);
        lemma_position_grows(densities, n - 1, n);
        assert forall|a: int| 0 <= a < pieces.len() implies (#[trigger] pieces[a]).1 < pieces[a].2
            <= unit && p * unit + pieces[a].2 <= position(densities, n) by {
            if a < rest.len() {
                assert(rest[a] == pieces[a]);
            }
        }
        assert forall|a: int, b: int|
            #![trigger pieces[a], pieces[b]]
            0 <= a < b < pieces.len() implies pieces[a].2 <= pieces[b].1 by {
            assert(rest[a] == pieces[a]);
            if b < rest.len() {
                assert(rest[b] == pieces[b]);
            }
        }
    }
}

/// A block of at most one unit lies on at most two processors, which are neighbours: any
/// two processors that it has a piece on follow each other.
pub proof fn lemma_block_lies_on_two_neighbours(
    densities: Seq<(usize, u64)>,
    unit: int,
    p: int,
    q: int,
    i: int,
)
    requires
        0 < unit,
        0 <= p < q,
        0 <= i < densities.len(),
        densities[i].1 <= unit,
        piece_length(densities, unit, p, i) > 0,
        piece_length(densities, unit, q, i) > 0,
    ensures
        q == p + 1,
{
    assert((p + 1) * unit == p * unit + unit) by (nonlinear_arith);
    if q >= p + 2 {
        assert((p + 2) * unit <= q * unit) by (nonlinear_arith)
            requires
                p + 2 <= q,
                0 < unit,
        ;
        assert((p + 2) * unit == p * unit + 2 * unit) by (nonlinear_arith);
    }
}

/// How far processor `p` is filled by the first `n` blocks.
pub open spec fn filled(densities: Seq<(usize, u64)>, unit: int, p: int, n: int) -> int {
    let reached = position(densities, n) - p * unit;
    if reached < 0 {
        0
    } else if reached < unit {
        reached
    } else {
        unit
    }
}

/// The pieces on one processor are back to back: the first begins at zero, each begins where
/// the one before it ends, and the last ends where the processor is filled to. There are none
/// only if nothing falls on the processor.
pub proof fn lemma_pieces_are_back_to_back(
    densities: Seq<(usize, u64)>,
    unit: u64,
    p: int,
    n: int,
)
    requires
        0 < unit,
        0 <= p,
        0 <= n <= densities.len(),
    ensures
        ({
            let pieces = pieces_on(densities, unit as int, p, n);
            &&& forall|a: int|
                0 <= a < pieces.len() ==> (#[trigger] pieces[a]).1 == if a == 0 {
                    0
                } else {
                    pieces[a - 1].2
                }
            &&& filled(densities, unit as int, p, n) == if pieces.len() == 0 {
                0
            } else {
                pieces.last().2
            }
        }),
    decreases n,
{
    let u = unit as int;
    assert(0 <= p * u) by (nonlinear_arith)
        requires
            0 <= p,
            0 < u,
    ;
    if n > 0 {
        lemma_pieces_are_back_to_back(densities, unit, p, n - 1);
        lemma_position_grows(densities, 0, n - 1);
        let rest = pieces_on(densities, u, p, n - 1);
        let pieces = pieces_on(densities, u, p, n);
        assert(position(densities, n) == position(densities, n - 1) + densities[n - 1].1);
        assert forall|a: int| 0 <= a < pieces.len() implies (#[trigger] pieces[a]).1 == if a == 0 {
            0
        } else {
            pieces[a - 1].2
        } by {
            if a < rest.len() {
                assert(rest[a] == pieces[a]);
                if a > 0 {
                    assert(rest[a - 1] == pieces[a - 1]);
                }
            } else if a > 0 {
                assert(rest[a - 1] == pieces[a - 1]);
            }
        }
    }
}

/// A processor is full before the next one is used: where any later processor has a piece,
/// the pieces on this one reach to its end.
pub proof fn lemma_processor_is_full_before_the_next(
    densities: Seq<(usize, u64)>,
    unit: u64,
    p: int,
    q: int,
    n: int,
)
    requires
        0 < unit,
        0 <= p < q,
        0 <= n <= densities.len(),
        pieces_on(densities, unit as int, q, n).len() > 0,
    ensures
        pieces_on(densities, unit as int, p, n).len() > 0,
        pieces_on(densities, unit as int, p, n).last().2 == unit,
{
    let u = unit as int;
    if position(densities, n) <= q * u {
        lemma_no_pieces_beyond(densities, u, q, n);
    }
    assert((p + 1) * u <= q * u) by (nonlinear_arith)
        requires
            p + 1 <= q,
            0 < u,
    ;
    assert((p + 1) * u == p * u + u) by (nonlinear_arith);
    lemma_pieces_are_back_to_back(densities, unit, p, n);
}

} // verus!
