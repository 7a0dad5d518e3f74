//! Index bookkeeping of the polymer moves: the chains a crankshaft may bend, the second chain
//! of a double bridge, and the exchange of equal-length chain tails.
use vstd::prelude::*;

verus! {

/// The chain named by `draw` among the chains other than `first`: draws below `first` name
/// themselves, the others the chain after them.
pub open spec fn spec_other_chain(first: int, draw: int) -> int {
    if draw >= first {
        draw + 1
    } else {
        draw
    }
}

/// The second chain of a double bridge, from a draw below `count - 1`.
pub fn other_chain(first: usize, draw: usize) -> (r: usize)
    requires
        draw < usize::MAX,
    ensures
        r == spec_other_chain(first as int, draw as int),
        r != first,
{
    if draw >= first {
        draw + 1
    } else {
        draw
    }
}

/// Some draw below `count - 1` names chain `c`.
pub open spec fn drawn(first: int, count: int, c: int) -> bool {
    exists|d: int| 0 <= d < count - 1 && #[trigger] spec_other_chain(first, d) == c
}

/// With `count` chains, the draws below `count - 1` name every chain other than `first`
/// exactly once.
pub proof fn lemma_other_chain_bijective(first: int, count: int)
    requires
        0 <= first < count,
    ensures
        forall|d: int| 0 <= d < count - 1 ==> 0 <= #[trigger] spec_other_chain(first, d) < count
            && spec_other_chain(first, d) != first,
        forall|d: int, e: int|
            0 <= d < count - 1 && 0 <= e < count - 1 && #[trigger] spec_other_chain(first, d)
                == #[trigger] spec_other_chain(first, e) ==> d == e,
        forall|c: int| 0 <= c < count && c != first ==> #[trigger] drawn(first, count, c),
{
    assert forall|c: int| 0 <= c < count && c != first implies #[trigger] drawn(first, count, c) by {
        if c < first {
            assert(spec_other_chain(first, c) == c);
        } else {
            assert(spec_other_chain(first, c - 1) == c);
        }
    }
}

/// How many tail beads a double bridge may exchange at most: one less than the shorter chain
/// (none for an empty chain).
pub fn tail_limit(first_len: usize, second_len: usize) -> (r: usize)
    ensures
        r == if first_len <= second_len {
            if first_len > 0 {
                first_len - 1
            } else {
                0
            }
        } else if second_len > 0 {
            second_len - 1
        } else {
            0
        },
{
    let shorter = if first_len <= second_len {
        first_len
    } else {
        second_len
    };
    if shorter > 0 {
        shorter - 1
    } else {
        0
    }
}

/// The bead whose place `atom` takes when the `swapped` beads from `first_cut` trade places
/// with the `swapped` beads from `second_cut`.
pub open spec fn spec_swap_partner(atom: int, first_cut: int, second_cut: int, swapped: int) -> int {
    if first_cut <= atom < first_cut + swapped {
        second_cut + atom - first_cut
    } else if second_cut <= atom < second_cut + swapped {
        first_cut + atom - second_cut
    } else {
        atom
    }
}

/// The two exchanged tails do not overlap.
pub open spec fn tails_apart(first_cut: int, second_cut: int, swapped: int) -> bool {
    first_cut + swapped <= second_cut || second_cut + swapped <= first_cut
}

pub fn swap_partner(atom: usize, first_cut: usize, second_cut: usize, swapped: usize) -> (r: usize)
    requires
        first_cut + swapped <= usize::MAX,
        second_cut + swapped <= usize::MAX,
    ensures
        r == spec_swap_partner(atom as int, first_cut as int, second_cut as int, swapped as int),
{
    if first_cut <= atom && atom < first_cut + swapped {
        second_cut + (atom - first_cut)
    } else if second_cut <= atom && atom < second_cut + swapped {
        first_cut + (atom - second_cut)
    } else {
        atom
    }
}

/// Exchanging two tails twice restores every bead: the partner of a bead's partner is the
/// bead itself.
pub proof fn lemma_swap_partner_involution(atom: int, first_cut: int, second_cut: int, swapped: int)
    requires
        tails_apart(first_cut, second_cut, swapped),
        swapped >= 0,
    ensures
        spec_swap_partner(
            spec_swap_partner(atom, first_cut, second_cut, swapped),
            first_cut,
            second_cut,
            swapped,
        ) == atom,
{
}

/// Exchanges the `swapped` entries from `first_cut` with the `swapped` entries from
/// `second_cut`, pairwise in order.
pub fn exchange_tails<T: Copy>(v: &mut [T], first_cut: usize, second_cut: usize, swapped: usize)
    requires
        first_cut + swapped <= old(v)@.len(),
        second_cut + swapped <= old(v)@.len(),
        tails_apart(first_cut as int, second_cut as int, swapped as int),
    ensures
        final(v)@.len() == old(v)@.len(),
        forall|i: int|
            0 <= i < old(v)@.len() ==> #[trigger] final(v)@[i] == old(v)@[spec_swap_partner(
                i,
                first_cut as int,
                second_cut as int,
                swapped as int,
            )],
{
    let ghost start = v@;
    let len = v.len();
    let mut offset: usize = 0;
    while offset < swapped
        invariant
            offset <= swapped,
            start.len() == len,
            first_cut + swapped <= start.len(),
            second_cut + swapped <= start.len(),
            tails_apart(first_cut as int, second_cut as int, swapped as int),
            v@.len() == start.len(),
            forall|i: int|
                0 <= i < start.len() ==> #[trigger] v@[i] == if (first_cut <= i < first_cut + offset)
                    || (second_cut <= i < second_cut + offset) {
                    start[spec_swap_partner(i, first_cut as int, second_cut as int, swapped as int)]
                } else {
                    start[i]
                },
        decreases swapped - offset,
    {
        let a = first_cut + offset;
        let b = second_cut + offset;
        let left = v[a];
        let right = v[b];
        v[a] = right;
        v[b] = left;
        offset += 1;
    }
}

/// The chains of at least four beads, in chain order: those a crankshaft can bend.
pub fn eligible_chains(lengths: &[usize]) -> (r: Vec<usize>)
    ensures
        forall|i: int| 0 <= i < r@.len() ==> #[trigger] r@[i] < lengths@.len() && lengths@[r@[i] as int] >= 4,
        forall|i: int, j: int| 0 <= i < j < r@.len() ==> r@[i] < r@[j],
        forall|c: int| 0 <= c < lengths@.len() && #[trigger] lengths@[c] >= 4 ==> r@.contains(c as usize),
{
    let mut r: Vec<usize> = Vec::new();
    let mut c: usize = 0;
    while c < lengths.len()
        invariant
            c <= lengths@.len(),
            forall|i: int| 0 <= i < r@.len() ==> #[trigger] r@[i] < c && lengths@[r@[i] as int] >= 4,
            forall|i: int, j: int| 0 <= i < j < r@.len() ==> r@[i] < r@[j],
            forall|d: int| 0 <= d < c && #[trigger] lengths@[d] >= 4 ==> r@.contains(d as usize),
        decreases lengths@.len() - c,
    {
        if lengths[c] >= 4 {
            let ghost before = r@;
            r.push(c);
            proof {
                assert(r@[r@.len() - 1] == c);
                assert forall|d: int| 0 <= d < c + 1 && #[trigger] lengths@[d] >= 4 implies r@.contains(d as usize) by {
                    if d < c {
                        let w = choose|w: int| 0 <= w < before.len() && before[w] == d as usize;
                        assert(r@[w] == d as usize);
                    }
                }
            }
        }
        c += 1;
    }
    r
}

/// The two hinge beads of a crankshaft on the chain of `span` beads from `start`: the left
/// hinge `left_draw` beads in, the right one at least two beads further, `right_draw` beyond
/// that. The beads strictly between them turn.
pub fn crank_hinges(start: usize, span: usize, left_draw: usize, right_draw: usize) -> (r: (usize, usize))
    requires
        span >= 4,
        start + span <= usize::MAX,
        left_draw < span - 2,
        right_draw < span - left_draw - 2,
    ensures
        r.0 == start + left_draw,
        r.1 == start + left_draw + 2 + right_draw,
        start <= r.0,
        r.0 + 2 <= r.1,
        r.1 < start + span,
{
    let left_offset = left_draw;
    let right_offset = left_offset + 2 + right_draw;
    (start + left_offset, start + right_offset)
}

} // verus!
