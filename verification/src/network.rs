//! The pore-network puzzle: which pores gas reaches from the inlet, the widest route to the
//! outlet, and how a network is classified.
use vstd::prelude::*;

use crate::flow::{count_true, lemma_count_bound, lemma_count_set, lemma_count_zero};
use crate::text::{decimal, push_decimal};

verus! {

/// How a pore network carries gas: a route that clears the target, a route that does not, or
/// no route at all.
#[derive(Clone, Copy, PartialEq, Eq, Structural, Debug)]
pub enum Classification {
    Open,
    Bottlenecked,
    Blocked,
}

/// Rank of a classification: blocked 0, bottlenecked 1, open 2.
pub open spec fn spec_rank(c: Classification) -> i32 {
    match c {
        Classification::Blocked => 0,
        Classification::Bottlenecked => 1,
        Classification::Open => 2,
    }
}

impl Classification {
    pub fn as_str(self) -> (r: &'static str)
        ensures
            self is Open ==> r@ == "Open pathway"@,
            self is Bottlenecked ==> r@ == "Bottlenecked"@,
            self is Blocked ==> r@ == "Blocked"@,
    {
        match self {
            Classification::Open => "Open pathway",
            Classification::Bottlenecked => "Bottlenecked",
            Classification::Blocked => "Blocked",
        }
    }

    pub fn rank(self) -> (r: i32)
        ensures
            r == spec_rank(self),
    {
        match self {
            Classification::Blocked => 0,
            Classification::Bottlenecked => 1,
            Classification::Open => 2,
        }
    }
}

/// Ranks order the classifications strictly, so a rank names its classification.
pub proof fn lemma_rank_injective(a: Classification, b: Classification)
    ensures
        spec_rank(a) == spec_rank(b) <==> a == b,
{
}

/// The classification of a network from its widest route, if any, and whether that route's
/// bottleneck clears the target.
pub fn classify(route: bool, clears_target: bool) -> (r: Classification)
    ensures
        route && clears_target ==> r is Open,
        route && !clears_target ==> r is Bottlenecked,
        !route ==> r is Blocked,
{
    if !route {
        Classification::Blocked
    } else if clears_target {
        Classification::Open
    } else {
        Classification::Bottlenecked
    }
}

/// A throat between two pores, as the scoring reads it: its two nodes, whether it is blocked,
/// and an order key of its radius (a wider throat has a larger key, equal radii equal keys).
#[derive(Clone, Copy, PartialEq, Eq, Structural, Debug)]
pub struct Throat {
    pub from: usize,
    pub to: usize,
    pub blocked: bool,
    pub width: u64,
}

/// The node across throat `t` from node `at`: `to` if `at` is its `from` node, else `from`
/// if `at` is its `to` node, else -1.
pub open spec fn other_end(t: Throat, at: int) -> int {
    if t.from == at {
        t.to as int
    } else if t.to == at {
        t.from as int
    } else {
        -1
    }
}

/// Every throat joins nodes below `n`.
pub open spec fn throats_within(throats: Seq<Throat>, n: int) -> bool {
    forall|e: int| 0 <= e < throats.len() ==> (#[trigger] throats[e]).from < n && throats[e].to < n
}

/// A set of nodes that holds `start` and that gas cannot leave through an unblocked throat.
pub open spec fn reach_closed(throats: Seq<Throat>, start: int, s: Set<int>) -> bool {
    &&& s.contains(start)
    &&& forall|e: int, x: int|
        #![trigger s.contains(x), throats[e]]
        0 <= e < throats.len() && s.contains(x) && !throats[e].blocked && other_end(throats[e], x)
            >= 0 ==> s.contains(other_end(throats[e], x))
}

/// Node `i` is reached from `start` through unblocked throats: it lies in every set that gas
/// from `start` cannot leave.
pub open spec fn reachable(throats: Seq<Throat>, start: int, i: int) -> bool {
    forall|s: Set<int>| #[trigger] reach_closed(throats, start, s) ==> s.contains(i)
}

/// Node `x` has every unblocked neighbour marked.
pub open spec fn expanded(throats: Seq<Throat>, seen: Seq<bool>, x: int) -> bool {
    forall|e: int|
        0 <= e < throats.len() && !(#[trigger] throats[e]).blocked && other_end(throats[e], x) >= 0
            ==> seen[other_end(throats[e], x)]
}

/// Marks the nodes that gas reaches from `start`, by a depth-first search over unblocked
/// throats.
pub fn reachable_nodes(node_count: usize, throats: &[Throat], start: usize) -> (seen: Vec<bool>)
    requires
        start < node_count,
        throats_within(throats@, node_count as int),
    ensures
        seen@.len() == node_count,
        forall|i: int| 0 <= i < node_count ==> seen@[i] == reachable(throats@, start as int, i),
{
    let ghost ts = throats@;
    let mut seen: Vec<bool> = Vec::new();
    let mut fill: usize = 0;
    while fill < node_count
        invariant
            fill <= node_count,
            seen@.len() == fill,
            forall|i: int| 0 <= i < fill ==> !seen@[i],
        decreases node_count - fill,
    {
        seen.push(false);
        fill += 1;
    }
    proof {
        lemma_count_zero(seen@);
        lemma_count_set(seen@, start as int);
        assert forall|s: Set<int>| #[trigger] reach_closed(ts, start as int, s) implies s.contains(
            start as int,
        ) by {}
    }
    seen.set(start, true);
    let mut stack: Vec<usize> = Vec::new();
    stack.push(start);
    proof {
        assert(stack@[0] == start);
        assert forall|i: int| 0 <= i < node_count && #[trigger] seen@[i] implies i == start by {}
    }
    loop
        invariant
            ts == throats@,
            start < node_count,
            throats_within(ts, node_count as int),
            seen@.len() == node_count,
            seen@[start as int],
            count_true(seen@) <= node_count,
            stack@.no_duplicates(),
            forall|k: int| 0 <= k < stack@.len() ==> #[trigger] stack@[k] < node_count && seen@[stack@[k] as int],
            forall|i: int| 0 <= i < node_count && #[trigger] seen@[i] ==> reachable(ts, start as int, i),
            forall|i: int|
                0 <= i < node_count && #[trigger] seen@[i] && !stack@.contains(i as usize) ==> expanded(
                    ts,
                    seen@,
                    i,
                ),
        ensures
            seen@.len() == node_count,
            seen@[start as int],
            forall|i: int| 0 <= i < node_count && #[trigger] seen@[i] ==> reachable(ts, start as int, i),
            forall|i: int| 0 <= i < node_count && #[trigger] seen@[i] ==> expanded(ts, seen@, i),
        decreases 2 * (node_count - count_true(seen@)) + stack@.len(),
    {
        let ghost stack_before = stack@;
        let ghost measure_before = 2 * (node_count - count_true(seen@)) + stack@.len();
        let popped = stack.pop();
        let node = match popped {
            None => {
                break;
            },
            Some(node) => node,
        };
        proof {
            assert(stack@.no_duplicates());
            assert(!stack@.contains(node)) by {
                if stack@.contains(node) {
                    let w = choose|w: int| 0 <= w < stack@.len() && stack@[w] == node;
                    assert(stack_before[w] == stack_before[stack_before.len() - 1]);
                }
            }
            assert(stack_before == stack@.push(node));
            assert forall|i: int|
                0 <= i < node_count && #[trigger] seen@[i] && !stack@.contains(i as usize) && i != node
                    implies expanded(ts, seen@, i) by {
                if stack_before.contains(i as usize) {
                    let w = choose|w: int| 0 <= w < stack_before.len() && stack_before[w] == i as usize;
                    if w < stack@.len() {
                        assert(stack@[w] == i as usize);
                    }
                }
            }
        }
        let mut k: usize = 0;
        while k < throats.len()
            invariant
                ts == throats@,
                k <= ts.len(),
                node < node_count,
                start < node_count,
                throats_within(ts, node_count as int),
                seen@.len() == node_count,
                seen@[start as int],
                seen@[node as int],
                !stack@.contains(node),
                count_true(seen@) <= node_count,
                stack@.no_duplicates(),
                forall|q: int| 0 <= q < stack@.len() ==> #[trigger] stack@[q] < node_count && seen@[stack@[q] as int],
                forall|i: int| 0 <= i < node_count && #[trigger] seen@[i] ==> reachable(ts, start as int, i),
                forall|i: int|
                    0 <= i < node_count && #[trigger] seen@[i] && !stack@.contains(i as usize) && i != node
                        ==> expanded(ts, seen@, i),
                forall|e: int|
                    0 <= e < k && !(#[trigger] ts[e]).blocked && other_end(ts[e], node as int) >= 0
                        ==> seen@[other_end(ts[e], node as int)],
                2 * (node_count - count_true(seen@)) + stack@.len() < measure_before,
            decreases ts.len() - k,
        {
            let edge = throats[k];
            if !edge.blocked {
                let mut next: usize = node_count;
                if edge.from == node {
                    next = edge.to;
                } else if edge.to == node {
                    next = edge.from;
                }
                if next < node_count {
                    proof {
                        assert(next == other_end(ts[k as int], node as int));
                    }
                    if !seen[next] {
                        proof {
                            assert forall|s: Set<int>| #[trigger] reach_closed(ts, start as int, s) implies s.contains(
                                next as int,
                            ) by {
                                assert(reachable(ts, start as int, node as int));
                                assert(s.contains(node as int));
                                assert(s.contains(other_end(ts[k as int], node as int)));
                            }
                            lemma_count_set(seen@, next as int);
                            lemma_count_bound(seen@.update(next as int, true));
                            assert(!stack@.contains(next)) by {
                                if stack@.contains(next) {
                                    let w = choose|w: int| 0 <= w < stack@.len() && stack@[w] == next;
                                }
                            }
                        }
                        let ghost seen_old = seen@;
                        let ghost stack_old = stack@;
                        seen.set(next, true);
                        stack.push(next);
                        proof {
                            assert(stack@[stack@.len() - 1] == next);
                            assert forall|i: int|
                                0 <= i < node_count && #[trigger] seen@[i] && !stack@.contains(i as usize)
                                    && i != node implies expanded(ts, seen@, i) by {
                                assert(stack@.contains(next));
                                assert(i != next);
                                assert(seen_old[i]);
                                assert(!stack_old.contains(i as usize)) by {
                                    if stack_old.contains(i as usize) {
                                        let w = choose|w: int| 0 <= w < stack_old.len() && stack_old[w] == i as usize;
                                        assert(stack@[w] == i as usize);
                                    }
                                }
                                assert(expanded(ts, seen_old, i));
                                assert forall|e: int|
                                    0 <= e < ts.len() && !(#[trigger] ts[e]).blocked && other_end(ts[e], i) >= 0
                                        implies seen@[other_end(ts[e], i)] by {
                                    assert(seen_old[other_end(ts[e], i)]);
                                }
                            }
                        }
                    }
                }
            }
            k += 1;
        }
        proof {
            assert(expanded(ts, seen@, node as int));
        }
    }
    proof {
        let closed = Set::new(|i: int| 0 <= i < node_count && seen@[i]);
        assert(reach_closed(ts, start as int, closed)) by {
            assert forall|e: int, x: int|
                #![trigger closed.contains(x), ts[e]]
                0 <= e < ts.len() && closed.contains(x) && !ts[e].blocked && other_end(ts[e], x) >= 0
                    implies closed.contains(other_end(ts[e], x)) by {
                assert(expanded(ts, seen@, x));
            }
        }
        assert forall|i: int| 0 <= i < node_count implies seen@[i] == reachable(ts, start as int, i) by {
            if reachable(ts, start as int, i) {
                assert(closed.contains(i));
            }
        }
    }
    seen
}


/// Whether gas can pass throat `t`: it is open and has a positive width.
pub open spec fn usable(t: Throat) -> bool {
    !t.blocked && t.width > 0
}

pub open spec fn min_u64(a: u64, b: u64) -> u64 {
    if a <= b {
        a
    } else {
        b
    }
}

/// The node a walk of throats from `at` ends on, or -1 if one of its throats is unusable or
/// does not touch the node the walk has reached.
pub open spec fn walk_end(throats: Seq<Throat>, at: int, path: Seq<usize>) -> int
    decreases path.len(),
{
    if path.len() == 0 {
        at
    } else {
        let mid = walk_end(throats, at, path.drop_last());
        let e = path.last() as int;
        if mid >= 0 && e < throats.len() && usable(throats[e]) && other_end(throats[e], mid) >= 0 {
            other_end(throats[e], mid)
        } else {
            -1
        }
    }
}

/// The narrowest width along a walk; an empty walk is unbounded.
pub open spec fn bottleneck(throats: Seq<Throat>, path: Seq<usize>) -> u64
    decreases path.len(),
{
    if path.len() == 0 {
        u64::MAX
    } else {
        min_u64(bottleneck(throats, path.drop_last()), throats[path.last() as int].width)
    }
}

/// Node `v` was reached over a recorded throat from a settled node that was settled earlier,
/// and its width is the smaller of that node's width and the throat's.
pub open spec fn parent_ok(
    ts: Seq<Throat>,
    n: int,
    best: Seq<u64>,
    visited: Seq<bool>,
    prev_node: Seq<Option<usize>>,
    prev_edge: Seq<Option<usize>>,
    order: Seq<int>,
    v: int,
) -> bool {
    &&& prev_node[v] is Some
    &&& prev_edge[v] is Some
    &&& prev_node[v]->0 < n
    &&& prev_edge[v]->0 < ts.len()
    &&& visited[prev_node[v]->0 as int]
    &&& usable(ts[prev_edge[v]->0 as int])
    &&& other_end(ts[prev_edge[v]->0 as int], prev_node[v]->0 as int) == v
    &&& best[v] == min_u64(best[prev_node[v]->0 as int], ts[prev_edge[v]->0 as int].width)
    &&& order[prev_node[v]->0 as int] < order[v]
}

/// The state of the widest-route search after `visits` nodes were settled: settled nodes are
/// at least as wide as unsettled ones, every usable throat out of a settled node has been
/// relaxed, and every reached node records the throat it was reached by.
pub open spec fn search_state(
    ts: Seq<Throat>,
    n: int,
    start: int,
    best: Seq<u64>,
    visited: Seq<bool>,
    prev_node: Seq<Option<usize>>,
    prev_edge: Seq<Option<usize>>,
    order: Seq<int>,
    visits: int,
) -> bool {
    &&& best.len() == n
    &&& visited.len() == n
    &&& prev_node.len() == n
    &&& prev_edge.len() == n
    &&& order.len() == n
    &&& 0 <= start < n
    &&& best[start] == u64::MAX
    &&& count_true(visited) == visits
    &&& forall|v: int|
        0 <= v < n ==> (#[trigger] visited[v] ==> 0 <= order[v] < visits) && (!visited[v]
            ==> order[v] == n)
    &&& forall|x: int, y: int|
        #![trigger visited[x], visited[y]]
        0 <= x < n && 0 <= y < n && visited[x] && !visited[y] ==> best[y] <= best[x]
    &&& forall|e: int, x: int|
        #![trigger ts[e], visited[x]]
        0 <= e < ts.len() && 0 <= x < n && visited[x] && usable(ts[e]) && other_end(ts[e], x) >= 0
            ==> min_u64(best[x], ts[e].width) <= best[other_end(ts[e], x)]
    &&& forall|v: int|
        0 <= v < n && v != start && #[trigger] best[v] > 0 ==> parent_ok(
            ts,
            n,
            best,
            visited,
            prev_node,
            prev_edge,
            order,
            v,
        )
}

proof fn lemma_walk_within(ts: Seq<Throat>, n: int, at: int, path: Seq<usize>)
    requires
        0 <= at < n,
        throats_within(ts, n),
    ensures
        walk_end(ts, at, path) < n,
    decreases path.len(),
{
    if path.len() > 0 {
        lemma_walk_within(ts, n, at, path.drop_last());
    }
}

proof fn lemma_walk_positive(ts: Seq<Throat>, at: int, path: Seq<usize>)
    requires
        walk_end(ts, at, path) >= 0,
    ensures
        bottleneck(ts, path) > 0,
    decreases path.len(),
{
    if path.len() > 0 {
        lemma_walk_positive(ts, at, path.drop_last());
    }
}

/// Any walk from `start` is no wider than the node it ends on, or than `m`, the widest
/// unsettled node.
proof fn lemma_walk_bound(
    ts: Seq<Throat>,
    n: int,
    start: int,
    best: Seq<u64>,
    visited: Seq<bool>,
    m: u64,
    path: Seq<usize>,
)
    requires
        best.len() == n,
        visited.len() == n,
        0 <= start < n,
        throats_within(ts, n),
        best[start] == u64::MAX,
        forall|e: int, x: int|
            #![trigger ts[e], visited[x]]
            0 <= e < ts.len() && 0 <= x < n && visited[x] && usable(ts[e]) && other_end(ts[e], x)
                >= 0 ==> min_u64(best[x], ts[e].width) <= best[other_end(ts[e], x)],
        forall|y: int| 0 <= y < n && !(#[trigger] visited[y]) ==> best[y] <= m,
        walk_end(ts, start, path) >= 0,
    ensures
        bottleneck(ts, path) <= best[walk_end(ts, start, path)] || bottleneck(ts, path) <= m,
    decreases path.len(),
{
    lemma_walk_within(ts, n, start, path);
    if path.len() > 0 {
        let prefix = path.drop_last();
        lemma_walk_bound(ts, n, start, best, visited, m, prefix);
        lemma_walk_within(ts, n, start, prefix);
        let y = walk_end(ts, start, prefix);
        let e = path.last() as int;
        if bottleneck(ts, prefix) > m && visited[y] {
            assert(min_u64(best[y], ts[e].width) <= best[other_end(ts[e], y)]);
        }
    }
}

proof fn lemma_count_full(s: Seq<bool>)
    requires
        count_true(s) == s.len(),
    ensures
        forall|i: int| 0 <= i < s.len() ==> s[i],
{
    assert forall|i: int| 0 <= i < s.len() implies s[i] by {
        if !s[i] {
            lemma_count_set(s, i);
            lemma_count_bound(s.update(i, true));
        }
    }
}

/// The first unsettled node of greatest positive width, if any.
fn select_widest(best: &Vec<u64>, visited: &Vec<bool>) -> (r: Option<usize>)
    requires
        best@.len() == visited@.len(),
    ensures
        r matches Some(c) ==> c < best@.len() && !visited@[c as int] && best@[c as int] > 0
            && forall|j: int| 0 <= j < best@.len() && !(#[trigger] visited@[j]) ==> best@[j] <= best@[c as int],
        r is None ==> forall|j: int| 0 <= j < best@.len() && !(#[trigger] visited@[j]) ==> best@[j] == 0,
{
    let mut current: Option<usize> = None;
    let mut current_best: u64 = 0;
    let mut index: usize = 0;
    while index < best.len()
        invariant
            index <= best@.len(),
            best@.len() == visited@.len(),
            current matches Some(c) ==> c < index && !visited@[c as int] && best@[c as int]
                == current_best && current_best > 0,
            current is None ==> current_best == 0,
            forall|j: int| 0 <= j < index && !(#[trigger] visited@[j]) ==> best@[j] <= current_best,
        decreases best@.len() - index,
    {
        if !visited[index] && best[index] > current_best {
            current_best = best[index];
            current = Some(index);
        }
        index += 1;
    }
    current
}

/// Settles `node`, the widest unsettled node, and relaxes every throat out of it.
#[verifier::rlimit(60)]
fn settle(
    throats: &[Throat],
    n: usize,
    start: usize,
    node: usize,
    best: &mut Vec<u64>,
    visited: &mut Vec<bool>,
    prev_node: &mut Vec<Option<usize>>,
    prev_edge: &mut Vec<Option<usize>>,
    order: Ghost<Seq<int>>,
    round: usize,
) -> (next_order: Ghost<Seq<int>>)
    requires
        throats_within(throats@, n as int),
        round < n,
        node < n,
        search_state(throats@, n as int, start as int, old(best)@, old(visited)@, old(prev_node)@, old(prev_edge)@, order@, round as int),
        !old(visited)@[node as int],
        old(best)@[node as int] > 0,
        forall|j: int| 0 <= j < n && !(#[trigger] old(visited)@[j]) ==> old(best)@[j] <= old(best)@[node as int],
    ensures
        search_state(throats@, n as int, start as int, final(best)@, final(visited)@, final(prev_node)@, final(prev_edge)@, next_order@, round + 1),
{
    let ghost ts = throats@;
    proof {
        lemma_count_set(visited@, node as int);
        lemma_count_bound(visited@.update(node as int, true));
    }
    let ghost visited_before = visited@;
    visited.set(node, true);
    let ghost order_new = order@.update(node as int, round as int);
    proof {
        assert forall|v: int|
            0 <= v < n && v != start && #[trigger] best@[v] > 0 implies parent_ok(
                ts,
                n as int,
                best@,
                visited@,
                prev_node@,
                prev_edge@,
                order_new,
                v,
            ) by {
            assert(parent_ok(ts, n as int, best@, visited_before, prev_node@, prev_edge@, order@, v));
            let u = prev_node@[v]->0 as int;
            assert(visited_before[u]);
        }
        assert forall|x: int, y: int|
            #![trigger visited@[x], visited@[y]]
            0 <= x < n && 0 <= y < n && visited@[x] && !visited@[y] implies best@[y] <= best@[x] by {
            if x != node {
                assert(visited_before[x] && !visited_before[y]);
            } else {
                assert(!visited_before[y]);
            }
        }
        assert forall|x: int| 0 <= x < n && #[trigger] visited@[x] implies best@[node as int] <= best@[x] by {
            if x != node {
                assert(visited_before[x] && !visited_before[node as int]);
            }
        }
        assert forall|e: int, x: int|
            #![trigger ts[e], visited@[x]]
            0 <= e < ts.len() && 0 <= x < n && visited@[x] && x != node && usable(ts[e])
                && other_end(ts[e], x) >= 0 implies min_u64(best@[x], ts[e].width)
                <= best@[other_end(ts[e], x)] by {
            assert(visited_before[x]);
        }
    }
    let node_best = best[node];
    let mut k: usize = 0;
    while k < throats.len()
        invariant
            ts == throats@,
            throats_within(ts, n as int),
            round < n,
            node < n,
            k <= ts.len(),
            visited@[node as int],
            node_best == best@[node as int],
            best@.len() == n,
            visited@.len() == n,
            prev_node@.len() == n,
            prev_edge@.len() == n,
            order_new.len() == n,
            order_new[node as int] == round,
            start < n,
            best@[start as int] == u64::MAX,
            count_true(visited@) == round + 1,
            forall|v: int|
                0 <= v < n ==> (#[trigger] visited@[v] ==> 0 <= order_new[v] < round + 1) && (!visited@[v]
                    ==> order_new[v] == n),
            forall|x: int, y: int|
                #![trigger visited@[x], visited@[y]]
                0 <= x < n && 0 <= y < n && visited@[x] && !visited@[y] ==> best@[y] <= best@[x],
            forall|x: int| 0 <= x < n && #[trigger] visited@[x] ==> best@[node as int] <= best@[x],
            forall|e: int, x: int|
                #![trigger ts[e], visited@[x]]
                0 <= e < ts.len() && 0 <= x < n && visited@[x] && x != node && usable(ts[e])
                    && other_end(ts[e], x) >= 0 ==> min_u64(best@[x], ts[e].width)
                    <= best@[other_end(ts[e], x)],
            forall|e: int|
                0 <= e < k && usable(#[trigger] ts[e]) && other_end(ts[e], node as int) >= 0
                    ==> min_u64(best@[node as int], ts[e].width) <= best@[other_end(
                    ts[e],
                    node as int,
                )],
            forall|v: int|
                0 <= v < n && v != start && #[trigger] best@[v] > 0 ==> parent_ok(
                    ts,
                    n as int,
                    best@,
                    visited@,
                    prev_node@,
                    prev_edge@,
                    order_new,
                    v,
                ),
        decreases ts.len() - k,
    {
        let edge = throats[k];
        if !edge.blocked {
            let mut next: usize = n;
            if edge.from == node {
                next = edge.to;
            } else if edge.to == node {
                next = edge.from;
            }
            if next < n {
                let candidate = if node_best <= edge.width {
                    node_best
                } else {
                    edge.width
                };
                if candidate > best[next] {
                    proof {
                        assert(next == other_end(ts[k as int], node as int));
                        assert(!visited@[next as int]) by {
                            if visited@[next as int] {
                                assert(best@[node as int] <= best@[next as int]);
                            }
                        }
                    }
                    let ghost best_old = best@;
                    let ghost prev_node_old = prev_node@;
                    let ghost prev_edge_old = prev_edge@;
                    best.set(next, candidate);
                    prev_node.set(next, Some(node));
                    prev_edge.set(next, Some(k));
                    proof {
                        lemma_relaxed(
                            ts,
                            n as int,
                            start as int,
                            node as int,
                            next as int,
                            k as int,
                            best_old,
                            best@,
                            visited@,
                            prev_node_old,
                            prev_node@,
                            prev_edge_old,
                            prev_edge@,
                            order_new,
                        );
                    }
                }
            }
        }
        k += 1;
    }
    proof {
        assert forall|e: int, x: int|
            #![trigger ts[e], visited@[x]]
            0 <= e < ts.len() && 0 <= x < n && visited@[x] && usable(ts[e]) && other_end(ts[e], x)
                >= 0 implies min_u64(best@[x], ts[e].width) <= best@[other_end(ts[e], x)] by {
            if x == node {
                assert(min_u64(best@[node as int], ts[e].width) <= best@[other_end(ts[e], node as int)]);
            }
        }
    }
    Ghost(order_new)
}

/// Raising the width of the unsettled node `next` to what throat `k` from the settled `node`
/// gives it keeps the search state.
#[verifier::rlimit(90)]
#[verifier::spinoff_prover]
proof fn lemma_relaxed(
    ts: Seq<Throat>,
    n: int,
    start: int,
    node: int,
    next: int,
    k: int,
    best_old: Seq<u64>,
    best: Seq<u64>,
    visited: Seq<bool>,
    prev_node_old: Seq<Option<usize>>,
    prev_node: Seq<Option<usize>>,
    prev_edge_old: Seq<Option<usize>>,
    prev_edge: Seq<Option<usize>>,
    order: Seq<int>,
)
    requires
        0 <= node < n <= usize::MAX,
        0 <= next < n,
        0 <= k < ts.len() <= usize::MAX,
        0 <= start < n,
        throats_within(ts, n),
        best_old.len() == n,
        visited.len() == n,
        prev_node_old.len() == n,
        prev_edge_old.len() == n,
        order.len() == n,
        visited[node],
        !visited[next],
        order[next] == n,
        0 <= order[node] < n,
        !ts[k].blocked,
        other_end(ts[k], node) == next,
        min_u64(best_old[node], ts[k].width) > best_old[next],
        best == best_old.update(next, min_u64(best_old[node], ts[k].width)),
        prev_node == prev_node_old.update(next, Some(node as usize)),
        prev_edge == prev_edge_old.update(next, Some(k as usize)),
        best_old[start] == u64::MAX,
        forall|x: int, y: int|
            #![trigger visited[x], visited[y]]
            0 <= x < n && 0 <= y < n && visited[x] && !visited[y] ==> best_old[y] <= best_old[x],
        forall|x: int| 0 <= x < n && #[trigger] visited[x] ==> best_old[node] <= best_old[x],
        forall|e: int, x: int|
            #![trigger ts[e], visited[x]]
            0 <= e < ts.len() && 0 <= x < n && visited[x] && x != node && usable(ts[e])
                && other_end(ts[e], x) >= 0 ==> min_u64(best_old[x], ts[e].width)
                <= best_old[other_end(ts[e], x)],
        forall|e: int|
            0 <= e < k && usable(#[trigger] ts[e]) && other_end(ts[e], node) >= 0
                ==> min_u64(best_old[node], ts[e].width) <= best_old[other_end(ts[e], node)],
        forall|v: int|
            0 <= v < n && v != start && #[trigger] best_old[v] > 0 ==> parent_ok(
                ts,
                n,
                best_old,
                visited,
                prev_node_old,
                prev_edge_old,
                order,
                v,
            ),
    ensures
        best[start] == u64::MAX,
        best[node] == best_old[node],
        forall|x: int, y: int|
            #![trigger visited[x], visited[y]]
            0 <= x < n && 0 <= y < n && visited[x] && !visited[y] ==> best[y] <= best[x],
        forall|x: int| 0 <= x < n && #[trigger] visited[x] ==> best[node] <= best[x],
        forall|e: int, x: int|
            #![trigger ts[e], visited[x]]
            0 <= e < ts.len() && 0 <= x < n && visited[x] && x != node && usable(ts[e])
                && other_end(ts[e], x) >= 0 ==> min_u64(best[x], ts[e].width)
                <= best[other_end(ts[e], x)],
        forall|e: int|
            0 <= e < k + 1 && usable(#[trigger] ts[e]) && other_end(ts[e], node) >= 0
                ==> min_u64(best[node], ts[e].width) <= best[other_end(ts[e], node)],
        forall|v: int|
            0 <= v < n && v != start && #[trigger] best[v] > 0 ==> parent_ok(
                ts,
                n,
                best,
                visited,
                prev_node,
                prev_edge,
                order,
                v,
            ),
{
    assert(next != start);
    assert(next != node);
    assert forall|i: int| 0 <= i < n implies #[trigger] best[i] >= best_old[i] by {}
    assert forall|v: int|
        0 <= v < n && v != start && #[trigger] best[v] > 0 implies parent_ok(
            ts,
            n,
            best,
            visited,
            prev_node,
            prev_edge,
            order,
            v,
        ) by {
        if v != next {
            assert(best_old[v] > 0);
            assert(parent_ok(ts, n, best_old, visited, prev_node_old, prev_edge_old, order, v));
            let u = prev_node_old[v]->0 as int;
            assert(visited[u]);
            assert(u != next);
        } else {
            assert(prev_node[next] == Some(node as usize));
            assert(prev_edge[next] == Some(k as usize));
            assert(ts[k].width > 0);
        }
    }
    assert forall|x: int, y: int|
        #![trigger visited[x], visited[y]]
        0 <= x < n && 0 <= y < n && visited[x] && !visited[y] implies best[y] <= best[x] by {
        assert(x != next);
        if y == next {
            assert(best_old[node] <= best_old[x]);
        }
    }
    assert forall|e: int, x: int|
        #![trigger ts[e], visited[x]]
        0 <= e < ts.len() && 0 <= x < n && visited[x] && x != node && usable(ts[e])
            && other_end(ts[e], x) >= 0 implies min_u64(best[x], ts[e].width)
            <= best[other_end(ts[e], x)] by {
        assert(x != next);
        assert(min_u64(best_old[x], ts[e].width) <= best_old[other_end(ts[e], x)]);
        assert(best[other_end(ts[e], x)] >= best_old[other_end(ts[e], x)]);
    }
    assert forall|e: int|
        0 <= e < k + 1 && usable(#[trigger] ts[e]) && other_end(ts[e], node) >= 0
            implies min_u64(best[node], ts[e].width) <= best[other_end(ts[e], node)] by {
        if e < k {
            assert(min_u64(best_old[node], ts[e].width) <= best_old[other_end(ts[e], node)]);
            assert(best[other_end(ts[e], node)] >= best_old[other_end(ts[e], node)]);
        }
    }
}

/// The widest route of unblocked throats from `start` to `goal`: its bottleneck width and its
/// throats in order, or `None` and no throats when no route exists. Settles nodes widest
/// first, stopping once the goal is the widest unsettled node.
/// No walk from `start` to where `path` ends is wider than `path`.
pub open spec fn widest_to_end(throats: Seq<Throat>, start: int, path: Seq<usize>) -> bool {
    forall|other: Seq<usize>|
        walk_end(throats, start, other) == walk_end(throats, start, path) ==> #[trigger] bottleneck(
            throats,
            other,
        ) <= bottleneck(throats, path)
}

pub fn widest_path(node_count: usize, throats: &[Throat], start: usize, goal: usize) -> (r: (
    Option<u64>,
    Vec<usize>,
))
    requires
        start < node_count,
        goal < node_count,
        throats_within(throats@, node_count as int),
    ensures
        r.0 matches Some(w) ==> walk_end(throats@, start as int, r.1@) == goal && bottleneck(
            throats@,
            r.1@,
        ) == w && forall|path: Seq<usize>|
            walk_end(throats@, start as int, path) == goal ==> #[trigger] bottleneck(throats@, path)
                <= w,
        r.0 is Some ==> forall|k: int|
            0 <= k <= r.1@.len() ==> #[trigger] widest_to_end(throats@, start as int, r.1@.take(k)),
        r.0 is None ==> r.1@.len() == 0 && forall|path: Seq<usize>|
            #[trigger] walk_end(throats@, start as int, path) != goal,
{
    let ghost ts = throats@;
    let n = node_count;
    let mut best: Vec<u64> = Vec::new();
    let mut visited: Vec<bool> = Vec::new();
    let mut prev_node: Vec<Option<usize>> = Vec::new();
    let mut prev_edge: Vec<Option<usize>> = Vec::new();
    let mut fill: usize = 0;
    while fill < n
        invariant
            fill <= n,
            best@.len() == fill,
            visited@.len() == fill,
            prev_node@.len() == fill,
            prev_edge@.len() == fill,
            forall|i: int| 0 <= i < fill ==> best@[i] == 0 && !visited@[i] && prev_node@[i] is None
                && prev_edge@[i] is None,
        decreases n - fill,
    {
        best.push(0);
        visited.push(false);
        prev_node.push(None);
        prev_edge.push(None);
        fill += 1;
    }
    best.set(start, u64::MAX);
    let ghost mut order: Seq<int> = Seq::new(n as nat, |i: int| n as int);
    proof {
        lemma_count_zero(visited@);
    }
    let mut round: usize = 0;
    loop
        invariant
            ts == throats@,
            throats_within(ts, n as int),
            goal < n,
            round <= n,
            search_state(ts, n as int, start as int, best@, visited@, prev_node@, prev_edge@, order, round as int),
        ensures
            search_state(ts, n as int, start as int, best@, visited@, prev_node@, prev_edge@, order, round as int),
            forall|y: int| 0 <= y < n && !(#[trigger] visited@[y]) ==> best@[y] <= best@[goal as int],
        decreases n - round,
    {
        if round == n {
            proof {
                lemma_count_full(visited@);
            }
            break;
        }
        let current = select_widest(&best, &visited);
        let node = match current {
            None => {
                break;
            },
            Some(node) => node,
        };
        if node == goal {
            break;
        }
        let next_order = settle(
            throats,
            n,
            start,
            node,
            &mut best,
            &mut visited,
            &mut prev_node,
            &mut prev_edge,
            Ghost(order),
            round,
        );
        proof {
            order = next_order@;
        }
        round += 1;
    }
    proof {
        if best@[goal as int] == 0 {
            assert forall|path: Seq<usize>| #[trigger] walk_end(ts, start as int, path) != goal by {
                if walk_end(ts, start as int, path) == goal {
                    lemma_walk_bound(ts, n as int, start as int, best@, visited@, best@[goal as int], path);
                    lemma_walk_positive(ts, start as int, path);
                }
            }
        }
    }
    let width = best[goal];
    if width == 0 {
        return (None, Vec::new());
    }
    proof {
        assert forall|path: Seq<usize>|
            walk_end(ts, start as int, path) == goal implies #[trigger] bottleneck(ts, path) <= width by {
            lemma_walk_bound(ts, n as int, start as int, best@, visited@, width, path);
        }
    }
    let mut rev: Vec<usize> = Vec::new();
    let ghost mut nodes: Seq<int> = seq![goal as int];
    let mut cursor: usize = goal;
    while cursor != start
        invariant
            ts == throats@,
            search_state(ts, n as int, start as int, best@, visited@, prev_node@, prev_edge@, order, round as int),
            cursor < n,
            width == best@[goal as int],
            width > 0,
            best@[cursor as int] >= width,
            nodes.len() == rev@.len() + 1,
            nodes[0] == goal,
            nodes[nodes.len() - 1] == cursor,
            forall|i: int| 0 <= i < nodes.len() ==> 0 <= #[trigger] nodes[i] < n,
            forall|i: int| 1 <= i < nodes.len() ==> visited@[#[trigger] nodes[i]],
            forall|i: int|
                0 <= i < rev@.len() ==> (#[trigger] rev@[i]) < ts.len() && usable(ts[rev@[i] as int])
                    && other_end(ts[rev@[i] as int], nodes[i + 1]) == nodes[i] && best@[nodes[i]]
                    == min_u64(best@[nodes[i + 1]], ts[rev@[i] as int].width),
        ensures
            cursor == start,
            nodes.len() == rev@.len() + 1,
            nodes[0] == goal,
            nodes[nodes.len() - 1] == cursor,
            forall|i: int| 0 <= i < nodes.len() ==> 0 <= #[trigger] nodes[i] < n,
            forall|i: int| 1 <= i < nodes.len() ==> visited@[#[trigger] nodes[i]],
            forall|i: int|
                0 <= i < rev@.len() ==> (#[trigger] rev@[i]) < ts.len() && usable(ts[rev@[i] as int])
                    && other_end(ts[rev@[i] as int], nodes[i + 1]) == nodes[i] && best@[nodes[i]]
                    == min_u64(best@[nodes[i + 1]], ts[rev@[i] as int].width),
        decreases order[cursor as int],
    {
        proof {
            assert(parent_ok(ts, n as int, best@, visited@, prev_node@, prev_edge@, order, cursor as int));
        }
        let edge_index = match prev_edge[cursor] {
            Some(e) => e,
            None => {
                break;
            },
        };
        let parent = match prev_node[cursor] {
            Some(u) => u,
            None => {
                break;
            },
        };
        proof {
            assert(visited@[parent as int]);
            assert(order[parent as int] >= 0);
        }
        rev.push(edge_index);
        proof {
            nodes = nodes.push(parent as int);
        }
        cursor = parent;
    }
    let mut path: Vec<usize> = Vec::new();
    let mut j: usize = rev.len();
    while j > 0
        invariant
            ts == throats@,
            j <= rev@.len(),
            nodes.len() == rev@.len() + 1,
            nodes[0] == goal,
            nodes[nodes.len() - 1] == start,
            best@.len() == n,
            best@[start as int] == u64::MAX,
            forall|i: int| 0 <= i < nodes.len() ==> 0 <= #[trigger] nodes[i] < n,
            forall|i: int|
                0 <= i < rev@.len() ==> (#[trigger] rev@[i]) < ts.len() && usable(ts[rev@[i] as int])
                    && other_end(ts[rev@[i] as int], nodes[i + 1]) == nodes[i] && best@[nodes[i]]
                    == min_u64(best@[nodes[i + 1]], ts[rev@[i] as int].width),
            walk_end(ts, start as int, path@) == nodes[j as int],
            bottleneck(ts, path@) == best@[nodes[j as int]],
            path@.len() == rev@.len() - j,
            forall|k: int|
                0 <= k <= path@.len() ==> walk_end(ts, start as int, #[trigger] path@.take(k))
                    == nodes[rev@.len() - k] && bottleneck(ts, path@.take(k)) == best@[nodes[rev@.len() - k]],
        decreases j,
    {
        j -= 1;
        let ghost before = path@;
        path.push(rev[j]);
        proof {
            assert(path@.drop_last() == before);
            assert(rev@[j as int] < ts.len());
            assert forall|k: int|
                0 <= k <= path@.len() implies walk_end(ts, start as int, #[trigger] path@.take(k))
                    == nodes[rev@.len() - k] && bottleneck(ts, path@.take(k)) == best@[nodes[rev@.len() - k]] by {
                if k < path@.len() {
                    assert(path@.take(k) =~= before.take(k));
                } else {
                    assert(path@.take(k) =~= path@);
                }
            }
        }
    }
    proof {
        assert forall|k: int| 0 <= k <= path@.len() implies #[trigger] widest_to_end(ts, start as int, path@.take(k)) by {
            let v = nodes[rev@.len() - k];
            assert(walk_end(ts, start as int, path@.take(k)) == v);
            if k == path@.len() {
                assert(path@.take(k) =~= path@);
            } else {
                assert(visited@[v]);
                assert forall|other: Seq<usize>|
                    walk_end(ts, start as int, other) == walk_end(ts, start as int, path@.take(k)) implies #[trigger] bottleneck(
                    ts,
                    other,
                ) <= bottleneck(ts, path@.take(k)) by {
                    assert forall|y: int| 0 <= y < n && !(#[trigger] visited@[y]) implies best@[y] <= best@[v] by {}
                    lemma_walk_bound(ts, n as int, start as int, best@, visited@, best@[v], other);
                }
            }
        }
    }
    (Some(width), path)
}


/// Whether position `q` of `path` holds its first narrowest throat: no throat of the path is
/// narrower, and every earlier one is wider.
pub open spec fn first_narrowest(throats: Seq<Throat>, path: Seq<usize>, q: int) -> bool {
    &&& 0 <= q < path.len()
    &&& forall|j: int| 0 <= j < path.len() ==> throats[path[q] as int].width <= #[trigger] throats[path[j] as int].width
    &&& forall|j: int| 0 <= j < q ==> throats[path[q] as int].width < #[trigger] throats[path[j] as int].width
}

/// The throat that limits a route: its first narrowest throat, or `None` for an empty route.
pub fn limiting_throat(throats: &[Throat], path: &[usize]) -> (r: Option<usize>)
    requires
        forall|q: int| 0 <= q < path@.len() ==> #[trigger] path@[q] < throats@.len(),
    ensures
        r is None <==> path@.len() == 0,
        r matches Some(e) ==> exists|q: int| #[trigger] first_narrowest(throats@, path@, q) && path@[q] == e,
{
    if path.len() == 0 {
        return None;
    }
    let mut pick: usize = 0;
    let mut q: usize = 1;
    while q < path.len()
        invariant
            1 <= q <= path@.len(),
            pick < q,
            forall|i: int| 0 <= i < path@.len() ==> #[trigger] path@[i] < throats@.len(),
            forall|j: int| 0 <= j < q ==> throats@[path@[pick as int] as int].width <= #[trigger] throats@[path@[j] as int].width,
            forall|j: int| 0 <= j < pick ==> throats@[path@[pick as int] as int].width < #[trigger] throats@[path@[j] as int].width,
        decreases path@.len() - q,
    {
        if throats[path[q]].width < throats[path[pick]].width {
            pick = q;
        }
        q += 1;
    }
    proof {
        assert(first_narrowest(throats@, path@, pick as int));
    }
    Some(path[pick])
}

/// The widest unblocked throat at node `x` among the first throats of `throats`, by its
/// key; `None` where no unblocked throat touches `x`.
pub open spec fn local_gate(throats: Seq<Throat>, x: int) -> Option<u64>
    decreases throats.len(),
{
    if throats.len() == 0 {
        None
    } else {
        let rest = local_gate(throats.drop_last(), x);
        let t = throats.last();
        if !t.blocked && (t.from == x || t.to == x) {
            match rest {
                Some(w) => Some(if w < t.width {
                    t.width
                } else {
                    w
                }),
                None => Some(t.width),
            }
        } else {
            rest
        }
    }
}

/// Node `i` holds the largest cavity gas reaches: it is reached, has an open throat, no
/// reached node has a wider one, and every earlier reached node has a narrower one.
pub open spec fn largest_cavity_at(throats: Seq<Throat>, seen: Seq<bool>, i: int) -> bool {
    &&& 0 <= i < seen.len()
    &&& seen[i]
    &&& local_gate(throats, i) is Some
    &&& forall|j: int|
        0 <= j < seen.len() && seen[j] && #[trigger] local_gate(throats, j) is Some ==> local_gate(
            throats,
            j,
        )->0 <= local_gate(throats, i)->0
    &&& forall|j: int|
        0 <= j < i && seen[j] && #[trigger] local_gate(throats, j) is Some ==> local_gate(throats, j)->0
            < local_gate(throats, i)->0
}

/// The widest unblocked throat at node `x`.
fn gate_of(throats: &[Throat], x: usize) -> (g: Option<u64>)
    ensures
        g == local_gate(throats@, x as int),
{
    let mut g: Option<u64> = None;
    let mut e: usize = 0;
    while e < throats.len()
        invariant
            e <= throats@.len(),
            g == local_gate(throats@.take(e as int), x as int),
        decreases throats@.len() - e,
    {
        proof {
            assert(throats@.take(e + 1).drop_last() =~= throats@.take(e as int));
        }
        let t = throats[e];
        if !t.blocked && (t.from == x || t.to == x) {
            g = match g {
                Some(w) => Some(if w < t.width {
                    t.width
                } else {
                    w
                }),
                None => Some(t.width),
            };
        }
        e += 1;
    }
    proof {
        assert(throats@.take(throats@.len() as int) =~= throats@);
    }
    g
}

/// The reached node with the widest open throat, the first of equals: the pore where the
/// largest cavity gas reaches sits. `None` where no reached node has an open throat.
pub fn largest_reachable_node(throats: &[Throat], seen: &[bool]) -> (r: Option<usize>)
    ensures
        match r {
            Some(i) => largest_cavity_at(throats@, seen@, i as int),
            None => forall|j: int|
                0 <= j < seen@.len() && seen@[j] ==> #[trigger] local_gate(throats@, j) is None,
        },
{
    let mut best: Option<usize> = None;
    let mut best_gate: u64 = 0;
    let mut i: usize = 0;
    while i < seen.len()
        invariant
            i <= seen@.len(),
            match best {
                Some(b) => {
                    &&& b < i
                    &&& seen@[b as int]
                    &&& local_gate(throats@, b as int) == Some(best_gate)
                    &&& forall|j: int|
                        0 <= j < i && seen@[j] && #[trigger] local_gate(throats@, j) is Some ==> local_gate(
                            throats@,
                            j,
                        )->0 <= best_gate
                    &&& forall|j: int|
                        0 <= j < b && seen@[j] && #[trigger] local_gate(throats@, j) is Some
                            ==> local_gate(throats@, j)->0 < best_gate
                },
                None => forall|j: int|
                    0 <= j < i && seen@[j] ==> #[trigger] local_gate(throats@, j) is None,
            },
        decreases seen@.len() - i,
    {
        if seen[i] {
            let g = gate_of(throats, i);
            match g {
                Some(w) => {
                    let better = match best {
                        Some(_) => best_gate < w,
                        None => true,
                    };
                    if better {
                        best = Some(i);
                        best_gate = w;
                    }
                },
                None => {},
            }
        }
        i += 1;
    }
    best
}

/// The headline of a hint.
#[derive(Clone, Copy, PartialEq, Eq, Structural, Debug)]
pub enum HintKind {
    /// No route: open a lane, then widen the limiting aperture.
    Reconnect,
    /// A route that misses the target: widen its limiting aperture.
    WidestPathFound,
    /// An open route whose bottleneck sits right at the target.
    ThresholdHit,
    /// An open route with room to spare: try fewer moves.
    SmoothRun,
}

/// Why a candidate network is worth flagging, the first reason that applies.
#[derive(Clone, Copy, PartialEq, Eq, Structural, Debug)]
pub enum CandidateNote {
    /// Two edits or fewer raised the classification.
    MovesFlipped,
    /// The best bottleneck sits near the target.
    NearTarget,
    /// Open, but at a middling modification cost.
    TradeOff,
    /// The accessibility score jumped.
    ScoreJump,
    /// Nothing sharp happened yet.
    NoTransition,
}

/// The decisions behind the guidance panel.
#[derive(Clone, Copy, PartialEq, Eq, Structural, Debug)]
pub struct GuidancePlan {
    pub hint: HintKind,
    pub note: CandidateNote,
    pub interesting: bool,
}

/// Chooses the hint and the candidate note. The measured facts come in as flags:
/// `at_threshold`, the bottleneck is within 0.12 of the target; `near_threshold`, a route
/// exists and its bottleneck is within 0.10 of the target; `in_tradeoff_window`, the
/// modification cost lies strictly between 0.18 and 0.42; `big_score_gain`, the score rose by
/// more than 18 over the baseline.
pub fn plan_guidance(
    current: Classification,
    baseline: Classification,
    at_threshold: bool,
    near_threshold: bool,
    changed_edges: usize,
    in_tradeoff_window: bool,
    big_score_gain: bool,
) -> (plan: GuidancePlan)
    ensures
        plan.hint == (match current {
            Classification::Blocked => HintKind::Reconnect,
            Classification::Bottlenecked => HintKind::WidestPathFound,
            Classification::Open => if at_threshold {
                HintKind::ThresholdHit
            } else {
                HintKind::SmoothRun
            },
        }),
        ({
            let low_edit_flip = changed_edges <= 2 && spec_rank(current) > spec_rank(baseline);
            let tradeoff = current == Classification::Open && in_tradeoff_window;
            &&& plan.interesting == (near_threshold || low_edit_flip || tradeoff || big_score_gain)
            &&& plan.note == if low_edit_flip {
                CandidateNote::MovesFlipped
            } else if near_threshold {
                CandidateNote::NearTarget
            } else if tradeoff {
                CandidateNote::TradeOff
            } else if big_score_gain {
                CandidateNote::ScoreJump
            } else {
                CandidateNote::NoTransition
            }
        }),
{
    let hint = match current {
        Classification::Blocked => HintKind::Reconnect,
        Classification::Bottlenecked => HintKind::WidestPathFound,
        Classification::Open => if at_threshold {
            HintKind::ThresholdHit
        } else {
            HintKind::SmoothRun
        },
    };
    let jump = current.rank() - baseline.rank();
    let low_edit_flip = changed_edges <= 2 && jump > 0;
    let tradeoff = current == Classification::Open && in_tradeoff_window;
    let interesting = near_threshold || low_edit_flip || tradeoff || big_score_gain;
    let note = if low_edit_flip {
        CandidateNote::MovesFlipped
    } else if near_threshold {
        CandidateNote::NearTarget
    } else if tradeoff {
        CandidateNote::TradeOff
    } else if big_score_gain {
        CandidateNote::ScoreJump
    } else {
        CandidateNote::NoTransition
    };
    GuidancePlan { hint, note, interesting }
}


/// A pore's part in a network: where gas enters, where it must arrive, or neither.
#[derive(Clone, Copy, PartialEq, Eq, Structural, Debug)]
pub enum NodeRole {
    Inlet,
    Outlet,
    Internal,
}

/// The texts of the guidance panel, and whether the candidate is flagged.
#[derive(Clone, Debug)]
pub struct Guidance {
    pub hint_title: String,
    pub hint_text: String,
    pub candidate_title: String,
    pub candidate_text: String,
    pub interesting: bool,
}

/// The name of the limiting throat, or a generic name where the route has none.
pub open spec fn limiting_name(label: Option<&str>) -> Seq<char> {
    match label {
        Some(name) => name@,
        None => "limiting aperture"@,
    }
}

/// Headline of a hint.
pub open spec fn hint_title_text(hint: HintKind) -> Seq<char> {
    match hint {
        HintKind::Reconnect => "Reconnect"@,
        HintKind::WidestPathFound => "Widest path found"@,
        HintKind::ThresholdHit => "Threshold hit"@,
        HintKind::SmoothRun => "Smooth run"@,
    }
}

/// Body of a hint; `target` and `clearance` are the target and the clearance as shown.
pub open spec fn hint_body_text(hint: HintKind, name: Seq<char>, target: Seq<char>, clearance: Seq<char>) -> Seq<
    char,
> {
    match hint {
        HintKind::Reconnect => "Open one lane, then widen the "@ + name + "."@,
        HintKind::WidestPathFound => name + " is still below "@ + target + "."@,
        HintKind::ThresholdHit => "Clearance is only "@ + clearance + "."@,
        HintKind::SmoothRun => "Now beat it in fewer moves."@,
    }
}

/// Text of a candidate note; a flip counts at least one move.
pub open spec fn note_text(note: CandidateNote, changed_edges: nat, target: Seq<char>, gain: Seq<char>) -> Seq<
    char,
> {
    match note {
        CandidateNote::MovesFlipped => decimal(if changed_edges == 0 {
            1
        } else {
            changed_edges
        }) + " moves flipped transport."@,
        CandidateNote::NearTarget => "Best gate sits near "@ + target + "."@,
        CandidateNote::TradeOff => "Open, but expensive. There is a real trade-off."@,
        CandidateNote::ScoreJump => "Score jumped by "@ + gain + "."@,
        CandidateNote::NoTransition => "No sharp transition yet."@,
    }
}

/// Writes out the guidance for a plan. The figures come already formatted: `target_text`
/// the target to one decimal, `clearance_text` the bottleneck's margin over the target to
/// two, `gain_text` the score gain to none.
pub fn build_guidance(
    plan: GuidancePlan,
    limiting_label: Option<&str>,
    changed_edges: usize,
    target_text: &str,
    clearance_text: &str,
    gain_text: &str,
) -> (g: Guidance)
    ensures
        g.hint_title@ == hint_title_text(plan.hint),
        g.hint_text@ == hint_body_text(plan.hint, limiting_name(limiting_label), target_text@, clearance_text@),
        g.candidate_title@ == (if plan.interesting {
            "Flagged"@
        } else {
            "Not flagged"@
        }),
        g.candidate_text@ == note_text(plan.note, changed_edges as nat, target_text@, gain_text@),
        g.interesting == plan.interesting,
{
    let name: &str = match limiting_label {
        Some(label) => label,
        None => "limiting aperture",
    };
    let (hint_title, hint_text) = match plan.hint {
        HintKind::Reconnect => {
            let mut text = "Open one lane, then widen the ".to_owned();
            text.append(name);
            text.append(".");
            ("Reconnect".to_owned(), text)
        },
        HintKind::WidestPathFound => {
            let mut text = name.to_owned();
            text.append(" is still below ");
            text.append(target_text);
            text.append(".");
            ("Widest path found".to_owned(), text)
        },
        HintKind::ThresholdHit => {
            let mut text = "Clearance is only ".to_owned();
            text.append(clearance_text);
            text.append(".");
            ("Threshold hit".to_owned(), text)
        },
        HintKind::SmoothRun => ("Smooth run".to_owned(), "Now beat it in fewer moves.".to_owned()),
    };
    let candidate_text = match plan.note {
        CandidateNote::MovesFlipped => {
            let moves: u64 = if changed_edges == 0 {
                1
            } else {
                changed_edges as u64
            };
            let mut text = String::new();
            push_decimal(&mut text, moves);
            text.append(" moves flipped transport.");
            text
        },
        CandidateNote::NearTarget => {
            let mut text = "Best gate sits near ".to_owned();
            text.append(target_text);
            text.append(".");
            text
        },
        CandidateNote::TradeOff => "Open, but expensive. There is a real trade-off.".to_owned(),
        CandidateNote::ScoreJump => {
            let mut text = "Score jumped by ".to_owned();
            text.append(gain_text);
            text.append(".");
            text
        },
        CandidateNote::NoTransition => "No sharp transition yet.".to_owned(),
    };
    let candidate_title = if plan.interesting {
        "Flagged".to_owned()
    } else {
        "Not flagged".to_owned()
    };
    Guidance { hint_title, hint_text, candidate_title, candidate_text, interesting: plan.interesting }
}

/// Some walk of usable throats leads from `start` to `goal`.
pub open spec fn has_route(throats: Seq<Throat>, start: int, goal: int) -> bool {
    exists|path: Seq<usize>| #[trigger] walk_end(throats, start, path) == goal
}

proof fn lemma_walk_inside_closed(throats: Seq<Throat>, start: int, s: Set<int>, path: Seq<usize>)
    requires
        reach_closed(throats, start, s),
        walk_end(throats, start, path) >= 0,
    ensures
        s.contains(walk_end(throats, start, path)),
    decreases path.len(),
{
    if path.len() > 0 {
        let prefix = path.drop_last();
        lemma_walk_inside_closed(throats, start, s, prefix);
        let y = walk_end(throats, start, prefix);
        let e = path.last() as int;
        assert(s.contains(y) && !throats[e].blocked && other_end(throats[e], y) >= 0);
    }
}

/// When every open throat has a positive width, gas reaches a pore exactly when a route of
/// throats leads to it: the pores `reachable_nodes` marks are those `widest_path` finds a
/// route to.
pub proof fn lemma_route_iff_reachable(throats: Seq<Throat>, start: int, goal: int)
    requires
        0 <= start,
        0 <= goal,
        throats.len() <= usize::MAX,
        forall|e: int| 0 <= e < throats.len() && !(#[trigger] throats[e]).blocked ==> throats[e].width > 0,
    ensures
        has_route(throats, start, goal) <==> reachable(throats, start, goal),
{
    if has_route(throats, start, goal) {
        let path = choose|path: Seq<usize>| #[trigger] walk_end(throats, start, path) == goal;
        assert forall|s: Set<int>| #[trigger] reach_closed(throats, start, s) implies s.contains(goal) by {
            lemma_walk_inside_closed(throats, start, s, path);
        }
    }
    if reachable(throats, start, goal) {
        let routes = Set::new(|x: int| has_route(throats, start, x));
        assert(walk_end(throats, start, Seq::<usize>::empty()) == start);
        assert(routes.contains(start));
        assert forall|e: int, x: int|
            #![trigger routes.contains(x), throats[e]]
            0 <= e < throats.len() && routes.contains(x) && !throats[e].blocked && other_end(throats[e], x)
                >= 0 implies routes.contains(other_end(throats[e], x)) by {
            let path = choose|path: Seq<usize>| #[trigger] walk_end(throats, start, path) == x;
            let longer = path.push(e as usize);
            assert(longer.drop_last() == path);
            assert(longer.last() as int == e);
            assert(walk_end(throats, start, longer) == other_end(throats[e], x));
        }
        assert(reach_closed(throats, start, routes));
        assert(routes.contains(goal));
    }
}

} // verus!
