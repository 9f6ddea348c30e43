//! A* search from a start board to a goal board, with a node table for
//! parent pointers and a map from board to table index for duplicate detection.

use crate::board::{gen_goal_tuple, heuristic, is_path, positions_ok, reachable, successors, Board};
use crate::minheap::{initialize, Heap};
use std::collections::HashMap;
use vstd::prelude::*;

verus! {

/// One discovered board: its cheapest known path cost from the start, that cost
/// plus the heuristic (saturated at `i32::MAX`), and the table index of its
/// predecessor on that path. The start's predecessor is itself.
#[derive(Clone, Copy)]
pub struct NodeRecord {
    pub state: Board,
    pub g_cost: usize,
    pub f_cost: i32,
    pub parent_index: usize,
}

/// Entry 0 is the start; every other entry is one move from its parent, whose
/// cost is strictly lower.
pub open spec fn chain_ok(table: Seq<NodeRecord>, start: Board) -> bool {
    &&& table.len() > 0
    &&& table[0].state == start
    &&& table[0].g_cost == 0
    &&& table[0].parent_index == 0
    &&& forall|i: int|
        0 <= i < table.len() ==> (#[trigger] table[i]).parent_index < table.len()
            && table[i].g_cost < table.len() && table[i].state.has_hole()
    &&& forall|i: int|
        0 < i < table.len() ==> table[(#[trigger] table[i]).parent_index as int].g_cost
            < table[i].g_cost && successors(table[table[i].parent_index as int].state).contains(
            table[i].state,
        )
}

/// The map sends the packed form of each entry's board to that entry, and
/// holds nothing else.
pub open spec fn index_ok(table: Seq<NodeRecord>, index: Map<u64, usize>) -> bool {
    &&& forall|i: int|
        0 <= i < table.len() ==> index.contains_key((#[trigger] table[i]).state.cells)
            && index[table[i].state.cells] == i
    &&& forall|c: u64| #[trigger]
        index.contains_key(c) ==> index[c] < table.len() && table[index[c] as int].state.cells
            == c
}

/// Walking parent indices from entry `i` reaches entry 0 within `fuel` steps,
/// with every index met inside the table.
pub open spec fn walk_reaches_start(table: Seq<NodeRecord>, i: int, fuel: nat) -> bool
    decreases fuel,
{
    &&& 0 <= i < table.len()
    &&& (i == 0 || (fuel > 0 && walk_reaches_start(
        table,
        table[i].parent_index as int,
        (fuel - 1) as nat,
    )))
}

/// The boards met walking parent indices from entry `i` back to entry 0, for
/// at most `fuel` steps, listed from entry 0 forward.
#[verifier::opaque]
pub open spec fn parent_chain(table: Seq<NodeRecord>, i: int, fuel: nat) -> Seq<Board>
    decreases fuel,
{
    if i == 0 || fuel == 0 {
        seq![table[i].state]
    } else {
        parent_chain(table, table[i].parent_index as int, (fuel - 1) as nat).push(table[i].state)
    }
}

/// Every entry but the first is one move from its parent.
pub open spec fn parents_adjacent(table: Seq<NodeRecord>) -> bool {
    forall|i: int|
        0 < i < table.len() ==> successors(
            table[(#[trigger] table[i]).parent_index as int].state,
        ).contains(table[i].state)
}

/// Every entry but the first has its parent at a lower index.
pub open spec fn parents_before(table: Seq<NodeRecord>) -> bool {
    forall|i: int| 0 < i < table.len() ==> (#[trigger] table[i]).parent_index < i
}

/// A chain whose walk reaches entry 0 starts there and ends at entry `i`; it
/// is a path when parents are one move from their entries, and it is no
/// longer than `i + 1` when parents come before their entries.
proof fn lemma_parent_chain(table: Seq<NodeRecord>, i: int, fuel: nat)
    requires
        walk_reaches_start(table, i, fuel),
    ensures
        parent_chain(table, i, fuel).len() > 0,
        parent_chain(table, i, fuel)[0] == table[0].state,
        parent_chain(table, i, fuel).last() == table[i].state,
        parents_adjacent(table) ==> is_path(parent_chain(table, i, fuel)),
        parents_before(table) ==> parent_chain(table, i, fuel).len() <= i + 1,
    decreases fuel,
{
    reveal(parent_chain);
    if i != 0 {
        let p = table[i].parent_index as int;
        let f = (fuel - 1) as nat;
        lemma_parent_chain(table, p, f);
        let up = parent_chain(table, p, f);
        let c = parent_chain(table, i, fuel);
        assert(c == up.push(table[i].state));
        assert(c[0] == up[0]);
        if parents_adjacent(table) {
            assert forall|k: int| 0 <= k < c.len() - 1 implies successors(c[k]).contains(
                #[trigger] c[k + 1],
            ) by {
                if k < up.len() - 1 {
                    assert(c[k] == up[k] && c[k + 1] == up[k + 1]);
                    assert(successors(up[k]).contains(up[k + 1]));
                } else {
                    assert(c[k] == up.last() && up.last() == table[p].state);
                    assert(successors(table[table[i].parent_index as int].state).contains(
                        table[i].state,
                    ));
                }
            }
        }
    }
}

/// When parents come before their entries, the walk from entry `i` reaches
/// entry 0 within `i` steps.
pub proof fn lemma_parents_before_walks(table: Seq<NodeRecord>, i: int, fuel: nat)
    requires
        parents_before(table),
        0 <= i < table.len(),
        i <= fuel,
    ensures
        walk_reaches_start(table, i, fuel),
    decreases fuel,
{
    if i != 0 {
        assert(table[i].parent_index < i);
        lemma_parents_before_walks(table, table[i].parent_index as int, (fuel - 1) as nat);
    }
}

/// Under the search's table invariant the walk from any entry reaches entry
/// 0 within its cost in steps, and parents are one move from their entries.
proof fn lemma_chain_ok_walks(table: Seq<NodeRecord>, start: Board, i: int, fuel: nat)
    requires
        chain_ok(table, start),
        0 <= i < table.len(),
        table[i].g_cost <= fuel,
    ensures
        walk_reaches_start(table, i, fuel),
        parents_adjacent(table),
    decreases fuel,
{
    if i != 0 {
        let p = table[i].parent_index as int;
        assert(table[p].g_cost < table[i].g_cost);
        lemma_chain_ok_walks(table, start, p, (fuel - 1) as nat);
    }
}

/// The boards from entry 0 to entry `current_node_index`, found by following
/// parent indices back and then reversing.
fn reconstruct_path(current_node_index: usize, node_table: &Vec<NodeRecord>) -> (r: Vec<Board>)
    requires
        walk_reaches_start(node_table@, current_node_index as int, node_table@.len()),
    ensures
        r@ == parent_chain(node_table@, current_node_index as int, node_table@.len()),
        r@.len() > 0,
        r@[0] == node_table@[0].state,
        r@.last() == node_table@[current_node_index as int].state,
        parents_adjacent(node_table@) ==> is_path(r@),
        parents_before(node_table@) ==> r@.len() <= current_node_index + 1,
{
    let ghost chain = parent_chain(node_table@, current_node_index as int, node_table@.len());
    proof {
        lemma_parent_chain(node_table@, current_node_index as int, node_table@.len());
    }
    let mut index = current_node_index;
    let ghost mut fuel: nat = node_table@.len();
    let mut back: Vec<Board> = Vec::new();
    while index != 0
        invariant
            walk_reaches_start(node_table@, index as int, fuel),
            back@.len() < chain.len(),
            parent_chain(node_table@, index as int, fuel) =~= chain.subrange(
                0,
                chain.len() - back@.len(),
            ),
            forall|k: int| 0 <= k < back@.len() ==> #[trigger] back@[k] == chain[chain.len() - 1 - k],
        decreases fuel,
    {
        let ghost prev = back@;
        back.push(node_table[index].state);
        proof {
            reveal(parent_chain);
            let t = node_table@[index as int];
            let up_fuel = (fuel - 1) as nat;
            let here = parent_chain(node_table@, index as int, fuel);
            let up = parent_chain(node_table@, t.parent_index as int, up_fuel);
            assert(here == up.push(t.state));
            assert(here[here.len() - 1] == chain[chain.len() - 1 - prev.len()]);
            assert(up =~= chain.subrange(0, chain.len() - back@.len()));
            lemma_parent_chain(node_table@, t.parent_index as int, up_fuel);
            fuel = up_fuel;
        }
        index = node_table[index].parent_index;
    }
    let ghost prev = back@;
    back.push(node_table[0].state);
    proof {
        reveal(parent_chain);
        assert(parent_chain(node_table@, 0, fuel) == seq![node_table@[0].state]);
        assert(chain.len() - prev.len() == 1);
        assert(chain.subrange(0, chain.len() - prev.len())[0] == chain[0]);
    }
    let mut path: Vec<Board> = Vec::new();
    let n = back.len();
    let mut j = n;
    while j > 0
        invariant
            n == back@.len(),
            n == chain.len(),
            j <= n,
            path@.len() == n - j,
            forall|k: int| 0 <= k < n ==> #[trigger] back@[k] == chain[n - 1 - k],
            forall|k: int| 0 <= k < path@.len() ==> #[trigger] path@[k] == chain[k],
        decreases j,
    {
        j = j - 1;
        path.push(back[j]);
    }
    proof {
        assert(path@ =~= chain);
    }
    path
}

/// The sum of the path costs of the entries.
pub open spec fn total_cost(table: Seq<NodeRecord>) -> int
    decreases table.len(),
{
    if table.len() == 0 {
        0
    } else {
        total_cost(table.drop_last()) + table.last().g_cost
    }
}

proof fn lemma_total_cost_nonneg(table: Seq<NodeRecord>)
    ensures
        total_cost(table) >= 0,
    decreases table.len(),
{
    if table.len() > 0 {
        lemma_total_cost_nonneg(table.drop_last());
    }
}

/// Replacing one entry changes the total by the difference of the two costs.
proof fn lemma_total_cost_update(table: Seq<NodeRecord>, i: int, rec: NodeRecord)
    requires
        0 <= i < table.len(),
    ensures
        total_cost(table.update(i, rec)) == total_cost(table) - table[i].g_cost + rec.g_cost,
    decreases table.len(),
{
    let u = table.update(i, rec);
    if i == table.len() - 1 {
        assert(u.drop_last() =~= table.drop_last());
    } else {
        assert(u.drop_last() =~= table.drop_last().update(i, rec));
        lemma_total_cost_update(table.drop_last(), i, rec);
    }
}

/// What a search from `start` to `goal` returns: a path from the one to the
/// other when there is one, and nothing otherwise.
pub open spec fn search_result(start: Board, goal: Board, r: Seq<Board>) -> bool {
    if reachable(start, goal) {
        r.len() > 0 && r[0] == start && r.last() == goal && is_path(r)
    } else {
        r.len() == 0
    }
}

/// A search whose goal cannot be reached from its start returns nothing.
pub proof fn lemma_unreachable_goal_gives_empty(start: Board, goal: Board, r: Seq<Board>)
    requires
        !reachable(start, goal),
        search_result(start, goal, r),
    ensures
        r.len() == 0,
{
    if r.len() > 0 {
        assert(r.len() > 0 && r[0] == start && r.last() == goal && is_path(r));
    }
}

/// Two searches on the same start and goal both find a path or both find
/// none, and their paths begin and end on the same boards.
pub proof fn lemma_searches_agree_on_endpoints(
    start: Board,
    goal: Board,
    r1: Seq<Board>,
    r2: Seq<Board>,
)
    requires
        search_result(start, goal, r1),
        search_result(start, goal, r2),
    ensures
        r1.len() == 0 <==> r2.len() == 0,
        r1.len() > 0 ==> r1[0] == r2[0] && r1.last() == r2.last(),
{
}

/// Entry `i` has been expanded: it is not the goal, and every board one move
/// from it is in the map.
pub open spec fn expanded(
    table: Seq<NodeRecord>,
    index: Map<u64, usize>,
    goal: Board,
    i: int,
) -> bool {
    &&& table[i].state != goal
    &&& forall|m: int|
        0 <= m < successors(table[i].state).len() ==> index.contains_key(
            (#[trigger] successors(table[i].state)[m]).cells,
        )
}

/// Some pair in the queue names entry `i`.
pub open spec fn queued(queue: Seq<(i32, usize)>, i: int) -> bool {
    exists|k: i32| #[trigger] queue.to_multiset().count((k, i as usize)) > 0
}

/// When every entry has been expanded, every board reachable from the start
/// is in the map.
proof fn lemma_expanded_table_holds_reachable(
    table: Seq<NodeRecord>,
    index: Map<u64, usize>,
    start: Board,
    goal: Board,
    p: Seq<Board>,
)
    requires
        chain_ok(table, start),
        index_ok(table, index),
        forall|i: int| 0 <= i < table.len() ==> #[trigger] expanded(table, index, goal, i),
        p.len() > 0,
        p[0] == start,
        is_path(p),
    ensures
        index.contains_key(p.last().cells),
    decreases p.len(),
{
    if p.len() == 1 {
        assert(table[0].state == start);
    } else {
        let q = p.drop_last();
        assert(is_path(q)) by {
            assert forall|k: int| 0 <= k < q.len() - 1 implies successors(q[k]).contains(
                #[trigger] q[k + 1],
            ) by {
                assert(successors(p[k]).contains(p[k + 1]));
            }
        }
        lemma_expanded_table_holds_reachable(table, index, start, goal, q);
        let b = q.last();
        let i = index[b.cells] as int;
        assert(table[i].state == b);
        assert(expanded(table, index, goal, i));
        assert(successors(p[p.len() - 2]).contains(p[p.len() - 2 + 1]));
        let m = choose|m: int| 0 <= m < successors(b).len() && successors(b)[m] == p.last();
        assert(index.contains_key(successors(table[i].state)[m].cells));
    }
}

/// Every queued pair names an entry of the node table.
pub open spec fn queue_ok(queue: Seq<(i32, usize)>, n: int) -> bool {
    forall|e: (i32, usize)| #[trigger] queue.to_multiset().count(e) > 0 ==> e.1 < n
}

/// Records `child`, one move from entry `current` and reached at cost `g_cost`:
/// a new board gets a new entry and is queued; a known board reached more
/// cheaply gets its entry updated and is queued again.
fn visit(
    node_table: &mut Vec<NodeRecord>,
    double_map: &mut HashMap<u64, usize>,
    prior_queue: &mut Heap,
    current: usize,
    child: Board,
    g_cost: usize,
    f_cost: i32,
    start: Ghost<Board>,
)
    requires
        old(prior_queue).wf(),
        chain_ok(old(node_table)@, start@),
        index_ok(old(node_table)@, old(double_map)@),
        queue_ok(old(prior_queue)@, old(node_table)@.len() as int),
        old(node_table)@.len() <= usize::MAX,
        current < old(node_table)@.len(),
        successors(old(node_table)@[current as int].state).contains(child),
        child.has_hole(),
        g_cost == old(node_table)@[current as int].g_cost + 1,
    ensures
        final(prior_queue).wf(),
        chain_ok(final(node_table)@, start@),
        index_ok(final(node_table)@, final(double_map)@),
        queue_ok(final(prior_queue)@, final(node_table)@.len() as int),
        final(node_table)@.len() <= usize::MAX,
        final(node_table)@.len() >= old(node_table)@.len(),
        forall|i: int|
            0 <= i < old(node_table)@.len() ==> (#[trigger] final(node_table)@[i]).state == old(
                node_table,
            )@[i].state,
        final(node_table)@[current as int] == old(node_table)@[current as int],
        forall|c: u64|
            old(double_map)@.contains_key(c) ==> #[trigger] final(double_map)@.contains_key(c),
        final(double_map)@.contains_key(child.cells),
        forall|e: (i32, usize)|
            old(prior_queue)@.to_multiset().count(e)
                <= #[trigger] final(prior_queue)@.to_multiset().count(e),
        forall|i: int|
            old(node_table)@.len() <= i < final(node_table)@.len() ==> #[trigger] queued(
                final(prior_queue)@,
                i,
            ),
        final(node_table)@.len() == old(node_table)@.len() ==> total_cost(final(node_table)@)
            < total_cost(old(node_table)@) || (total_cost(final(node_table)@) == total_cost(
            old(node_table)@,
        ) && final(prior_queue)@.len() == old(prior_queue)@.len()),
{
    broadcast use vstd::std_specs::hash::group_hash_axioms;
    broadcast use vstd::seq_lib::group_to_multiset_ensures;

    match double_map.get(&child.cells) {
        Some(pos) => {
            let pos = *pos;
            if g_cost < node_table[pos].g_cost {
                let ghost before = node_table@;
                assert(before[pos as int].state == child);
                let improved = NodeRecord {
                    state: child,
                    g_cost,
                    f_cost,
                    parent_index: current,
                };
                node_table.set(pos, improved);
                proof {
                    lemma_total_cost_update(before, pos as int, improved);

                    let t = node_table@;
                    assert forall|i: int| 0 < i < t.len() implies t[(
                    #[trigger] t[i]).parent_index as int].g_cost < t[i].g_cost
                        && successors(t[t[i].parent_index as int].state).contains(
                        t[i].state,
                    ) by {
                        if i != pos {
                            assert(t[i] == before[i]);
                            let q = before[i].parent_index as int;
                            assert(before[q].g_cost < before[i].g_cost);
                            assert(t[q].state == before[q].state);
                        }
                    }
                }
                prior_queue.push(f_cost, pos);
            }
        },
        None => {
            let ghost before = node_table@;
            node_table.push(
                NodeRecord {
                    state: child,
                    g_cost,
                    f_cost,
                    parent_index: current,
                },
            );
            let n = node_table.len() - 1;
            double_map.insert(child.cells, n);
            proof {
                let t = node_table@;
                assert forall|i: int| 0 < i < t.len() implies t[(
                #[trigger] t[i]).parent_index as int].g_cost < t[i].g_cost
                    && successors(t[t[i].parent_index as int].state).contains(
                    t[i].state,
                ) by {
                    if i < n {
                        assert(t[i] == before[i]);
                        let q = before[i].parent_index as int;
                        assert(before[q].g_cost < before[i].g_cost);
                    }
                }
                assert forall|i: int| 0 <= i < t.len() implies double_map@.contains_key(
                    (#[trigger] t[i]).state.cells,
                ) && double_map@[t[i].state.cells] == i by {
                    if i < n {
                        assert(t[i] == before[i]);
                    }
                }
            }
            prior_queue.push(f_cost, n);
            assert(prior_queue@.to_multiset().count((f_cost, n)) > 0);
        },
    }
}

/// A* from `start` to `goal` with unit move costs and the Manhattan distance
/// as estimate. A board reached again by a cheaper path gets its entry
/// updated and is queued once more under the lower estimate. The search ends
/// when the goal is taken from the queue, with the path that leads to it, or
/// when the queue runs dry, with nothing: the goal cannot then be reached.
#[verifier::rlimit(60)]
pub fn a_star(start: Board, goal: &Board) -> (r: Vec<Board>)
    requires
        start.has_hole() || start == *goal,
    ensures
        search_result(start, *goal, r@),
        start == *goal ==> r@ == seq![start],
{
    broadcast use vstd::std_specs::hash::group_hash_axioms;
    broadcast use vstd::seq_lib::group_to_multiset_ensures;

    if start == *goal {
        proof {
            let p = seq![start];
            assert(p.len() > 0 && p[0] == start && p.last() == *goal && is_path(p));
        }
        return vec![start];
    }
    let mut prior_queue = initialize();
    let mut node_table: Vec<NodeRecord> = Vec::new();
    let mut double_map: HashMap<u64, usize> = HashMap::new();
    let goal_tuple = gen_goal_tuple(goal);

    prior_queue.push(0, 0);
    node_table.push(NodeRecord { state: start, g_cost: 0, f_cost: 0, parent_index: 0 });
    double_map.insert(start.cells, 0);
    assert forall|i: int| 0 <= i < node_table@.len() implies #[trigger] expanded(
        node_table@,
        double_map@,
        *goal,
        i,
    ) || queued(prior_queue@, i) by {
        assert(prior_queue@.to_multiset().count((0i32, i as usize)) > 0);
    }

    while !prior_queue.is_empty()
        invariant
            prior_queue.wf(),
            chain_ok(node_table@, start),
            index_ok(node_table@, double_map@),
            queue_ok(prior_queue@, node_table@.len() as int),
            positions_ok(goal_tuple@),
            node_table@.len() <= usize::MAX,
            start != *goal,
            forall|i: int|
                0 <= i < node_table@.len() ==> #[trigger] expanded(
                    node_table@,
                    double_map@,
                    *goal,
                    i,
                )
                    || queued(prior_queue@, i),
        decreases usize::MAX - node_table@.len(), total_cost(node_table@), prior_queue@.len(),
    {
        let ghost len0 = node_table@.len();
        let ghost cost0 = total_cost(node_table@);
        let ghost queue0 = prior_queue@.len();
        let ghost before_pop = prior_queue@;
        let popped = prior_queue.pop();
        let current = popped.1;
        assert(before_pop.to_multiset().count(popped) > 0);
        assert forall|e: (i32, usize)|
            #[trigger] prior_queue@.to_multiset().count(e) > 0 implies e.1 < node_table@.len() by {
            assert(before_pop.to_multiset().count(e) > 0);
        }
        assert forall|i: int|
            0 <= i < node_table@.len() && i != current && !expanded(
                node_table@,
                double_map@,
                *goal,
                i,
            ) implies queued(prior_queue@, i) by {
            let k = choose|k: i32| #[trigger] before_pop.to_multiset().count((k, i as usize)) > 0;
            assert(prior_queue@.to_multiset().count((k, i as usize)) > 0);
        }
        let current_node = node_table[current].state;

        if current_node == *goal {
            proof {
                lemma_chain_ok_walks(
                    node_table@,
                    start,
                    current as int,
                    node_table@.len(),
                );
            }
            return reconstruct_path(current, &node_table);
        }

        let children = current_node.possible_moves();
        let tentative_path_cost = node_table[current].g_cost + 1;
        let mut j: usize = 0;
        while j < children.len()
            invariant
                prior_queue.wf(),
                chain_ok(node_table@, start),
                index_ok(node_table@, double_map@),
                queue_ok(prior_queue@, node_table@.len() as int),
                positions_ok(goal_tuple@),
                current < node_table@.len(),
                node_table@[current as int].state == current_node,
                tentative_path_cost == node_table@[current as int].g_cost + 1,
                children@ == successors(current_node),
                forall|i: int| 0 <= i < children@.len() ==> (#[trigger] children@[i]).has_hole(),
                node_table@.len() >= len0,
                node_table@.len() <= usize::MAX,
                node_table@.len() == len0 ==> total_cost(node_table@) < cost0 || (total_cost(
                    node_table@,
                ) == cost0 && prior_queue@.len() < queue0),
                j <= children@.len(),
                current_node != *goal,
                forall|m: int|
                    0 <= m < j ==> double_map@.contains_key((#[trigger] children@[m]).cells),
                forall|i: int|
                    0 <= i < node_table@.len() && i != current ==> #[trigger] expanded(
                        node_table@,
                        double_map@,
                        *goal,
                        i,
                    ) || queued(prior_queue@, i),
            decreases children@.len() - j,
        {
            let child = children[j];
            assert(successors(current_node)[j as int] == child);
            let heuristic_value = heuristic(&child, &goal_tuple);
            let f_cost = if tentative_path_cost <= (i32::MAX - heuristic_value) as usize {
                tentative_path_cost as i32 + heuristic_value
            } else {
                i32::MAX
            };
            let ghost table0 = node_table@;
            let ghost map0 = double_map@;
            let ghost queue1 = prior_queue@;
            visit(
                &mut node_table,
                &mut double_map,
                &mut prior_queue,
                current,
                child,
                tentative_path_cost,
                f_cost,
                Ghost(start),
            );
            proof {
                let t = node_table@;
                assert forall|i: int|
                    0 <= i < t.len() && i != current implies #[trigger] expanded(
                        t,
                        double_map@,
                        *goal,
                        i,
                    ) || queued(prior_queue@, i) by {
                    if i < table0.len() {
                        if expanded(table0, map0, *goal, i) {
                            assert(t[i].state == table0[i].state);
                            let next = successors(t[i].state);
                            assert forall|m: int| 0 <= m < next.len() implies double_map@.contains_key(
                                (#[trigger] next[m]).cells,
                            ) by {
                                assert(map0.contains_key(successors(table0[i].state)[m].cells));
                            }
                        } else {
                            let k = choose|k: i32|
                                #[trigger] queue1.to_multiset().count((k, i as usize)) > 0;
                            assert(prior_queue@.to_multiset().count((k, i as usize)) > 0);
                        }
                    }
                }
                assert forall|m: int| 0 <= m < j + 1 implies double_map@.contains_key(
                    (#[trigger] children@[m]).cells,
                ) by {
                    if m < j {
                        assert(map0.contains_key(children@[m].cells));
                    }
                }
            }
            j = j + 1;
        }
        proof {
            lemma_total_cost_nonneg(node_table@);
            assert(expanded(node_table@, double_map@, *goal, current as int));
        }
    }
    proof {
        assert forall|i: int| 0 <= i < node_table@.len() implies #[trigger] expanded(
            node_table@,
            double_map@,
            *goal,
            i,
        ) by {
            if !expanded(node_table@, double_map@, *goal, i) {
                let k = choose|k: i32|
                    #[trigger] prior_queue@.to_multiset().count((k, i as usize)) > 0;
                assert(prior_queue@.contains((k, i as usize)));
            }
        }
        if reachable(start, *goal) {
            let p = choose|p: Seq<Board>|
                p.len() > 0 && p[0] == start && p.last() == *goal && is_path(p);
            lemma_expanded_table_holds_reachable(node_table@, double_map@, start, *goal, p);
            let i = double_map@[goal.cells] as int;
            assert(node_table@[i].state == *goal);
            assert(expanded(node_table@, double_map@, *goal, i));
        }
    }
    Vec::new()
}

} // verus!
