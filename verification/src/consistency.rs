use crate::node::Node;
use crate::position::Position;
use crate::search::{trace, Search};
use crate::terrain::{
    lemma_index_in_table, lemma_index_injective, lemma_octile_along, lemma_octile_on_grid,
    lemma_route_cost_push, route_cost, walk_cost, Terrain,
};
use vstd::prelude::*;

verus! {

/// What holds of the record of a cell of the grid.
spec fn record_ok(t: Terrain, s: Search, p: Position) -> bool {
    let n = s.nodes[p];
    &&& n.pos == p
    &&& n.wf()
    &&& n.g_cost is Some <==> n.h_cost is Some
    &&& n.g_cost is None ==> n.comes_from is None
    &&& n.g_cost is Some ==> {
        &&& t.walkable(p)
        &&& n.h_cost.unwrap() == p.octile(t.goal)
        &&& n.g_cost.unwrap() <= 14 * s.steps
    }
}

/// `r` is the way to `p` that the records hold: a walk from the start of the
/// known cost, through expanded cells, each recorded as coming from the one before.
spec fn route_ok(t: Terrain, s: Search, r: Seq<Position>, p: Position) -> bool {
    &&& t.is_walk(r)
    &&& r[0] == t.start
    &&& r.last() == p
    &&& route_cost(r) == s.g(p)
    &&& r.len() <= s.steps + 1
    &&& s.nodes[r[0]].comes_from is None
    &&& forall|i: int|
        0 < i < r.len() ==> {
            &&& (#[trigger] s.nodes[r[i]]).comes_from == Some(r[i - 1])
            &&& s.g(r[i]) == s.g(r[i - 1]) + r[i - 1].step_cost(r[i])
        }
    &&& forall|i: int| 0 <= i < r.len() - 1 ==> s.closed.contains(#[trigger] r[i])
}

/// No walk from the start reaches `p` for less than the known cost.
spec fn optimal_at(t: Terrain, s: Search, p: Position) -> bool {
    forall|r: Seq<Position>, k: int|
        #![trigger walk_cost(r, k)]
        t.is_walk(r) && r[0] == t.start && 0 <= k < r.len() && r[k] == p ==> s.g(p) <= walk_cost(
            r,
            k,
        )
}

/// Every free cell next to `c` is reached, at no more than the cost through `c`.
spec fn expanded_at(t: Terrain, s: Search, c: Position) -> bool {
    forall|q: Position|
        #![trigger c.adjacent(q)]
        c.adjacent(q) && t.walkable(q) ==> s.discovered(q) && s.g(q) <= s.g(c) + c.step_cost(q)
}

/// The cells that `flags` marks, where each cell has the flag at its place in the table.
pub open spec fn marked(t: Terrain, flags: Seq<bool>) -> Set<Position> {
    Set::new(|p: Position| t.in_bounds(p) && flags[t.index(p)])
}

/// How many of `flags` are set.
spec fn count_set(flags: Seq<bool>) -> nat
    decreases flags.len(),
{
    if flags.len() == 0 {
        0
    } else {
        count_set(flags.drop_last()) + if flags.last() {
            1nat
        } else {
            0nat
        }
    }
}

/// No more flags are set than there are.
proof fn lemma_count_bound(flags: Seq<bool>)
    ensures
        count_set(flags) <= flags.len(),
    decreases flags.len(),
{
    if flags.len() > 0 {
        lemma_count_bound(flags.drop_last());
    }
}

/// Setting a flag that was not set makes one more, and there was room for it.
proof fn lemma_count_one_more(flags: Seq<bool>, i: int)
    requires
        0 <= i < flags.len(),
        !flags[i],
    ensures
        count_set(flags.update(i, true)) == count_set(flags) + 1,
        count_set(flags) < flags.len(),
    decreases flags.len(),
{
    let last = flags.len() - 1;
    if i == last {
        assert(flags.update(i, true).drop_last() =~= flags.drop_last());
        lemma_count_bound(flags.drop_last());
    } else {
        assert(flags.update(i, true).drop_last() =~= flags.drop_last().update(i, true));
        lemma_count_one_more(flags.drop_last(), i);
    }
}

/// `flags` marks the expanded cells of `s`, and as many as `s` counts.
spec fn tallies(t: Terrain, s: Search, flags: Seq<bool>) -> bool {
    &&& flags.len() == t.cells()
    &&& marked(t, flags) == s.closed
    &&& count_set(flags) == s.steps
}

/// Setting the flag of cell `c` marks `c` and no other cell.
pub proof fn lemma_mark(t: Terrain, flags: Seq<bool>, c: Position)
    requires
        0 < t.heigth,
        t.in_bounds(c),
        flags.len() == t.cells(),
    ensures
        marked(t, flags.update(t.index(c), true)) == marked(t, flags).insert(c),
{
    let after = flags.update(t.index(c), true);
    lemma_index_in_table(t, c);
    assert forall|q: Position| marked(t, after).contains(q) <==> marked(t, flags).insert(
        c,
    ).contains(q) by {
        if t.in_bounds(q) {
            lemma_index_in_table(t, q);
            if t.index(q) == t.index(c) {
                lemma_index_injective(t, q, c);
            }
        }
    }
    assert(marked(t, after) =~= marked(t, flags).insert(c));
}

/// No flag set, none counted.
proof fn lemma_count_none(flags: Seq<bool>)
    requires
        forall|i: int| 0 <= i < flags.len() ==> !flags[i],
    ensures
        count_set(flags) == 0,
    decreases flags.len(),
{
    if flags.len() > 0 {
        lemma_count_none(flags.drop_last());
    }
}

/// Each cell of `r` but the first is recorded as coming from the one before
/// it, and the first as coming from nowhere.
pub open spec fn is_chain(nodes: Map<Position, Node>, r: Seq<Position>) -> bool {
    &&& r.len() > 0
    &&& nodes[r[0]].comes_from is None
    &&& forall|i: int| 0 < i < r.len() ==> (#[trigger] nodes[r[i]]).comes_from == Some(r[i - 1])
}

/// What a search keeps true from one expansion to the next, given the way
/// that the records hold to each reached cell.
spec fn inv_with(t: Terrain, s: Search, routes: Map<Position, Seq<Position>>) -> bool {
    &&& t.wf()
    &&& forall|p: Position| s.nodes.dom().contains(p) <==> t.in_bounds(p)
    &&& forall|p: Position| t.in_bounds(p) ==> #[trigger] record_ok(t, s, p)
    &&& s.discovered(t.start)
    &&& s.g(t.start) == 0
    &&& !s.closed.contains(t.goal)
    &&& forall|p: Position| #[trigger]
        s.closed.contains(p) ==> {
            &&& t.in_bounds(p)
            &&& s.discovered(p)
            &&& optimal_at(t, s, p)
            &&& expanded_at(t, s, p)
        }
    &&& forall|p: Position|
        t.in_bounds(p) && s.discovered(p) ==> #[trigger] route_ok(t, s, routes[p], p)
}

/// What a search keeps true from one expansion to the next.
pub closed spec fn inv(t: Terrain, s: Search) -> bool {
    &&& exists|routes: Map<Position, Seq<Position>>| inv_with(t, s, routes)
    &&& exists|flags: Seq<bool>| tallies(t, s, flags)
}

/// The first cell of a walk, from index `from` on, that is not expanded.
proof fn lemma_first_unclosed(s: Search, r: Seq<Position>, from: int, k: int) -> (i: int)
    requires
        0 <= from <= k < r.len(),
        forall|j: int| 0 <= j < from ==> s.closed.contains(#[trigger] r[j]),
        !s.closed.contains(r[k]),
    ensures
        from <= i <= k,
        !s.closed.contains(r[i]),
        forall|j: int| 0 <= j < i ==> s.closed.contains(#[trigger] r[j]),
    decreases k - from,
{
    if !s.closed.contains(r[from]) {
        from
    } else {
        lemma_first_unclosed(s, r, from + 1, k)
    }
}

/// The cost known for the best cell of the frontier is the least that any
/// walk from the start needs to come to it.
proof fn lemma_best_is_optimal(
    t: Terrain,
    s: Search,
    routes: Map<Position, Seq<Position>>,
    c: Position,
    r: Seq<Position>,
    k: int,
)
    requires
        inv_with(t, s, routes),
        s.is_best(t, c),
        t.is_walk(r),
        r[0] == t.start,
        0 <= k < r.len(),
        r[k] == c,
    ensures
        s.g(c) <= walk_cost(r, k),
{
    let i = lemma_first_unclosed(s, r, 0, k);
    let m = r[i];
    assert(t.walkable(m));
    if i == 0 {
        assert(walk_cost(r, 0) == 0);
    } else {
        let before = r[i - 1];
        assert(s.closed.contains(before));
        assert(optimal_at(t, s, before));
        assert(s.g(before) <= walk_cost(r, i - 1));
        assert(expanded_at(t, s, before));
        assert(before.adjacent(r[i]));
        assert(walk_cost(r, i) == walk_cost(r, i - 1) + before.step_cost(m));
    }
    assert(s.discovered(m) && s.g(m) <= walk_cost(r, i));
    assert(s.is_open(t, m));
    assert(record_ok(t, s, m));
    assert(record_ok(t, s, c));
    lemma_octile_along(t, r, i, k, t.goal);
    if m != c {
        assert(s.nodes[c].precedes(s.nodes[m]));
    }
}

/// What expanding `c` does to the single records: each stays in order, no
/// known cost rises, and only relaxed cells change.
proof fn lemma_expand_records(
    t: Terrain,
    s: Search,
    routes: Map<Position, Seq<Position>>,
    c: Position,
)
    requires
        inv_with(t, s, routes),
        s.is_best(t, c),
        s.steps < t.cells(),
    ensures
        forall|p: Position|
            t.in_bounds(p) ==> {
                &&& #[trigger] record_ok(t, s.expand(t, c), p)
                &&& s.discovered(p) ==> s.expand(t, c).discovered(p) && s.expand(t, c).g(p)
                    <= s.g(p)
                &&& !s.relaxes(t, c, p) ==> s.expand(t, c).nodes[p] == s.nodes[p]
                &&& s.relaxes(t, c, p) ==> {
                    &&& s.expand(t, c).discovered(p)
                    &&& s.expand(t, c).g(p) == s.g(c) + c.step_cost(p)
                    &&& s.expand(t, c).nodes[p].comes_from == Some(c)
                }
            },
        !s.relaxes(t, c, c),
        !s.relaxes(t, c, t.start),
{
    let s2 = s.expand(t, c);
    assert(record_ok(t, s, c));
    assert(record_ok(t, s, t.start));
    assert forall|p: Position| t.in_bounds(p) implies {
        &&& #[trigger] record_ok(t, s2, p)
        &&& s.discovered(p) ==> s2.discovered(p) && s2.g(p) <= s.g(p)
        &&& !s.relaxes(t, c, p) ==> s2.nodes[p] == s.nodes[p]
        &&& s.relaxes(t, c, p) ==> {
            &&& s2.discovered(p)
            &&& s2.g(p) == s.g(c) + c.step_cost(p)
            &&& s2.nodes[p].comes_from == Some(c)
        }
    } by {
        assert(record_ok(t, s, p));
        if s.relaxes(t, c, p) {
            lemma_octile_on_grid(t, p, t.goal);
        }
    }
}

/// After `c` was expanded, the cost of each expanded cell is still the least,
/// and its neighbours are reached.
proof fn lemma_expand_closed(
    t: Terrain,
    s: Search,
    routes: Map<Position, Seq<Position>>,
    c: Position,
    p: Position,
)
    requires
        inv_with(t, s, routes),
        s.is_best(t, c),
        s.steps < t.cells(),
        s.expand(t, c).closed.contains(p),
    ensures
        t.in_bounds(p),
        s.expand(t, c).discovered(p),
        optimal_at(t, s.expand(t, c), p),
        expanded_at(t, s.expand(t, c), p),
{
    let s2 = s.expand(t, c);
    lemma_expand_records(t, s, routes, c);
    assert(record_ok(t, s2, p));
    assert(!s.relaxes(t, c, p));
    assert(s2.nodes[p] == s.nodes[p]);
    assert(record_ok(t, s, p));
    if p == c {
        assert forall|r: Seq<Position>, k: int|
            #![trigger walk_cost(r, k)]
            t.is_walk(r) && r[0] == t.start && 0 <= k < r.len() && r[k] == p implies s2.g(p)
            <= walk_cost(r, k) by {
            lemma_best_is_optimal(t, s, routes, c, r, k);
        }
        let way = routes[c];
        assert(route_ok(t, s, way, c));
        assert forall|q: Position|
            #![trigger c.adjacent(q)]
            c.adjacent(q) && t.walkable(q) implies s2.discovered(q) && s2.g(q) <= s2.g(c)
            + c.step_cost(q) by {
            assert(record_ok(t, s2, q));
            assert(record_ok(t, s, q));
            if s.closed.contains(q) {
                let longer = way.push(q);
                assert(t.is_walk(longer)) by {
                    assert forall|i: int| 0 <= i < longer.len() implies t.walkable(
                        #[trigger] longer[i],
                    ) by {
                        if i < way.len() {
                            assert(longer[i] == way[i]);
                        }
                    }
                    assert forall|i: int| 0 < i < longer.len() implies longer[i - 1].adjacent(
                        #[trigger] longer[i],
                    ) by {
                        if i < way.len() {
                            assert(longer[i] == way[i]);
                            assert(longer[i - 1] == way[i - 1]);
                        }
                    }
                }
                lemma_route_cost_push(way, q);
                assert(optimal_at(t, s, q));
                assert(longer[0] == way[0]);
                assert(longer[way.len() as int] == q);
                assert(s.g(q) <= walk_cost(longer, way.len() as int));
            }
        }
    } else {
        assert(s.closed.contains(p));
        assert(optimal_at(t, s, p));
        assert(expanded_at(t, s, p));
        assert forall|q: Position|
            #![trigger p.adjacent(q)]
            p.adjacent(q) && t.walkable(q) implies s2.discovered(q) && s2.g(q) <= s2.g(p)
            + p.step_cost(q) by {
            assert(record_ok(t, s2, q));
        }
    }
}

/// After `c` was expanded, the records hold the way through `c` to each cell
/// that took it up.
proof fn lemma_expand_routes_relaxed(
    t: Terrain,
    s: Search,
    routes: Map<Position, Seq<Position>>,
    c: Position,
    p: Position,
)
    requires
        inv_with(t, s, routes),
        s.is_best(t, c),
        s.steps < t.cells(),
        t.in_bounds(p),
        s.relaxes(t, c, p),
    ensures
        route_ok(t, s.expand(t, c), routes[c].push(p), p),
{
    let s2 = s.expand(t, c);
    lemma_expand_records(t, s, routes, c);
    assert(record_ok(t, s2, p));
    assert(record_ok(t, s, c));
    let way = routes[c];
    assert(route_ok(t, s, way, c));
    let r = way.push(p);
    assert forall|i: int| 0 <= i < way.len() implies r[i] == way[i] && s2.nodes[#[trigger] way[i]]
        == s.nodes[way[i]] by {
        assert(t.walkable(way[i]));
        if i < way.len() - 1 {
            assert(s.closed.contains(way[i]));
        }
    }
    assert forall|i: int| 0 <= i < r.len() implies t.walkable(#[trigger] r[i]) by {
        if i < way.len() {
            assert(r[i] == way[i]);
        }
    }
    assert forall|i: int| 0 < i < r.len() implies r[i - 1].adjacent(#[trigger] r[i]) by {
        if i < way.len() {
            assert(r[i] == way[i]);
            assert(r[i - 1] == way[i - 1]);
        }
    }
    assert(t.is_walk(r));
    assert forall|i: int| 0 <= i < r.len() - 1 implies s2.closed.contains(#[trigger] r[i]) by {
        assert(r[i] == way[i]);
        if i < way.len() - 1 {
            assert(s.closed.contains(way[i]));
        }
    }
    assert forall|i: int| 0 < i < r.len() implies {
        &&& (#[trigger] s2.nodes[r[i]]).comes_from == Some(r[i - 1])
        &&& s2.g(r[i]) == s2.g(r[i - 1]) + r[i - 1].step_cost(r[i])
    } by {
        if i < way.len() {
            assert(r[i] == way[i]);
            assert(r[i - 1] == way[i - 1]);
            assert(s2.nodes[way[i]] == s.nodes[way[i]]);
            assert(s2.nodes[way[i - 1]] == s.nodes[way[i - 1]]);
            assert(s.nodes[way[i]].comes_from == Some(way[i - 1]));
        } else {
            assert(r[i - 1] == way.last());
            assert(s2.nodes[way[way.len() - 1]] == s.nodes[way[way.len() - 1]]);
        }
    }
    lemma_route_cost_push(way, p);
    assert(r[0] == way[0]);
    assert(s2.nodes[way[0]] == s.nodes[way[0]]);
}

/// After `c` was expanded, the records hold the same way as before to each
/// reached cell that did not take up the way through `c`.
proof fn lemma_expand_routes_kept(
    t: Terrain,
    s: Search,
    routes: Map<Position, Seq<Position>>,
    c: Position,
    p: Position,
)
    requires
        inv_with(t, s, routes),
        s.is_best(t, c),
        s.steps < t.cells(),
        t.in_bounds(p),
        s.expand(t, c).discovered(p),
        !s.relaxes(t, c, p),
    ensures
        route_ok(t, s.expand(t, c), routes[p], p),
{
    let s2 = s.expand(t, c);
    lemma_expand_records(t, s, routes, c);
    assert(record_ok(t, s2, p));
    assert(record_ok(t, s, p));
    let r = routes[p];
    assert(s2.nodes[p] == s.nodes[p]);
    assert(route_ok(t, s, r, p));
    assert forall|i: int| 0 <= i < r.len() implies s2.nodes[#[trigger] r[i]] == s.nodes[r[i]] by {
        assert(t.walkable(r[i]));
        if i < r.len() - 1 {
            assert(s.closed.contains(r[i]));
        }
    }
    assert forall|i: int| 0 < i < r.len() implies {
        &&& (#[trigger] s2.nodes[r[i]]).comes_from == Some(r[i - 1])
        &&& s2.g(r[i]) == s2.g(r[i - 1]) + r[i - 1].step_cost(r[i])
    } by {
        assert(s2.nodes[r[i]] == s.nodes[r[i]]);
        assert(s2.nodes[r[i - 1]] == s.nodes[r[i - 1]]);
        assert(s.nodes[r[i]].comes_from == Some(r[i - 1]));
    }
    assert forall|i: int| 0 <= i < r.len() - 1 implies s2.closed.contains(#[trigger] r[i]) by {
        assert(s.closed.contains(r[i]));
    }
    assert(s2.nodes[r[0]] == s.nodes[r[0]]);
}

/// Expanding the best cell of the frontier, where it is not the goal, keeps
/// the search in order.
pub proof fn lemma_expand_keeps_inv(t: Terrain, s: Search, c: Position)
    requires
        inv(t, s),
        s.is_best(t, c),
        c != t.goal,
        s.steps < t.cells(),
    ensures
        inv(t, s.expand(t, c)),
{
    let routes = choose|routes: Map<Position, Seq<Position>>| inv_with(t, s, routes);
    let s2 = s.expand(t, c);
    let routes2 = Map::new(
        |p: Position| true,
        |p: Position|
            if s.relaxes(t, c, p) {
                routes[c].push(p)
            } else {
                routes[p]
            },
    );
    lemma_expand_records(t, s, routes, c);
    assert(record_ok(t, s, t.start));
    assert(record_ok(t, s2, t.start));
    assert forall|p: Position| #[trigger] s2.closed.contains(p) implies {
        &&& t.in_bounds(p)
        &&& s2.discovered(p)
        &&& optimal_at(t, s2, p)
        &&& expanded_at(t, s2, p)
    } by {
        lemma_expand_closed(t, s, routes, c, p);
    }
    assert forall|p: Position| t.in_bounds(p) && s2.discovered(p) implies #[trigger] route_ok(
        t,
        s2,
        routes2[p],
        p,
    ) by {
        if s.relaxes(t, c, p) {
            lemma_expand_routes_relaxed(t, s, routes, c, p);
        } else {
            lemma_expand_routes_kept(t, s, routes, c, p);
        }
    }
    assert(inv_with(t, s2, routes2));
    let flags = choose|flags: Seq<bool>| tallies(t, s, flags);
    lemma_mark(t, flags, c);
    lemma_index_in_table(t, c);
    lemma_count_one_more(flags, t.index(c));
    assert(tallies(t, s2, flags.update(t.index(c), true)));
}

/// A search begins in order.
pub proof fn lemma_init_inv(t: Terrain)
    requires
        t.wf(),
    ensures
        inv(t, Search::init(t)),
{
    let s = Search::init(t);
    let routes = Map::new(|p: Position| true, |p: Position| seq![t.start]);
    lemma_octile_on_grid(t, t.start, t.goal);
    assert forall|p: Position| t.in_bounds(p) implies #[trigger] record_ok(t, s, p) by {}
    assert forall|p: Position| t.in_bounds(p) && s.discovered(p) implies #[trigger] route_ok(
        t,
        s,
        routes[p],
        p,
    ) by {
        assert(p == t.start);
        assert(walk_cost(seq![t.start], 0) == 0);
    }
    assert(inv_with(t, s, routes));
    let flags = Seq::new(t.cells() as nat, |i: int| false);
    lemma_count_none(flags);
    assert(marked(t, flags) =~= s.closed) by {
        assert forall|p: Position| t.in_bounds(p) implies !flags[t.index(p)] by {
            lemma_index_in_table(t, p);
        }
    }
    assert(tallies(t, s, flags));
}

/// Following the records back from the end of a recorded way gives that way.
proof fn lemma_trace_chain(nodes: Map<Position, Node>, r: Seq<Position>, fuel: nat)
    requires
        r.len() > 0,
        fuel >= r.len(),
        nodes[r[0]].comes_from is None,
        forall|i: int| 0 < i < r.len() ==> (#[trigger] nodes[r[i]]).comes_from == Some(r[i - 1]),
    ensures
        trace(nodes, r.last(), fuel) == r,
    decreases r.len(),
{
    if r.len() == 1 {
        assert(trace(nodes, r.last(), fuel) =~= r);
    } else {
        let shorter = r.drop_last();
        assert(nodes[r[r.len() - 1]].comes_from == Some(r[r.len() - 2]));
        assert forall|i: int| 0 < i < shorter.len() implies
            (#[trigger] nodes[shorter[i]]).comes_from == Some(shorter[i - 1]) by {
            assert(nodes[r[i]].comes_from == Some(r[i - 1]));
        }
        lemma_trace_chain(nodes, shorter, (fuel - 1) as nat);
        assert(shorter.push(r.last()) =~= r);
    }
}

/// Where the goal is the best cell of the frontier, the way that the records
/// hold to it is a route, and no route costs less.
pub proof fn lemma_found(t: Terrain, s: Search)
    requires
        inv(t, s),
        s.is_best(t, t.goal),
        s.steps < t.cells(),
    ensures
        t.is_route(trace(s.nodes, t.goal, t.cells() as nat)),
        route_cost(trace(s.nodes, t.goal, t.cells() as nat)) == s.g(t.goal),
        is_chain(s.nodes, trace(s.nodes, t.goal, t.cells() as nat)),
        trace(s.nodes, t.goal, t.cells() as nat).len() <= t.cells(),
        forall|r: Seq<Position>| #[trigger]
            t.is_route(r) ==> route_cost(trace(s.nodes, t.goal, t.cells() as nat)) <= route_cost(
                r,
            ),
{
    let routes = choose|routes: Map<Position, Seq<Position>>| inv_with(t, s, routes);
    let way = routes[t.goal];
    assert(route_ok(t, s, way, t.goal));
    lemma_trace_chain(s.nodes, way, t.cells() as nat);
    assert forall|r: Seq<Position>| #[trigger] t.is_route(r) implies route_cost(way)
        <= route_cost(r) by {
        lemma_best_is_optimal(t, s, routes, t.goal, r, r.len() - 1);
    }
}

/// With an empty frontier every cell of a walk from the start is expanded.
proof fn lemma_walk_is_closed(
    t: Terrain,
    s: Search,
    routes: Map<Position, Seq<Position>>,
    r: Seq<Position>,
    k: int,
)
    requires
        inv_with(t, s, routes),
        !s.has_open(t),
        t.is_walk(r),
        r[0] == t.start,
        0 <= k < r.len(),
    ensures
        s.closed.contains(r[k]),
    decreases k,
{
    assert(t.walkable(r[k]));
    assert(!s.is_open(t, r[k]));
    if k > 0 {
        lemma_walk_is_closed(t, s, routes, r, k - 1);
        assert(expanded_at(t, s, r[k - 1]));
        assert(r[k - 1].adjacent(r[k]));
    }
}

/// Where the frontier is empty, no walk leads from the start to the goal.
pub proof fn lemma_exhausted(t: Terrain, s: Search)
    requires
        inv(t, s),
        !s.has_open(t),
    ensures
        !t.reachable(),
{
    let routes = choose|routes: Map<Position, Seq<Position>>| inv_with(t, s, routes);
    if t.reachable() {
        let r = choose|r: Seq<Position>| t.is_route(r);
        lemma_walk_is_closed(t, s, routes, r, r.len() - 1);
    }
}

/// The frontier after `c` was expanded: what it was, without `c`, and the
/// cells that the expansion reached first.
pub proof fn lemma_expand_frontier(t: Terrain, s: Search, c: Position)
    requires
        inv(t, s),
        s.is_best(t, c),
        s.steps < t.cells(),
    ensures
        forall|q: Position|
            s.expand(t, c).is_open(t, q) <==> (s.is_open(t, q) && q != c) || (s.relaxes(t, c, q)
                && !s.discovered(q)),
{
    let routes = choose|routes: Map<Position, Seq<Position>>| inv_with(t, s, routes);
    lemma_expand_records(t, s, routes, c);
    let s2 = s.expand(t, c);
    assert forall|q: Position|
        s2.is_open(t, q) <==> (s.is_open(t, q) && q != c) || (s.relaxes(t, c, q)
            && !s.discovered(q)) by {
        if t.in_bounds(q) {
            assert(record_ok(t, s2, q));
        }
    }
}

/// What the search needs to know of the best cell of the frontier to expand
/// it without leaving `i32`.
pub proof fn lemma_best_costs(t: Terrain, s: Search, c: Position)
    requires
        inv(t, s),
        s.is_best(t, c),
        s.steps < t.cells(),
    ensures
        t.walkable(c),
        s.nodes[c].pos == c,
        s.nodes[c].g_cost is Some,
        0 <= s.g(c) <= 14 * s.steps,
        forall|q: Position|
            t.in_bounds(q) ==> {
                &&& (#[trigger] s.nodes[q]).wf()
                &&& s.nodes[q].pos == q
                &&& 0 <= s.nodes[q].estimate(t.goal) <= 14 * t.cells()
            },
{
    let routes = choose|routes: Map<Position, Seq<Position>>| inv_with(t, s, routes);
    assert(record_ok(t, s, c));
    assert forall|q: Position| t.in_bounds(q) implies {
        &&& (#[trigger] s.nodes[q]).wf()
        &&& s.nodes[q].pos == q
        &&& 0 <= s.nodes[q].estimate(t.goal) <= 14 * t.cells()
    } by {
        assert(record_ok(t, s, q));
        lemma_octile_on_grid(t, q, t.goal);
    }
}

/// Every cell of the frontier has a priority and an estimate, and its record
/// is that of its cell.
pub proof fn lemma_open_records(t: Terrain, s: Search, p: Position)
    requires
        inv(t, s),
        s.is_open(t, p),
    ensures
        s.nodes[p].pos == p,
        s.nodes[p].f_cost is Some,
        s.nodes[p].h_cost is Some,
{
    let routes = choose|routes: Map<Position, Seq<Position>>| inv_with(t, s, routes);
    assert(record_ok(t, s, p));
}

/// While a cell is on the frontier, not every cell is expanded.
pub proof fn lemma_room(t: Terrain, s: Search, c: Position)
    requires
        inv(t, s),
        s.is_open(t, c),
    ensures
        s.steps < t.cells(),
{
    let routes = choose|routes: Map<Position, Seq<Position>>| inv_with(t, s, routes);
    let flags = choose|flags: Seq<bool>| tallies(t, s, flags);
    lemma_index_in_table(t, c);
    assert(!marked(t, flags).contains(c));
    lemma_count_one_more(flags, t.index(c));
}

/// `p` stands in the table before the place of column `x`, row `y`.
spec fn counted_before(t: Terrain, p: Position, x: int, y: int) -> bool {
    p.y < t.heigth && (p.x < x || (p.x == x && p.y < y))
}

/// The best cell of the frontier among those that stand in the table before
/// column `x`, row `y`, if there is one.
proof fn lemma_best_before(
    t: Terrain,
    s: Search,
    routes: Map<Position, Seq<Position>>,
    x: int,
    y: int,
) -> (found: Option<Position>)
    requires
        inv_with(t, s, routes),
        0 <= x <= t.width,
        0 <= y <= t.heigth,
        y > 0 ==> x < t.width,
    ensures
        match found {
            Some(b) => {
                &&& s.is_open(t, b)
                &&& counted_before(t, b, x, y)
                &&& forall|q: Position| #[trigger]
                    s.is_open(t, q) && counted_before(t, q, x, y) && q != b ==> s.nodes[b].precedes(
                        s.nodes[q],
                    )
            },
            None => forall|q: Position| #[trigger] s.is_open(t, q) ==> !counted_before(t, q, x, y),
        },
    decreases x, y,
{
    if y > 0 {
        let rest = lemma_best_before(t, s, routes, x, y - 1);
        let cell = Position { x: x as usize, y: (y - 1) as usize };
        assert forall|q: Position| counted_before(t, q, x, y) <==> counted_before(t, q, x, y - 1)
            || q == cell by {}
        if !s.is_open(t, cell) {
            rest
        } else {
            assert(record_ok(t, s, cell));
            match rest {
                None => Some(cell),
                Some(b) => {
                    assert(record_ok(t, s, b));
                    if s.nodes[cell].precedes(s.nodes[b]) {
                        assert forall|q: Position| #[trigger]
                            s.is_open(t, q) && counted_before(t, q, x, y) && q
                            != cell implies s.nodes[cell].precedes(s.nodes[q]) by {
                            assert(record_ok(t, s, q));
                        }
                        Some(cell)
                    } else {
                        assert forall|q: Position| #[trigger]
                            s.is_open(t, q) && counted_before(t, q, x, y) && q
                            != b implies s.nodes[b].precedes(s.nodes[q]) by {
                            assert(record_ok(t, s, q));
                        }
                        Some(b)
                    }
                },
            }
        }
    } else if x > 0 {
        let rest = lemma_best_before(t, s, routes, x - 1, t.heigth);
        assert forall|q: Position| counted_before(t, q, x, y) <==> counted_before(
            t,
            q,
            x - 1,
            t.heigth,
        ) by {}
        rest
    } else {
        None
    }
}

/// A frontier that is not empty has a best cell.
pub proof fn lemma_best_exists(t: Terrain, s: Search)
    requires
        inv(t, s),
        s.has_open(t),
    ensures
        s.is_best(t, s.best(t)),
{
    let routes = choose|routes: Map<Position, Seq<Position>>| inv_with(t, s, routes);
    let found = lemma_best_before(t, s, routes, t.width, 0);
    let p = choose|p: Position| s.is_open(t, p);
    assert(counted_before(t, p, t.width, 0));
    let b = found.unwrap();
    assert forall|q: Position| #[trigger] s.is_open(t, q) && q != b implies s.nodes[b].precedes(
        s.nodes[q],
    ) by {
        assert(counted_before(t, q, t.width, 0));
    }
    assert(s.is_best(t, b));
}

/// What a search in order holds in the record of cell `p` of the grid. A
/// cell that is not reached has no cost and no origin. A cell that is reached
/// is free, its estimate is its distance to the goal, and it comes from a
/// reached cell next to it, at that cell's cost and the cost of the step; only
/// the start comes from nowhere, at no cost.
pub proof fn lemma_records_in_order(t: Terrain, s: Search, p: Position)
    requires
        inv(t, s),
        t.in_bounds(p),
    ensures
        s.nodes.dom().contains(p),
        s.nodes[p].pos == p,
        s.nodes[p].wf(),
        s.nodes[p].g_cost is None ==> s.nodes[p] == Node::blank(p),
        s.nodes[p].g_cost is Some ==> {
            &&& t.walkable(p)
            &&& s.nodes[p].h_cost == Some(p.octile(t.goal) as i32)
        },
        s.nodes[p].g_cost is Some ==> match s.nodes[p].comes_from {
            None => p == t.start && s.nodes[p].g_cost == Some(0i32),
            Some(q) => {
                &&& q.adjacent(p)
                &&& t.walkable(q)
                &&& s.nodes[q].g_cost is Some
                &&& s.nodes[p].g_cost.unwrap() == s.nodes[q].g_cost.unwrap() + q.step_cost(p)
            },
        },
{
    let routes = choose|routes: Map<Position, Seq<Position>>| inv_with(t, s, routes);
    assert(record_ok(t, s, p));
    if s.discovered(p) {
        let r = routes[p];
        assert(route_ok(t, s, r, p));
        let last = r.len() - 1;
        assert(r[last] == p);
        if last == 0 {
            assert(walk_cost(r, 0) == 0);
        } else {
            assert(s.nodes[r[last]].comes_from == Some(r[last - 1]));
            assert(r[last - 1].adjacent(r[last]));
            assert(t.walkable(r[last - 1]));
            assert(s.closed.contains(r[last - 1]));
        }
    }
}

} // verus!
