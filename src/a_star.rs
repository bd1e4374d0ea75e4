use vstd::prelude::*;

use crate::direction::Direction;
use crate::grid::{Grid, GridView};
use crate::point::{manhattan, Vector2};

verus! {

/// Cost recorded for a cell that the search has not reached.
const UNSEEN: u64 = 0xffff_ffff_ffff_ffff;

/// Whether two positions are one orthogonal step apart.
pub open spec fn adjacent(a: Vector2, b: Vector2) -> bool {
    manhattan(a, b) == 1
}

/// A route from `start` to `goal`, written goal first: consecutive positions
/// are adjacent and every position but the start is traversable. It takes
/// `route.len() - 1` steps.
pub open spec fn is_route(m: GridView, route: Seq<Vector2>, start: Vector2, goal: Vector2) -> bool {
    &&& route.len() >= 1
    &&& route[0] == goal
    &&& route.last() == start
    &&& forall|i: int| 0 <= i < route.len() - 1 ==> adjacent(#[trigger] route[i], route[i + 1])
    &&& forall|i: int| 0 <= i < route.len() - 1 ==> m.traversable(#[trigger] route[i])
}

/// A route that no other route from `start` to `goal` undercuts.
pub open spec fn is_shortest_route(m: GridView, route: Seq<Vector2>, start: Vector2, goal: Vector2) -> bool {
    &&& is_route(m, route, start, goal)
    &&& forall|other: Seq<Vector2>| #[trigger] is_route(m, other, start, goal) ==> route.len() <= other.len()
}

/// Whether some route leads from `start` to `goal`.
pub open spec fn reachable(m: GridView, start: Vector2, goal: Vector2) -> bool {
    exists|route: Seq<Vector2>| is_route(m, route, start, goal)
}

/// Routes depend on the cells alone, not on the open-position list.
pub proof fn lemma_routes_same_cells(m1: GridView, m2: GridView, start: Vector2, goal: Vector2)
    requires
        m1.cells == m2.cells,
        m1.width == m2.width,
        m1.height == m2.height,
    ensures
        forall|route: Seq<Vector2>| #[trigger]
            is_route(m1, route, start, goal) == is_route(m2, route, start, goal),
        reachable(m1, start, goal) == reachable(m2, start, goal),
{
    assert forall|route: Seq<Vector2>| #[trigger]
        is_route(m1, route, start, goal) == is_route(m2, route, start, goal) by {
        assert forall|p: Vector2| m1.traversable(p) == m2.traversable(p) by {}
    }
    if reachable(m1, start, goal) {
        let route = choose|route: Seq<Vector2>| is_route(m1, route, start, goal);
        assert(is_route(m2, route, start, goal));
    }
    if reachable(m2, start, goal) {
        let route = choose|route: Seq<Vector2>| is_route(m2, route, start, goal);
        assert(is_route(m1, route, start, goal));
    }
}

/// The Manhattan heuristic never overestimates: every route from `start` to
/// `goal` takes at least `manhattan(start, goal)` steps.
pub proof fn lemma_heuristic_admissible(m: GridView, route: Seq<Vector2>, start: Vector2, goal: Vector2)
    requires
        is_route(m, route, start, goal),
    ensures
        manhattan(start, goal) <= route.len() - 1,
    decreases route.len(),
{
    if route.len() > 1 {
        let rest = route.drop_first();
        assert(adjacent(route[0], route[1]));
        assert forall|i: int| 0 <= i < rest.len() - 1 implies adjacent(
            #[trigger] rest[i],
            rest[i + 1],
        ) by {
            assert(adjacent(route[i + 1], route[i + 2]));
        }
        assert forall|i: int| 0 <= i < rest.len() - 1 implies m.traversable(#[trigger] rest[i]) by {
            assert(m.traversable(route[i + 1]));
        }
        lemma_heuristic_admissible(m, rest, start, route[1]);
    }
}

/// A goal that cannot be stood on is reachable from nowhere else, so a search
/// for it comes back empty.
pub proof fn lemma_wall_goal_unreachable(m: GridView, start: Vector2, goal: Vector2)
    requires
        !m.traversable(goal),
        start != goal,
    ensures
        !reachable(m, start, goal),
{
    assert forall|route: Seq<Vector2>| !is_route(m, route, start, goal) by {
        if is_route(m, route, start, goal) {
            assert(route.len() > 1);
            assert(m.traversable(route[0]));
        }
    }
}

/// Searching with and without `already_on_start` gives paths whose lengths
/// differ by one: the one without the flag ends on the start, and the one with
/// it, completed by the start, is as short.
pub proof fn lemma_already_on_start_lengths(
    m: GridView,
    start: Vector2,
    goal: Vector2,
    with_flag: Seq<Vector2>,
    without_flag: Seq<Vector2>,
)
    requires
        is_shortest_route(m, with_start(with_flag, start, true), start, goal),
        is_shortest_route(m, with_start(without_flag, start, false), start, goal),
    ensures
        with_flag.len() + 1 == without_flag.len(),
        without_flag.last() == start,
{
    assert(is_route(m, with_flag.push(start), start, goal));
    assert(is_route(m, without_flag, start, goal));
}

/// A returned path completed with the start when the caller stands on it.
pub open spec fn with_start(path: Seq<Vector2>, start: Vector2, already_on_start: bool) -> Seq<
    Vector2,
> {
    if already_on_start {
        path.push(start)
    } else {
        path
    }
}

/// An entry of the frontier.
#[derive(Clone, Copy)]
struct State {
    position: Vector2,
    f_score: u128,
}

spec fn rows<T>(v: Seq<Vec<T>>) -> Seq<Seq<T>> {
    v.map_values(|r: Vec<T>| r@)
}

spec fn at<T>(s: Seq<Seq<T>>, p: Vector2) -> T {
    s[p.1 as int][p.0 as int]
}

spec fn shaped<T>(m: GridView, s: Seq<Seq<T>>) -> bool {
    &&& s.len() == m.height
    &&& forall|r: int| 0 <= r < m.height ==> #[trigger] s[r].len() == m.width
}

spec fn seen(m: GridView, g: Seq<Seq<u64>>, start: Vector2, p: Vector2) -> bool {
    p == start || (m.in_bounds(p) && at(g, p) != UNSEEN)
}

spec fn cost(m: GridView, g: Seq<Seq<u64>>, p: Vector2) -> int {
    if m.in_bounds(p) {
        at(g, p) as int
    } else {
        0
    }
}

spec fn row_seen(s: Seq<u64>) -> nat
    decreases s.len(),
{
    if s.len() == 0 {
        0
    } else {
        row_seen(s.drop_last()) + if s.last() != UNSEEN {
            1nat
        } else {
            0nat
        }
    }
}

/// Number of cells with a recorded cost.
spec fn grid_seen(s: Seq<Seq<u64>>) -> nat
    decreases s.len(),
{
    if s.len() == 0 {
        0
    } else {
        grid_seen(s.drop_last()) + row_seen(s.last())
    }
}

/// The recorded costs and predecessors form a tree of routes rooted at the start.
spec fn tree_ok(m: GridView, start: Vector2, g: Seq<Seq<u64>>, c: Seq<Seq<Option<Vector2>>>) -> bool {
    &&& shaped(m, g)
    &&& shaped(m, c)
    &&& m.in_bounds(start) ==> at(g, start) == 0 && at(c, start) is None
    &&& forall|p: Vector2|
        m.in_bounds(p) && at(g, p) != UNSEEN && p != start ==> {
            &&& m.traversable(p)
            &&& #[trigger] at(c, p) is Some
            &&& adjacent(at(c, p).unwrap(), p)
            &&& seen(m, g, start, at(c, p).unwrap())
            &&& cost(m, g, at(c, p).unwrap()) < at(g, p)
        }
    &&& forall|p: Vector2| #[trigger] seen(m, g, start, p) ==> cost(m, g, p) <= grid_seen(g)
}

/// Whether a predecessor is recorded for `p`.
spec fn has_pred(m: GridView, c: Seq<Seq<Option<Vector2>>>, p: Vector2) -> bool {
    m.in_bounds(p) && at(c, p) is Some
}

/// `chain` starts at a position and follows recorded predecessors, ending at
/// the first position that has none.
spec fn pred_chain(m: GridView, c: Seq<Seq<Option<Vector2>>>, chain: Seq<Vector2>) -> bool {
    &&& chain.len() >= 1
    &&& forall|i: int|
        0 <= i < chain.len() - 1 ==> has_pred(m, c, #[trigger] chain[i]) && chain[i + 1] == at(
            c,
            chain[i],
        ).unwrap()
    &&& !has_pred(m, c, chain.last())
}

spec fn has_entry(open: Seq<State>, p: Vector2) -> bool {
    exists|k: int| 0 <= k < open.len() && (#[trigger] open[k]).position == p
}

/// Every frontier entry is reached; every reached position is expanded or
/// waits in the frontier; an expanded position has all its neighbours reached.
spec fn frontier_ok(
    m: GridView,
    start: Vector2,
    end: Vector2,
    g: Seq<Seq<u64>>,
    open: Seq<State>,
    expanded: Set<Vector2>,
) -> bool {
    &&& forall|k: int| 0 <= k < open.len() ==> seen(m, g, start, (#[trigger] open[k]).position)
    &&& forall|p: Vector2| #[trigger]
        seen(m, g, start, p) ==> expanded.contains(p) || has_entry(open, p)
    &&& forall|p: Vector2, q: Vector2|
        #[trigger] expanded.contains(p) && #[trigger] adjacent(p, q) && m.traversable(q) ==> seen(
            m,
            g,
            start,
            q,
        )
    &&& forall|p: Vector2| #[trigger] expanded.contains(p) ==> seen(m, g, start, p)
    &&& !expanded.contains(end)
}

spec fn row_total(s: Seq<u64>) -> int
    decreases s.len(),
{
    if s.len() == 0 {
        0
    } else {
        row_total(s.drop_last()) + s.last() as int
    }
}

spec fn total(s: Seq<Seq<u64>>) -> int
    decreases s.len(),
{
    if s.len() == 0 {
        0
    } else {
        total(s.drop_last()) + row_total(s.last())
    }
}

proof fn lemma_row_total_update(s: Seq<u64>, i: int, v: u64)
    requires
        0 <= i < s.len(),
    ensures
        row_total(s.update(i, v)) + s[i] == row_total(s) + v,
    decreases s.len(),
{
    let u = s.update(i, v);
    if i == s.len() - 1 {
        assert(u.drop_last() =~= s.drop_last());
    } else {
        assert(u.drop_last() =~= s.drop_last().update(i, v));
        lemma_row_total_update(s.drop_last(), i, v);
    }
}

proof fn lemma_total_update(s: Seq<Seq<u64>>, r: int, row: Seq<u64>)
    requires
        0 <= r < s.len(),
    ensures
        total(s.update(r, row)) + row_total(s[r]) == total(s) + row_total(row),
    decreases s.len(),
{
    let u = s.update(r, row);
    if r == s.len() - 1 {
        assert(u.drop_last() =~= s.drop_last());
    } else {
        assert(u.drop_last() =~= s.drop_last().update(r, row));
        lemma_total_update(s.drop_last(), r, row);
    }
}

proof fn lemma_row_total_nonneg(s: Seq<u64>)
    ensures
        row_total(s) >= 0,
    decreases s.len(),
{
    if s.len() > 0 {
        lemma_row_total_nonneg(s.drop_last());
    }
}

proof fn lemma_total_nonneg(s: Seq<Seq<u64>>)
    ensures
        total(s) >= 0,
    decreases s.len(),
{
    if s.len() > 0 {
        lemma_total_nonneg(s.drop_last());
        lemma_row_total_nonneg(s.last());
    }
}

proof fn lemma_row_seen_update(s: Seq<u64>, i: int, v: u64)
    requires
        0 <= i < s.len(),
    ensures
        row_seen(s.update(i, v)) + (if s[i] != UNSEEN {
            1int
        } else {
            0int
        }) == row_seen(s) + (if v != UNSEEN {
            1int
        } else {
            0int
        }),
    decreases s.len(),
{
    let u = s.update(i, v);
    if i == s.len() - 1 {
        assert(u.drop_last() =~= s.drop_last());
    } else {
        assert(u.drop_last() =~= s.drop_last().update(i, v));
        lemma_row_seen_update(s.drop_last(), i, v);
    }
}

proof fn lemma_grid_seen_update(s: Seq<Seq<u64>>, r: int, row: Seq<u64>)
    requires
        0 <= r < s.len(),
    ensures
        grid_seen(s.update(r, row)) + row_seen(s[r]) == grid_seen(s) + row_seen(row),
    decreases s.len(),
{
    let u = s.update(r, row);
    if r == s.len() - 1 {
        assert(u.drop_last() =~= s.drop_last());
    } else {
        assert(u.drop_last() =~= s.drop_last().update(r, row));
        lemma_grid_seen_update(s.drop_last(), r, row);
    }
}

proof fn lemma_row_seen_bound(s: Seq<u64>)
    ensures
        row_seen(s) <= s.len(),
    decreases s.len(),
{
    if s.len() > 0 {
        lemma_row_seen_bound(s.drop_last());
    }
}

proof fn lemma_grid_seen_bound(s: Seq<Seq<u64>>, w: int)
    requires
        w >= 0,
        forall|r: int| 0 <= r < s.len() ==> #[trigger] s[r].len() == w,
    ensures
        grid_seen(s) <= s.len() * w,
    decreases s.len(),
{
    if s.len() > 0 {
        let d = s.drop_last();
        assert forall|r: int| 0 <= r < d.len() implies #[trigger] d[r].len() == w by {
            assert(d[r] == s[r]);
        }
        lemma_grid_seen_bound(d, w);
        lemma_row_seen_bound(s.last());
        assert(d.len() * w + w == s.len() * w) by (nonlinear_arith)
            requires
                d.len() + 1 == s.len(),
        ;
    }
}

/// In a maze, at most width times height cells can be reached, which is far
/// below the sentinel cost.
proof fn lemma_seen_small(m: GridView, g: Seq<Seq<u64>>)
    requires
        m.valid(),
        shaped(m, g),
    ensures
        grid_seen(g) < 0x4000_0000_0000_0000,
{
    lemma_grid_seen_bound(g, m.width);
    assert(m.height * m.width < 0x4000_0000_0000_0000) by (nonlinear_arith)
        requires
            1 <= m.width <= 0x7fff_ffff,
            1 <= m.height <= 0x7fff_ffff,
    ;
}

/// Every position one step from `p` is `p` moved by one of the four unit offsets.
proof fn lemma_adjacent_offsets(p: Vector2, q: Vector2)
    requires
        adjacent(p, q),
    ensures
        q.0 == p.0 && q.1 == p.1 - 1 || q.0 == p.0 && q.1 == p.1 + 1 || q.0 == p.0 - 1 && q.1 == p.1
            || q.0 == p.0 + 1 && q.1 == p.1,
{
}

/// Index of a frontier entry with the least f-score.
fn min_index(open: &Vec<State>) -> (i: usize)
    requires
        open@.len() > 0,
    ensures
        i < open@.len(),
        forall|j: int| 0 <= j < open@.len() ==> open@[i as int].f_score <= (#[trigger] open@[j]).f_score,
{
    let mut best: usize = 0;
    let mut k: usize = 1;
    while k < open.len()
        invariant
            open@.len() > 0,
            best < open@.len(),
            1 <= k <= open@.len(),
            forall|j: int| 0 <= j < k ==> open@[best as int].f_score <= (#[trigger] open@[j]).f_score,
        decreases open@.len() - k,
    {
        if open[k].f_score < open[best].f_score {
            best = k;
        }
        k = k + 1;
    }
    best
}

/// Manhattan distance as an unsigned wide integer.
fn heuristic(a: Vector2, b: Vector2) -> (h: u128)
    ensures
        h == manhattan(a, b),
{
    let dx: i64 = b.0 as i64 - a.0 as i64;
    let dy: i64 = b.1 as i64 - a.1 as i64;
    let ax: i64 = if dx < 0 { -dx } else { dx };
    let ay: i64 = if dy < 0 { -dy } else { dy };
    (ax as u128) + (ay as u128)
}

/// A table of `height` rows of `width` copies of `v`.
fn table<T: Copy>(width: usize, height: usize, v: T) -> (t: Vec<Vec<T>>)
    ensures
        t@.len() == height,
        forall|r: int| 0 <= r < height ==> (#[trigger] t@[r])@ == Seq::new(width as nat, |_i: int| v),
{
    let mut t: Vec<Vec<T>> = Vec::new();
    let mut r: usize = 0;
    while r < height
        invariant
            r <= height,
            t@.len() == r,
            forall|i: int| 0 <= i < r ==> (#[trigger] t@[i])@ == Seq::new(width as nat, |_i: int| v),
        decreases height - r,
    {
        let mut row: Vec<T> = Vec::new();
        let mut c: usize = 0;
        while c < width
            invariant
                c <= width,
                row@ == Seq::new(c as nat, |_i: int| v),
            decreases width - c,
        {
            row.push(v);
            c = c + 1;
            assert(row@ =~= Seq::new(c as nat, |_i: int| v));
        }
        t.push(row);
        r = r + 1;
    }
    t
}

proof fn lemma_adjacent_symmetric(a: Vector2, b: Vector2)
    requires
        adjacent(a, b),
    ensures
        adjacent(b, a),
{
}

/// What one relaxation step guarantees to the search loop: reached positions
/// stay reached, the neighbour is reached when it is traversable, and the
/// frontier only grows by one entry for the position that became reached.
spec fn step_ok(
    m: GridView,
    start: Vector2,
    end: Vector2,
    cur: Vector2,
    offset: Vector2,
    ga: Seq<Seq<u64>>,
    gb: Seq<Seq<u64>>,
    oa: Seq<State>,
    ob: Seq<State>,
) -> bool {
    &&& forall|p: Vector2| seen(m, ga, start, p) ==> #[trigger] seen(m, gb, start, p)
    &&& fits_next(cur, offset) && m.traversable(next_of(cur, offset)) ==> seen(
        m,
        gb,
        start,
        next_of(cur, offset),
    )
    &&& ob.len() == oa.len() || ob.len() == oa.len() + 1
    &&& forall|k: int| 0 <= k < oa.len() ==> ob[k] == oa[k]
    &&& ob.len() > oa.len() ==> seen(m, gb, start, ob.last().position)
    &&& forall|p: Vector2|
        #[trigger] seen(m, gb, start, p) && !seen(m, ga, start, p) ==> ob.len() > oa.len()
            && ob.last().position == p
    &&& forall|p: Vector2|
        seen(m, ga, start, p) ==> #[trigger] cost(m, gb, p) <= cost(m, ga, p)
    &&& forall|p: Vector2|
        #[trigger] seen(m, gb, start, p) && (!seen(m, ga, start, p) || cost(m, gb, p) != cost(
            m,
            ga,
            p,
        )) ==> ob.len() > oa.len() && ob.last().position == p
    &&& ob.len() > oa.len() ==> ob.last().f_score == cost(m, gb, ob.last().position) + manhattan(
        ob.last().position,
        end,
    )
    &&& fits_next(cur, offset) && m.traversable(next_of(cur, offset)) ==> cost(
        m,
        gb,
        next_of(cur, offset),
    ) <= cost(m, ga, cur) + 1
    &&& cost(m, gb, cur) == cost(m, ga, cur)
}

/// Tries the neighbour of `cur` at `offset`: when it is traversable and the
/// route through `cur` is shorter than its recorded cost, records that route
/// and queues the neighbour.
fn relax(
    grid: &Grid,
    g_score: &mut Vec<Vec<u64>>,
    came_from: &mut Vec<Vec<Option<Vector2>>>,
    open_set: &mut Vec<State>,
    cur: Vector2,
    g_cur: u64,
    offset: Vector2,
    end: Vector2,
    Ghost(start): Ghost<Vector2>,
)
    requires
        grid.wf(),
        tree_ok(grid@, start, rows(old(g_score)@), rows(old(came_from)@)),
        seen(grid@, rows(old(g_score)@), start, cur),
        g_cur == cost(grid@, rows(old(g_score)@), cur),
        g_cur < UNSEEN,
        manhattan(Vector2(0, 0), offset) == 1,
    ensures
        tree_ok(grid@, start, rows(final(g_score)@), rows(final(came_from)@)),
        forall|p: Vector2|
            seen(grid@, rows(old(g_score)@), start, p) ==> #[trigger] seen(
                grid@,
                rows(final(g_score)@),
                start,
                p,
            ) && cost(grid@, rows(final(g_score)@), p) <= cost(grid@, rows(old(g_score)@), p),
        cost(grid@, rows(final(g_score)@), cur) == g_cur,
        step_ok(
            grid@,
            start,
            end,
            cur,
            offset,
            rows(old(g_score)@),
            rows(final(g_score)@),
            old(open_set)@,
            final(open_set)@,
        ),
        final(open_set)@.len() == old(open_set)@.len() ==> rows(final(g_score)@) == rows(
            old(g_score)@,
        ),
        final(open_set)@.len() > old(open_set)@.len() ==> total(rows(final(g_score)@)) < total(
            rows(old(g_score)@),
        ),
{
    let ghost m = grid@;
    let nx: i64 = cur.0 as i64 + offset.0 as i64;
    let ny: i64 = cur.1 as i64 + offset.1 as i64;
    if nx < 0 || ny < 0 || nx > i32::MAX as i64 || ny > i32::MAX as i64 {
        return;
    }
    let next = Vector2(nx as i32, ny as i32);
    assert(next == next_of(cur, offset));
    if !grid.is_valid_pos(&next) {
        return;
    }
    let c = nx as usize;
    let r = ny as usize;
    let ghost g0 = rows(g_score@);
    let ghost c0 = rows(came_from@);
    proof {
        assert(g0[r as int].len() == m.width);
        assert(c0[r as int].len() == m.width);
        assert(g0[r as int] == g_score@[r as int]@);
        assert(c0[r as int] == came_from@[r as int]@);
    }
    proof {
        lemma_seen_small(m, g0);
    }
    let tentative: u64 = g_cur + 1;
    if tentative < g_score[r][c] {
        came_from[r][c] = Some(cur);
        g_score[r][c] = tentative;
        let f = tentative as u128 + heuristic(next, end);
        open_set.push(State { position: next, f_score: f });
        proof {
            let g1 = rows(g_score@);
            let c1 = rows(came_from@);
            assert(g1 =~= g0.update(r as int, g0[r as int].update(c as int, tentative)));
            assert(c1 =~= c0.update(r as int, c0[r as int].update(c as int, Some(cur))));
            assert forall|p: Vector2| m.in_bounds(p) implies at(g1, p) == (if p == next {
                tentative
            } else {
                at(g0, p)
            }) && at(c1, p) == (if p == next {
                Some(cur)
            } else {
                at(c0, p)
            }) by {
                if p.1 == r as int {
                    assert(g1[p.1 as int] == g0[r as int].update(c as int, tentative));
                    assert(c1[p.1 as int] == c0[r as int].update(c as int, Some(cur)));
                }
            }
            assert(next != cur);
            assert(m.in_bounds(start) ==> next != start);
            assert forall|rr: int| 0 <= rr < m.height implies #[trigger] g1[rr].len() == m.width by {
                assert(g0[rr].len() == m.width);
            }
            assert forall|rr: int| 0 <= rr < m.height implies #[trigger] c1[rr].len() == m.width by {
                assert(c0[rr].len() == m.width);
            }
            assert forall|p: Vector2|
                m.in_bounds(p) && #[trigger] at(g1, p) != UNSEEN && p != start implies {
                &&& m.traversable(p)
                &&& at(c1, p) is Some
                &&& adjacent(at(c1, p).unwrap(), p)
                &&& seen(m, g1, start, at(c1, p).unwrap())
                &&& cost(m, g1, at(c1, p).unwrap()) < at(g1, p)
            } by {
                if p != next {
                    assert(at(g0, p) != UNSEEN);
                    let q = at(c0, p).unwrap();
                    if m.in_bounds(q) {
                        assert(at(g1, q) <= at(g0, q));
                    }
                } else {
                    lemma_adjacent_symmetric(next, cur);
                    if m.in_bounds(cur) {
                        assert(at(g1, cur) == at(g0, cur));
                    }
                }
            }
            assert forall|p: Vector2| seen(m, g0, start, p) implies #[trigger] seen(m, g1, start, p)
                && cost(m, g1, p) <= cost(m, g0, p) by {
                if m.in_bounds(p) {
                    assert(at(g1, p) <= at(g0, p));
                }
            }
            if m.in_bounds(cur) {
                assert(at(g1, cur) == at(g0, cur));
            }
            lemma_row_seen_update(g0[r as int], c as int, tentative);
            lemma_grid_seen_update(g0, r as int, g0[r as int].update(c as int, tentative));
            assert forall|p: Vector2| #[trigger] seen(m, g1, start, p) implies cost(m, g1, p)
                <= grid_seen(g1) by {
                if p == next {
                    assert(seen(m, g0, start, cur));
                    assert(cost(m, g0, cur) <= grid_seen(g0));
                    assert(at(g0, next) == g0[r as int][c as int]);
                    if at(g0, next) != UNSEEN {
                        assert(seen(m, g0, start, next));
                        assert(cost(m, g0, next) <= grid_seen(g0));
                    }
                } else if m.in_bounds(p) {
                    assert(at(g1, p) == at(g0, p));
                    assert(seen(m, g0, start, p));
                } else {
                    assert(seen(m, g0, start, p));
                }
            }
            lemma_row_total_update(g0[r as int], c as int, tentative);
            lemma_total_update(g0, r as int, g0[r as int].update(c as int, tentative));
            assert(open_set@.last().position == next);
            assert forall|p: Vector2| #[trigger] seen(m, g1, start, p) && !seen(m, g0, start, p) implies p
                == next by {
                if p != next && m.in_bounds(p) {
                    assert(at(g1, p) == at(g0, p));
                }
            }
            assert forall|p: Vector2|
                #[trigger] seen(m, g1, start, p) && (!seen(m, g0, start, p) || cost(m, g1, p) != cost(
                    m,
                    g0,
                    p,
                )) implies p == next by {
                if p != next && m.in_bounds(p) {
                    assert(at(g1, p) == at(g0, p));
                }
            }
            assert forall|p: Vector2| seen(m, g0, start, p) implies #[trigger] cost(m, g1, p) <= cost(
                m,
                g0,
                p,
            ) by {
                if m.in_bounds(p) {
                    assert(at(g1, p) <= at(g0, p));
                }
            }
            assert(cost(m, g1, next) == tentative);
        }
    } else {
        proof {
            assert(at(g0, next) <= tentative);
            assert(cost(m, g0, next) <= cost(m, g0, cur) + 1);
        }
    }
}

/// The position one step from `p` by `offset`, computed over integers.
spec fn next_of(p: Vector2, offset: Vector2) -> Vector2 {
    Vector2((p.0 + offset.0) as i32, (p.1 + offset.1) as i32)
}

/// Whether that step stays within the `i32` range.
spec fn fits_next(p: Vector2, offset: Vector2) -> bool {
    crate::point::fits_i32(p.0 + offset.0) && crate::point::fits_i32(p.1 + offset.1)
}

/// When the frontier is empty, every position of a route from the start has
/// been expanded.
proof fn lemma_route_expanded(
    m: GridView,
    start: Vector2,
    end: Vector2,
    g: Seq<Seq<u64>>,
    open: Seq<State>,
    expanded: Set<Vector2>,
    route: Seq<Vector2>,
    goal: Vector2,
    i: int,
)
    requires
        frontier_ok(m, start, end, g, open, expanded),
        open.len() == 0,
        is_route(m, route, start, goal),
        0 <= i < route.len(),
    ensures
        expanded.contains(route[i]),
    decreases route.len() - i,
{
    if i == route.len() - 1 {
        assert(seen(m, g, start, route[i]));
        assert(!has_entry(open, route[i]));
    } else {
        lemma_route_expanded(m, start, end, g, open, expanded, route, goal, i + 1);
        assert(adjacent(route[i], route[i + 1]));
        lemma_adjacent_symmetric(route[i], route[i + 1]);
        assert(m.traversable(route[i]));
        assert(seen(m, g, start, route[i]));
        assert(!has_entry(open, route[i]));
    }
}

/// Every traversable neighbour of `p` is reached at a cost at most one above
/// that of `p`.
spec fn closed(m: GridView, g: Seq<Seq<u64>>, start: Vector2, p: Vector2) -> bool {
    forall|q: Vector2|
        #[trigger] adjacent(p, q) && m.traversable(q) ==> seen(m, g, start, q) && cost(m, g, q)
            <= cost(m, g, p) + 1
}

/// The frontier holds an entry for `p` whose f-score is its current cost plus
/// the heuristic.
spec fn exact(m: GridView, g: Seq<Seq<u64>>, end: Vector2, open: Seq<State>, p: Vector2) -> bool {
    exists|k: int|
        0 <= k < open.len() && (#[trigger] open[k]).position == p && open[k].f_score == cost(m, g, p)
            + manhattan(p, end)
}

/// No entry underestimates its position's cost; every reached position (but
/// `cp` while it is being expanded) is closed or has an exact entry; the goal
/// always has an exact entry once reached.
spec fn order_ok(
    m: GridView,
    start: Vector2,
    end: Vector2,
    g: Seq<Seq<u64>>,
    open: Seq<State>,
    cp: Vector2,
    skip: bool,
) -> bool {
    &&& forall|k: int| 0 <= k < open.len() ==> seen(m, g, start, (#[trigger] open[k]).position)
    &&& forall|k: int|
        0 <= k < open.len() ==> (#[trigger] open[k]).f_score >= cost(m, g, open[k].position)
            + manhattan(open[k].position, end)
    &&& forall|p: Vector2|
        #[trigger] seen(m, g, start, p) && !(skip && p == cp) ==> closed(m, g, start, p) || exact(
            m,
            g,
            end,
            open,
            p,
        )
    &&& seen(m, g, start, end) && !(skip && end == cp) ==> exact(m, g, end, open, end)
}

proof fn lemma_order_pop(
    m: GridView,
    start: Vector2,
    end: Vector2,
    g: Seq<Seq<u64>>,
    open0: Seq<State>,
    i: int,
    any: Vector2,
)
    requires
        order_ok(m, start, end, g, open0, any, false),
        0 <= i < open0.len(),
    ensures
        order_ok(m, start, end, g, open0.remove(i), open0[i].position, true),
{
    let cp = open0[i].position;
    let open1 = open0.remove(i);
    assert forall|k: int| 0 <= k < open1.len() implies seen(m, g, start, (#[trigger] open1[k]).position) by {
        if k < i {
            assert(open1[k] == open0[k]);
        } else {
            assert(open1[k] == open0[k + 1]);
        }
    }
    assert forall|k: int| 0 <= k < open1.len() implies (#[trigger] open1[k]).f_score >= cost(
        m,
        g,
        open1[k].position,
    ) + manhattan(open1[k].position, end) by {
        if k < i {
            assert(open1[k] == open0[k]);
        } else {
            assert(open1[k] == open0[k + 1]);
        }
    }
    assert forall|p: Vector2| exact(m, g, end, open0, p) && p != cp implies exact(
        m,
        g,
        end,
        open1,
        p,
    ) by {
        let k = choose|k: int|
            0 <= k < open0.len() && (#[trigger] open0[k]).position == p && open0[k].f_score == cost(
                m,
                g,
                p,
            ) + manhattan(p, end);
        if k < i {
            assert(open1[k] == open0[k]);
        } else {
            assert(k != i);
            assert(open1[k - 1] == open0[k]);
        }
    }
}

proof fn lemma_order_step(
    m: GridView,
    start: Vector2,
    end: Vector2,
    cp: Vector2,
    offset: Vector2,
    ga: Seq<Seq<u64>>,
    gb: Seq<Seq<u64>>,
    oa: Seq<State>,
    ob: Seq<State>,
)
    requires
        order_ok(m, start, end, ga, oa, cp, true),
        step_ok(m, start, end, cp, offset, ga, gb, oa, ob),
    ensures
        order_ok(m, start, end, gb, ob, cp, true),
{
    assert forall|k: int| 0 <= k < ob.len() implies (#[trigger] ob[k]).f_score >= cost(
        m,
        gb,
        ob[k].position,
    ) + manhattan(ob[k].position, end) by {
        if k < oa.len() {
            assert(ob[k] == oa[k]);
            assert(seen(m, ga, start, oa[k].position));
        }
    }
    assert forall|k: int| 0 <= k < ob.len() implies seen(m, gb, start, (#[trigger] ob[k]).position) by {
        if k < oa.len() {
            assert(ob[k] == oa[k]);
            assert(seen(m, ga, start, oa[k].position));
        }
    }
    assert forall|p: Vector2| #[trigger]
        seen(m, gb, start, p) && !(true && p == cp) implies closed(m, gb, start, p) || exact(
        m,
        gb,
        end,
        ob,
        p,
    ) by {
        if !seen(m, ga, start, p) || cost(m, gb, p) != cost(m, ga, p) {
            assert(ob[ob.len() - 1].position == p);
        } else if exact(m, ga, end, oa, p) {
            let k = choose|k: int|
                0 <= k < oa.len() && (#[trigger] oa[k]).position == p && oa[k].f_score == cost(
                    m,
                    ga,
                    p,
                ) + manhattan(p, end);
            assert(ob[k] == oa[k]);
        } else {
            assert(closed(m, ga, start, p));
            assert forall|q: Vector2| #[trigger]
                adjacent(p, q) && m.traversable(q) implies seen(m, gb, start, q) && cost(m, gb, q)
                <= cost(m, gb, p) + 1 by {
                assert(seen(m, ga, start, q));
                assert(cost(m, gb, q) <= cost(m, ga, q));
            }
        }
    }
    if seen(m, gb, start, end) && end != cp {
        if !seen(m, ga, start, end) || cost(m, gb, end) != cost(m, ga, end) {
            assert(ob[ob.len() - 1].position == end);
        } else {
            let k = choose|k: int|
                0 <= k < oa.len() && (#[trigger] oa[k]).position == end && oa[k].f_score == cost(
                    m,
                    ga,
                    end,
                ) + manhattan(end, end);
            assert(ob[k] == oa[k]);
        }
    }
}

/// After its four neighbours are relaxed, `cp` is closed and the ordering
/// invariant holds without exemption.
proof fn lemma_order_close(
    m: GridView,
    start: Vector2,
    end: Vector2,
    cp: Vector2,
    dirs: Seq<Direction>,
    g0: Seq<Seq<u64>>,
    gs1: Seq<Seq<u64>>,
    gs2: Seq<Seq<u64>>,
    gs3: Seq<Seq<u64>>,
    g4: Seq<Seq<u64>>,
    open1: Seq<State>,
    os1: Seq<State>,
    os2: Seq<State>,
    os3: Seq<State>,
    os4: Seq<State>,
)
    requires
        seen(m, g0, start, cp),
        cp != end,
        order_ok(m, start, end, g4, os4, cp, true),
        dirs == seq![
            Direction::up_spec(),
            Direction::down_spec(),
            Direction::left_spec(),
            Direction::right_spec(),
        ],
        step_ok(m, start, end, cp, dirs[0].offset(), g0, gs1, open1, os1),
        step_ok(m, start, end, cp, dirs[1].offset(), gs1, gs2, os1, os2),
        step_ok(m, start, end, cp, dirs[2].offset(), gs2, gs3, os2, os3),
        step_ok(m, start, end, cp, dirs[3].offset(), gs3, g4, os3, os4),
    ensures
        closed(m, g4, start, cp),
        order_ok(m, start, end, g4, os4, cp, false),
{
    assert forall|q: Vector2| #[trigger]
        adjacent(cp, q) && m.traversable(q) implies seen(m, g4, start, q) && cost(m, g4, q) <= cost(
        m,
        g4,
        cp,
    ) + 1 by {
        lemma_adjacent_offsets(cp, q);
        if q.0 == cp.0 && q.1 == cp.1 - 1 {
            assert(q == next_of(cp, dirs[0].offset()));
            assert(cost(m, gs2, q) <= cost(m, gs1, q));
            assert(cost(m, gs3, q) <= cost(m, gs2, q));
            assert(cost(m, g4, q) <= cost(m, gs3, q));
        } else if q.0 == cp.0 && q.1 == cp.1 + 1 {
            assert(q == next_of(cp, dirs[1].offset()));
            assert(cost(m, gs3, q) <= cost(m, gs2, q));
            assert(cost(m, g4, q) <= cost(m, gs3, q));
        } else if q.0 == cp.0 - 1 && q.1 == cp.1 {
            assert(q == next_of(cp, dirs[2].offset()));
            assert(cost(m, g4, q) <= cost(m, gs3, q));
        } else {
            assert(q == next_of(cp, dirs[3].offset()));
        }
    }
    assert forall|p: Vector2| #[trigger] seen(m, g4, start, p) && !(false && p == cp) implies closed(
        m,
        g4,
        start,
        p,
    ) || exact(m, g4, end, os4, p) by {
        if p != cp {
            assert(seen(m, g4, start, p) && !(true && p == cp));
        }
    }
}

/// Walking a route from the start through closed positions at no more than
/// their distance along it, one meets an entry whose f-score is at most the
/// route's length.
proof fn lemma_cheap_entry(
    m: GridView,
    start: Vector2,
    end: Vector2,
    g: Seq<Seq<u64>>,
    open: Seq<State>,
    any: Vector2,
    route: Seq<Vector2>,
    j: int,
)
    requires
        order_ok(m, start, end, g, open, any, false),
        is_route(m, route, start, end),
        0 <= j < route.len(),
        seen(m, g, start, route[route.len() - 1 - j]),
        cost(m, g, route[route.len() - 1 - j]) <= j,
    ensures
        exists|k: int| 0 <= k < open.len() && (#[trigger] open[k]).f_score <= route.len() - 1,
    decreases route.len() - j,
{
    let n = route.len() - 1;
    let u = route[n - j];
    if j == n {
        assert(u == end);
        let k = choose|k: int|
            0 <= k < open.len() && (#[trigger] open[k]).position == end && open[k].f_score == cost(
                m,
                g,
                end,
            ) + manhattan(end, end);
        assert(open[k].f_score <= n);
    } else if !closed(m, g, start, u) {
        let k = choose|k: int|
            0 <= k < open.len() && (#[trigger] open[k]).position == u && open[k].f_score == cost(
                m,
                g,
                u,
            ) + manhattan(u, end);
        let sub = route.take(n - j + 1);
        assert forall|i: int| 0 <= i < sub.len() - 1 implies adjacent(#[trigger] sub[i], sub[i + 1]) by {
            assert(adjacent(route[i], route[i + 1]));
        }
        assert forall|i: int| 0 <= i < sub.len() - 1 implies m.traversable(#[trigger] sub[i]) by {
            assert(m.traversable(route[i]));
        }
        lemma_heuristic_admissible(m, sub, u, end);
        assert(open[k].f_score <= n);
    } else {
        let v = route[n - j - 1];
        assert(adjacent(v, u));
        lemma_adjacent_symmetric(v, u);
        assert(m.traversable(v));
        assert(seen(m, g, start, v) && cost(m, g, v) <= cost(m, g, u) + 1);
        lemma_cheap_entry(m, start, end, g, open, any, route, j + 1);
    }
}

/// One expansion of `cp` keeps the frontier bookkeeping, with `cp` now expanded.
proof fn lemma_expand_step(
    m: GridView,
    start: Vector2,
    end: Vector2,
    cp: Vector2,
    i: int,
    dirs: Seq<Direction>,
    g0: Seq<Seq<u64>>,
    gs1: Seq<Seq<u64>>,
    gs2: Seq<Seq<u64>>,
    gs3: Seq<Seq<u64>>,
    g4: Seq<Seq<u64>>,
    open0: Seq<State>,
    open1: Seq<State>,
    os1: Seq<State>,
    os2: Seq<State>,
    os3: Seq<State>,
    os4: Seq<State>,
    expanded: Set<Vector2>,
)
    requires
        frontier_ok(m, start, end, g0, open0, expanded),
        0 <= i < open0.len(),
        open0[i].position == cp,
        cp != end,
        open1 == open0.remove(i),
        dirs == seq![
            Direction::up_spec(),
            Direction::down_spec(),
            Direction::left_spec(),
            Direction::right_spec(),
        ],
        step_ok(m, start, end, cp, dirs[0].offset(), g0, gs1, open1, os1),
        step_ok(m, start, end, cp, dirs[1].offset(), gs1, gs2, os1, os2),
        step_ok(m, start, end, cp, dirs[2].offset(), gs2, gs3, os2, os3),
        step_ok(m, start, end, cp, dirs[3].offset(), gs3, g4, os3, os4),
    ensures
        frontier_ok(m, start, end, g4, os4, expanded.insert(cp)),
{
    let new_expanded = expanded.insert(cp);
        // Entries only get appended after the removal.
        assert forall|k: int| 0 <= k < open1.len() implies #[trigger] os4[k] == open1[k] by {
            assert(os1[k] == open1[k]);
            assert(os2[k] == os1[k]);
            assert(os3[k] == os2[k]);
        }
        assert forall|p: Vector2| seen(m, g0, start, p) implies #[trigger] seen(m, g4, start, p) by {
            assert(seen(m, gs1, start, p));
            assert(seen(m, gs2, start, p));
            assert(seen(m, gs3, start, p));
        }
        // Every frontier entry is reached.
        assert forall|k: int| 0 <= k < os4.len() implies seen(m, g4, start, (#[trigger] os4[k]).position) by {
            if k < open1.len() {
                assert(os4[k] == open1[k]);
                if k < i {
                    assert(open1[k] == open0[k]);
                } else {
                    assert(open1[k] == open0[k + 1]);
                }
                assert(seen(m, g0, start, open1[k].position));
            } else if k < os1.len() {
                assert(os2[k] == os1[k]);
                assert(os3[k] == os1[k]);
                assert(os4[k] == os1[k]);
                assert(seen(m, gs1, start, os1[k].position));
                assert(seen(m, gs2, start, os1[k].position));
                assert(seen(m, gs3, start, os1[k].position));
            } else if k < os2.len() {
                assert(os3[k] == os2[k]);
                assert(os4[k] == os2[k]);
                assert(seen(m, gs2, start, os2[k].position));
                assert(seen(m, gs3, start, os2[k].position));
            } else if k < os3.len() {
                assert(os4[k] == os3[k]);
                assert(seen(m, gs3, start, os3[k].position));
            }
        }
        // Every reached position is expanded or has an entry.
        assert forall|p: Vector2| #[trigger] seen(m, g4, start, p) implies new_expanded.contains(p)
            || has_entry(os4, p) by {
            if p == cp {
            } else if seen(m, g0, start, p) {
                if !expanded.contains(p) {
                    let k = choose|k: int| 0 <= k < open0.len() && (#[trigger] open0[k]).position == p;
                    if k < i {
                        assert(open1[k] == open0[k]);
                        assert(os4[k] == open1[k]);
                    } else {
                        assert(k != i);
                        assert(open1[k - 1] == open0[k]);
                        assert(os4[k - 1] == open1[k - 1]);
                    }
                }
            } else if seen(m, gs1, start, p) {
                assert(os1.last().position == p);
                assert(os4[os1.len() - 1] == os1[os1.len() - 1]) by {
                    assert(os2[os1.len() - 1] == os1[os1.len() - 1]);
                    assert(os3[os1.len() - 1] == os2[os1.len() - 1]);
                }
            } else if seen(m, gs2, start, p) {
                assert(os2.last().position == p);
                assert(os4[os2.len() - 1] == os2[os2.len() - 1]) by {
                    assert(os3[os2.len() - 1] == os2[os2.len() - 1]);
                }
            } else if seen(m, gs3, start, p) {
                assert(os3.last().position == p);
                assert(os4[os3.len() - 1] == os3[os3.len() - 1]);
            } else {
                assert(os4.last().position == p);
                assert(os4[os4.len() - 1].position == p);
            }
        }
        // Expanded positions have all their neighbours reached.
        assert forall|p: Vector2, q: Vector2|
            #[trigger] new_expanded.contains(p) && #[trigger] adjacent(p, q) && m.traversable(q)
            implies seen(m, g4, start, q) by {
            if p == cp {
                lemma_adjacent_offsets(p, q);
                if q.0 == p.0 && q.1 == p.1 - 1 {
                    assert(q == next_of(cp, dirs[0].offset()));
                    assert(seen(m, gs1, start, q));
                    assert(seen(m, gs2, start, q));
                    assert(seen(m, gs3, start, q));
                } else if q.0 == p.0 && q.1 == p.1 + 1 {
                    assert(q == next_of(cp, dirs[1].offset()));
                    assert(seen(m, gs2, start, q));
                    assert(seen(m, gs3, start, q));
                } else if q.0 == p.0 - 1 && q.1 == p.1 {
                    assert(q == next_of(cp, dirs[2].offset()));
                    assert(seen(m, gs3, start, q));
                } else {
                    assert(q == next_of(cp, dirs[3].offset()));
                }
            } else {
                assert(expanded.contains(p));
                assert(seen(m, g0, start, q));
            }
        }
        assert forall|p: Vector2| #[trigger] new_expanded.contains(p) implies seen(m, g4, start, p) by {
            if p != cp {
                assert(expanded.contains(p));
            }
        }
}

/// Follows the recorded predecessors from `current` back to the start. The
/// path is ordered from `current` to the start; with `already_on_start` the
/// start itself is left out.
#[verifier::rlimit(60)]
fn reconstruct_path(
    came_from: &Vec<Vec<Option<Vector2>>>,
    g_score: &Vec<Vec<u64>>,
    current: Vector2,
    already_on_start: bool,
    Ghost(m): Ghost<GridView>,
    Ghost(start): Ghost<Vector2>,
) -> (path: Vec<Vector2>)
    requires
        m.valid(),
        tree_ok(m, start, rows(g_score@), rows(came_from@)),
        seen(m, rows(g_score@), start, current),
    ensures
        is_route(m, with_start(path@, start, already_on_start), start, current),
        current == start ==> path@.len() == if already_on_start {
            0int
        } else {
            1int
        },
        with_start(path@, start, already_on_start).len() - 1 <= cost(m, rows(g_score@), current),
        pred_chain(m, rows(came_from@), with_start(path@, start, already_on_start)),
{
    let ghost g = rows(g_score@);
    let ghost c = rows(came_from@);
    let height = came_from.len();
    let mut cur = current;
    let mut path: Vec<Vector2> = vec![cur];
    loop
        invariant_except_break
            height == m.height,
            tree_ok(m, start, g, c),
            g == rows(g_score@),
            c == rows(came_from@),
            seen(m, g, start, cur),
            current == start ==> path@.len() == 1 && cur == start,
            path@.len() - 1 + cost(m, g, cur) <= cost(m, g, current),
            path@.len() >= 1,
            path@[0] == current,
            path@.last() == cur,
            forall|i: int| 0 <= i < path@.len() - 1 ==> adjacent(#[trigger] path@[i], path@[i + 1]),
            forall|i: int| 0 <= i < path@.len() - 1 ==> m.traversable(#[trigger] path@[i]),
            forall|i: int|
                0 <= i < path@.len() - 1 ==> has_pred(m, c, #[trigger] path@[i]) && path@[i + 1]
                    == at(c, path@[i]).unwrap(),
        ensures
            is_route(m, path@, start, current),
            pred_chain(m, c, path@),
            current == start ==> path@.len() == 1,
            path@.len() - 1 <= cost(m, g, current),
        decreases cost(m, g, cur),
    {
        let in_grid = cur.0 >= 0 && cur.1 >= 0 && (cur.1 as usize) < height && (cur.0 as usize)
            < came_from[cur.1 as usize].len();
        if !in_grid {
            proof {
                assert(c.len() == m.height);
                if cur.0 >= 0 && cur.1 >= 0 && cur.1 < m.height {
                    assert(c[cur.1 as int] == came_from@[cur.1 as int]@);
                }
            }
            break;
        }
        proof {
            assert(c[cur.1 as int] == came_from@[cur.1 as int]@);
            assert(c[cur.1 as int].len() == m.width);
        }
        let pred = came_from[cur.1 as usize][cur.0 as usize];
        match pred {
            None => {
                proof {
                    assert(at(c, cur) is None);
                }
                break;
            },
            Some(q) => {
                proof {
                    assert(at(c, cur) == Some(q));
                    assert(cur != start);
                    assert(at(g, cur) != UNSEEN);
                    assert(cost(m, g, cur) == at(g, cur));
                    assert(cost(m, g, q) < cost(m, g, cur));
                    lemma_adjacent_symmetric(q, cur);
                }
                path.push(q);
                cur = q;
            },
        }
    }
    if already_on_start {
        path.pop();
    }
    proof {
        if already_on_start {
            assert(path@.push(start) =~= with_start(path@, start, already_on_start));
        }
    }
    path
}

/// Finds a shortest path from `start` to `end` with A*, ordered from `end`
/// back to `start`: pop from its back to walk it. With `already_on_start` the
/// trailing `start` is left out. Returns `None` when no route leads there.
pub fn a_star(grid: &Grid, start: Vector2, end: Vector2, already_on_start: bool) -> (r: Option<
    Vec<Vector2>,
>)
    requires
        grid.wf(),
    ensures
        r is Some <==> reachable(grid@, start, end),
        r matches Some(path) ==> is_shortest_route(
            grid@,
            with_start(path@, start, already_on_start),
            start,
            end,
        ),
        start == end ==> (r matches Some(path) && path@.len() == if already_on_start {
            0int
        } else {
            1int
        }),
{
    let ghost m = grid@;
    let width = grid.get_width();
    let height = grid.get_height();
    let mut g_score: Vec<Vec<u64>> = table(width, height, UNSEEN);
    let mut came_from: Vec<Vec<Option<Vector2>>> = table(width, height, None);
    proof {
        let g = rows(g_score@);
        assert forall|rr: int| 0 <= rr < m.height implies #[trigger] g[rr].len() == m.width by {
            assert(g[rr] == g_score@[rr]@);
        }
        let c = rows(came_from@);
        assert forall|rr: int| 0 <= rr < m.height implies #[trigger] c[rr].len() == m.width by {
            assert(c[rr] == came_from@[rr]@);
        }
        assert forall|p: Vector2| m.in_bounds(p) implies at(g, p) == UNSEEN && at(c, p) is None by {
            assert(g[p.1 as int] == g_score@[p.1 as int]@);
            assert(c[p.1 as int] == came_from@[p.1 as int]@);
        }
    }
    if start.0 >= 0 && start.1 >= 0 && (start.0 as usize) < width && (start.1 as usize) < height {
        let ghost g0 = rows(g_score@);
        proof {
            assert(g0[start.1 as int] == g_score@[start.1 as int]@);
        }
        g_score[start.1 as usize][start.0 as usize] = 0;
        proof {
            let g1 = rows(g_score@);
            assert(g1 =~= g0.update(start.1 as int, g0[start.1 as int].update(start.0 as int, 0)));
            assert forall|p: Vector2| m.in_bounds(p) implies at(g1, p) == (if p == start {
                0
            } else {
                UNSEEN
            }) by {
                if p.1 == start.1 {
                    assert(g1[p.1 as int] == g0[start.1 as int].update(start.0 as int, 0));
                }
            }
            assert forall|rr: int| 0 <= rr < m.height implies #[trigger] g1[rr].len() == m.width by {
                assert(g0[rr].len() == m.width);
            }
            lemma_row_seen_update(g0[start.1 as int], start.0 as int, 0);
            lemma_grid_seen_update(g0, start.1 as int, g0[start.1 as int].update(start.0 as int, 0));
        }
    }
    let mut open_set: Vec<State> = Vec::new();
    open_set.push(State { position: start, f_score: heuristic(start, end) });
    let ghost mut expanded: Set<Vector2> = Set::empty();
    proof {
        let g = rows(g_score@);
        assert forall|p: Vector2| #[trigger] seen(m, g, start, p) implies expanded.contains(p)
            || has_entry(open_set@, p) by {
            if p != start && m.in_bounds(p) {
                assert(at(g, p) == UNSEEN);
            }
            assert(open_set@[0].position == start);
        }
        assert forall|p: Vector2| #[trigger] seen(m, g, start, p) implies cost(m, g, p) <= grid_seen(
            g,
        ) by {
            if p != start && m.in_bounds(p) {
                assert(at(g, p) == UNSEEN);
            }
        }
        assert(cost(m, g, start) == 0);
        assert forall|p: Vector2| #[trigger] seen(m, g, start, p) && !(false && p == end) implies closed(
            m,
            g,
            start,
            p,
        ) || exact(m, g, end, open_set@, p) by {
            if p != start && m.in_bounds(p) {
                assert(at(g, p) == UNSEEN);
            }
            assert(open_set@[0].position == start);
        }
        if seen(m, g, start, end) {
            if end != start && m.in_bounds(end) {
                assert(at(g, end) == UNSEEN);
            }
            assert(open_set@[0].position == end);
        }
    }
    while open_set.len() > 0
        invariant
            grid.wf(),
            m == grid@,
            width == m.width,
            height == m.height,
            tree_ok(m, start, rows(g_score@), rows(came_from@)),
            frontier_ok(m, start, end, rows(g_score@), open_set@, expanded),
            order_ok(m, start, end, rows(g_score@), open_set@, end, false),
        decreases total(rows(g_score@)), open_set@.len(),
    {
        let i = min_index(&open_set);
        let ghost open0 = open_set@;
        let current = open_set.remove(i);
        let cp = current.position;
        if cp == end {
            proof {
                assert(open0[i as int].position == end);
                assert(seen(m, rows(g_score@), start, end));
            }
            let path = reconstruct_path(
                &came_from,
                &g_score,
                end,
                already_on_start,
                Ghost(m),
                Ghost(start),
            );
            proof {
                let g = rows(g_score@);
                assert(is_route(m, with_start(path@, start, already_on_start), start, end));
                assert(open0[i as int].f_score >= cost(m, g, end) + manhattan(end, end));
                assert forall|route: Seq<Vector2>| #[trigger] is_route(m, route, start, end) implies with_start(
                    path@,
                    start,
                    already_on_start,
                ).len() <= route.len() by {
                    assert(route[route.len() - 1] == start);
                    assert(cost(m, g, start) == 0);
                    lemma_cheap_entry(m, start, end, g, open0, end, route, 0);
                    let k = choose|k: int|
                        0 <= k < open0.len() && (#[trigger] open0[k]).f_score <= route.len() - 1;
                    assert(open0[i as int].f_score <= open0[k].f_score);
                }
            }
            return Some(path);
        }
        let ghost g0 = rows(g_score@);
        let ghost open1 = open_set@;
        proof {
            assert(seen(m, g0, start, cp));
            lemma_order_pop(m, start, end, g0, open0, i as int, end);
        }
        let g_cur: u64 = if cp.0 >= 0 && cp.1 >= 0 && (cp.0 as usize) < width && (cp.1 as usize)
            < height {
            proof {
                assert(g0[cp.1 as int] == g_score@[cp.1 as int]@);
                assert(g0[cp.1 as int].len() == m.width);
            }
            g_score[cp.1 as usize][cp.0 as usize]
        } else {
            0
        };
        proof {
            lemma_seen_small(m, g0);
            assert(cost(m, g0, cp) <= grid_seen(g0));
        }
        let dirs = Direction::directions();
        relax(grid, &mut g_score, &mut came_from, &mut open_set, cp, g_cur, dirs[0].delta(), end, Ghost(start));
        let ghost gs1 = rows(g_score@);
        let ghost os1 = open_set@;
        relax(grid, &mut g_score, &mut came_from, &mut open_set, cp, g_cur, dirs[1].delta(), end, Ghost(start));
        let ghost gs2 = rows(g_score@);
        let ghost os2 = open_set@;
        relax(grid, &mut g_score, &mut came_from, &mut open_set, cp, g_cur, dirs[2].delta(), end, Ghost(start));
        let ghost gs3 = rows(g_score@);
        let ghost os3 = open_set@;
        relax(grid, &mut g_score, &mut came_from, &mut open_set, cp, g_cur, dirs[3].delta(), end, Ghost(start));
        proof {
            lemma_expand_step(
                m,
                start,
                end,
                cp,
                i as int,
                dirs@,
                g0,
                gs1,
                gs2,
                gs3,
                rows(g_score@),
                open0,
                open1,
                os1,
                os2,
                os3,
                open_set@,
                expanded,
            );
            let d = dirs@;
            lemma_order_step(m, start, end, cp, d[0].offset(), g0, gs1, open1, os1);
            lemma_order_step(m, start, end, cp, d[1].offset(), gs1, gs2, os1, os2);
            lemma_order_step(m, start, end, cp, d[2].offset(), gs2, gs3, os2, os3);
            lemma_order_step(m, start, end, cp, d[3].offset(), gs3, rows(g_score@), os3, open_set@);
            lemma_order_close(
                m,
                start,
                end,
                cp,
                d,
                g0,
                gs1,
                gs2,
                gs3,
                rows(g_score@),
                open1,
                os1,
                os2,
                os3,
                open_set@,
            );
            lemma_total_nonneg(rows(g_score@));
            expanded = expanded.insert(cp);
        }
    }
    proof {
        if start == end {
            let single = seq![start];
            lemma_route_expanded(m, start, end, rows(g_score@), open_set@, expanded, single, end, 0);
        }
        assert forall|route: Seq<Vector2>| !is_route(m, route, start, end) by {
            if is_route(m, route, start, end) {
                lemma_route_expanded(m, start, end, rows(g_score@), open_set@, expanded, route, end, 0);
            }
        }
    }
    None
}

} // verus!
