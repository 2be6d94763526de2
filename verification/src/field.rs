//! The flow-field builder: a dense table of direction codes, built for one
//! target cell by wavefront cost propagation over the passable cells.

use vstd::prelude::*;

use crate::dirs::{
    dir_dx, dir_dy, decode_pair, nbr, u8_to_vector, FlowVec, DOWN, DOWN_LEFT, DOWN_RIGHT,
    IMPASSABLE, LEFT, RIGHT, TARGET, UP, UP_LEFT, UP_RIGHT,
};
use crate::grid::{cell_of, cell_set, in_bounds, GridCell, WorldPos, CELL_SIZE, MAX_SIDE};

verus! {

/// Why a field could not be built.
///
/// `OutOfBounds` and `TargetBlocked` are expected, frequent conditions that
/// callers degrade from gracefully; `NoPathFound` means the wavefront could
/// not assign a direction, which happens only when the target has no
/// passable in-bounds neighbour at all.
#[derive(Clone, Copy, PartialEq, Eq, Structural, Debug)]
pub enum FlowError {
    OutOfBounds,
    TargetBlocked,
    NoPathFound,
}

/// The mathematical content of a flow field: its side length, its target
/// cell, the direction code of every cell, and the ghost cost table the
/// wavefront assigned while building it.
#[verifier::ext_equal]
pub ghost struct FieldView {
    pub n: int,
    pub target: (int, int),
    pub data: Seq<Seq<u8>>,
    pub cost: Seq<Seq<u32>>,
}

impl FieldView {
    /// Whether a cell lies within this field.
    pub open spec fn inb(self, c: (int, int)) -> bool {
        in_bounds(self.n, c)
    }

    /// The direction code stored at a cell.
    pub open spec fn at(self, c: (int, int)) -> u8 {
        self.data[c.0][c.1]
    }

    /// The wavefront cost assigned to a cell; `u32::MAX` marks impassable
    /// cells, `0` marks the target and the cells the wavefront never
    /// reached.
    pub open spec fn cost_at(self, c: (int, int)) -> u32 {
        self.cost[c.0][c.1]
    }

    /// The neighbour a cell's stored direction points to.
    pub open spec fn step(self, c: (int, int)) -> (int, int) {
        nbr(c, self.at(c))
    }

    /// Whether the wavefront reached a cell: the target itself, or any
    /// passable cell that was assigned a positive cost.
    pub open spec fn reachable(self, c: (int, int)) -> bool {
        self.inb(c) && self.cost_at(c) != u32::MAX && (c == self.target || self.cost_at(c) >= 1)
    }

    /// The per-cell invariant: direction codes are valid, the `IMPASSABLE`
    /// code marks exactly the cells with sentinel cost, the `TARGET` code
    /// marks only the target, and every reached non-target cell points to
    /// an in-bounds neighbour of strictly lower cost.
    pub open spec fn cell_ok(self, x: int, y: int) -> bool {
        let c = (x, y);
        &&& self.at(c) <= IMPASSABLE
        &&& (self.at(c) == IMPASSABLE <==> self.cost_at(c) == u32::MAX)
        &&& (self.at(c) == TARGET ==> c == self.target)
        &&& (c != self.target && 1 <= self.cost_at(c) && self.cost_at(c) != u32::MAX ==> {
            &&& self.at(c) < TARGET
            &&& self.inb(self.step(c))
            &&& self.cost_at(self.step(c)) < self.cost_at(c)
            &&& (self.cost_at(self.step(c)) == 0 ==> self.step(c) == self.target)
        })
    }

    /// Well-formedness of a built field.
    pub open spec fn wf(self) -> bool {
        &&& 1 <= self.n <= MAX_SIDE as int
        &&& self.data.len() == self.n
        &&& (forall|x: int| 0 <= x < self.n ==> (#[trigger] self.data[x]).len() == self.n)
        &&& self.cost.len() == self.n
        &&& (forall|x: int| 0 <= x < self.n ==> (#[trigger] self.cost[x]).len() == self.n)
        &&& self.inb(self.target)
        &&& self.at(self.target) == TARGET
        &&& self.cost_at(self.target) == 0
        &&& (forall|x: int, y: int| in_bounds(self.n, (x, y)) ==> #[trigger] self.cell_ok(x, y))
    }
}

/// Whether a table holds `n` rows of `n` entries each.
pub open spec fn dims<T>(g: Vec<Vec<T>>, n: int) -> bool {
    g@.len() == n && forall|x: int| 0 <= x < n ==> (#[trigger] g@[x])@.len() == n
}

/// The entry of a rectangular table at a cell.
pub open spec fn gat<T>(g: Vec<Vec<T>>, c: (int, int)) -> T {
    g@[c.0]@[c.1]
}

/// Allocate an `n` by `n` table filled with one value.
fn make_grid<T: Copy>(n: usize, v: T) -> (g: Vec<Vec<T>>)
    requires
        n <= MAX_SIDE,
    ensures
        dims(g, n as int),
        forall|x: int, y: int| in_bounds(n as int, (x, y)) ==> gat(g, (x, y)) == v,
{
    let mut g: Vec<Vec<T>> = Vec::new();
    let mut x: usize = 0;
    while x < n
        invariant
            x <= n,
            g@.len() == x,
            forall|i: int| 0 <= i < x ==> (#[trigger] g@[i])@.len() == n,
            forall|i: int, j: int|
                0 <= i < x && 0 <= j < n ==> #[trigger] g@[i]@[j] == v,
        decreases n - x,
    {
        let mut row: Vec<T> = Vec::new();
        let mut y: usize = 0;
        while y < n
            invariant
                y <= n,
                row@.len() == y,
                forall|j: int| 0 <= j < y ==> row@[j] == v,
            decreases n - y,
        {
            row.push(v);
            y = y + 1;
        }
        g.push(row);
        x = x + 1;
    }
    g
}

/// Write one entry of a rectangular table.
fn set_grid<T>(grid: &mut Vec<Vec<T>>, x: usize, y: usize, value: T)
    requires
        (x as int) < old(grid)@.len(),
        (y as int) < old(grid)@[x as int]@.len(),
    ensures
        final(grid)@.len() == old(grid)@.len(),
        final(grid)@[x as int]@ == old(grid)@[x as int]@.update(y as int, value),
        forall|i: int| 0 <= i < old(grid)@.len() && i != x ==> final(grid)@[i] == old(grid)@[i],
{
    let row = &mut grid[x];
    row.set(y, value);
}

/// The in-bounds neighbour of `(x, y)` in direction `d`, if there is one.
fn neighbor(n: usize, x: usize, y: usize, d: u8) -> (r: Option<(usize, usize)>)
    requires
        x < n,
        y < n,
        n <= MAX_SIDE,
        d < TARGET,
    ensures
        r matches Some(p) ==> (p.0 as int, p.1 as int) == nbr((x as int, y as int), d)
            && in_bounds(n as int, nbr((x as int, y as int), d)),
        r is None ==> !in_bounds(n as int, nbr((x as int, y as int), d)),
{
    if d == UP {
        if y + 1 < n {
            Some((x, y + 1))
        } else {
            None
        }
    } else if d == UP_RIGHT {
        if x + 1 < n && y + 1 < n {
            Some((x + 1, y + 1))
        } else {
            None
        }
    } else if d == RIGHT {
        if x + 1 < n {
            Some((x + 1, y))
        } else {
            None
        }
    } else if d == DOWN_RIGHT {
        if x + 1 < n && y > 0 {
            Some((x + 1, y - 1))
        } else {
            None
        }
    } else if d == DOWN {
        if y > 0 {
            Some((x, y - 1))
        } else {
            None
        }
    } else if d == DOWN_LEFT {
        if x > 0 && y > 0 {
            Some((x - 1, y - 1))
        } else {
            None
        }
    } else if d == LEFT {
        if x > 0 {
            Some((x - 1, y))
        } else {
            None
        }
    } else {
        assert(d == UP_LEFT);
        if x > 0 && y + 1 < n {
            Some((x - 1, y + 1))
        } else {
            None
        }
    }
}

/// Scan the up-to-eight neighbours of `(x, y)`, diagonals first, and pick
/// one whose cost is minimal among them; `None` when every in-bounds
/// neighbour carries the impassable sentinel cost.
fn pick_direction(costs: &Vec<Vec<u32>>, n: usize, x: usize, y: usize) -> (r: Option<u8>)
    requires
        dims(*costs, n as int),
        x < n,
        y < n,
        n <= MAX_SIDE,
    ensures
        r matches Some(d) ==> d < TARGET && in_bounds(n as int, nbr((x as int, y as int), d))
            && gat(*costs, nbr((x as int, y as int), d)) < u32::MAX
            && (forall|e: u8|
                e < TARGET && in_bounds(n as int, nbr((x as int, y as int), e))
                    ==> gat(*costs, nbr((x as int, y as int), d)) <= gat(
                    *costs,
                    nbr((x as int, y as int), e),
                )),
        r is None ==> forall|e: u8|
            e < TARGET && in_bounds(n as int, nbr((x as int, y as int), e)) ==> gat(
                *costs,
                nbr((x as int, y as int), e),
            ) == u32::MAX,
{
    let mut best: Option<u8> = None;
    let mut best_cost: u32 = u32::MAX;
    let order: [u8; 8] = [UP_RIGHT, DOWN_RIGHT, DOWN_LEFT, UP_LEFT, UP, RIGHT, DOWN, LEFT];
    let mut k: usize = 0;
    while k < 8
        invariant
            dims(*costs, n as int),
            x < n,
            y < n,
            n <= MAX_SIDE,
            k <= 8,
            order@ == seq![UP_RIGHT, DOWN_RIGHT, DOWN_LEFT, UP_LEFT, UP, RIGHT, DOWN, LEFT],
            best matches Some(d) ==> d < TARGET && in_bounds(n as int, nbr((x as int, y as int), d))
                && gat(*costs, nbr((x as int, y as int), d)) == best_cost && best_cost < u32::MAX,
            best is None ==> best_cost == u32::MAX,
            forall|m: int|
                0 <= m < k && in_bounds(n as int, nbr((x as int, y as int), #[trigger] order@[m]))
                    ==> best_cost <= gat(*costs, nbr((x as int, y as int), order@[m])),
        decreases 8 - k,
    {
        let d = order[k];
        match neighbor(n, x, y, d) {
            Some(p) => {
                let c = costs[p.0][p.1];
                if best_cost > c {
                    best = Some(d);
                    best_cost = c;
                }
            },
            None => {},
        }
        k = k + 1;
    }
    proof {
        assert forall|e: u8|
            e < TARGET && in_bounds(n as int, nbr((x as int, y as int), e)) implies best_cost <= gat(
            *costs,
            nbr((x as int, y as int), e),
        ) by {
            if e == UP_RIGHT {
                assert(order@[0] == e);
            } else if e == DOWN_RIGHT {
                assert(order@[1] == e);
            } else if e == DOWN_LEFT {
                assert(order@[2] == e);
            } else if e == UP_LEFT {
                assert(order@[3] == e);
            } else if e == UP {
                assert(order@[4] == e);
            } else if e == RIGHT {
                assert(order@[5] == e);
            } else if e == DOWN {
                assert(order@[6] == e);
            } else {
                assert(order@[7] == e);
            }
        }
    }
    best
}

/// The direction pointing back where `d` points from.
spec fn rev_dir(d: u8) -> u8 {
    if d < 4 {
        (d + 4) as u8
    } else {
        (d - 4) as u8
    }
}

proof fn lemma_rev_dir(c: (int, int), d: u8)
    requires
        d < TARGET,
    ensures
        rev_dir(d) < TARGET,
        nbr(nbr(c, d), rev_dir(d)) == c,
{
    assert(dir_dx(rev_dir(d)) == -dir_dx(d) && dir_dy(rev_dir(d)) == -dir_dy(d)) by {
        if d == UP {
        } else if d == UP_RIGHT {
        } else if d == RIGHT {
        } else if d == DOWN_RIGHT {
        } else if d == DOWN {
        } else if d == DOWN_LEFT {
        } else if d == LEFT {
        } else {
            assert(d == UP_LEFT);
        }
    }
}

/// The cell at queue slot `i`, as a pair of mathematical integers.
spec fn qc(q: Seq<(usize, usize)>, i: int) -> (int, int) {
    (q[i].0 as int, q[i].1 as int)
}

/// Whether a cell sits somewhere in the queue.
spec fn in_queue(q: Seq<(usize, usize)>, c: (int, int)) -> bool {
    exists|i: int| 0 <= i < q.len() && #[trigger] qc(q, i) == c
}

/// Whether some in-bounds neighbour of `c` is seen with a strictly lower
/// cost than `c` itself.
spec fn has_cheaper_neighbor(
    n: int,
    seen: Vec<Vec<bool>>,
    costs: Vec<Vec<u32>>,
    c: (int, int),
) -> bool {
    exists|d: u8|
        #![trigger nbr(c, d)]
        d < TARGET && in_bounds(n, nbr(c, d)) && gat(seen, nbr(c, d)) && gat(costs, nbr(c, d))
            < gat(costs, c)
}

/// The seen flags mark exactly the blocked cells and the queued cells.
/// Opaque: its existential witnesses would otherwise feed the solver new
/// queue slots without end.
#[verifier::opaque]
spec fn seen_iff_queued(
    n: int,
    blocked: Vec<Vec<bool>>,
    seen: Vec<Vec<bool>>,
    queue: Vec<(usize, usize)>,
) -> bool {
    forall|x: int, y: int|
        in_bounds(n, (x, y)) ==> (#[trigger] gat(seen, (x, y)) <==> gat(blocked, (x, y))
            || in_queue(queue@, (x, y)))
}

/// The wavefront invariant.  The queue lists, in visit order, every cell
/// the wavefront has reached; costs are assigned exactly once, grow by at
/// most two per slot, and every queued cell after the target knows a seen
/// neighbour of strictly lower cost.
spec fn bfs_inv(
    n: int,
    t: (int, int),
    blocked: Vec<Vec<bool>>,
    seen: Vec<Vec<bool>>,
    costs: Vec<Vec<u32>>,
    queue: Vec<(usize, usize)>,
) -> bool {
    let q = queue@;
    &&& 1 <= n <= MAX_SIDE as int
    &&& n * n <= 0x1000_0000
    &&& dims(blocked, n)
    &&& dims(seen, n)
    &&& dims(costs, n)
    &&& in_bounds(n, t)
    &&& !gat(blocked, t)
    &&& gat(costs, t) == 0
    &&& q.len() >= 1
    &&& qc(q, 0) == t
    &&& q.len() <= n * n
    &&& (forall|i: int|
        0 <= i < q.len() ==> in_bounds(n, #[trigger] qc(q, i)) && gat(seen, qc(q, i)) && !gat(
            blocked,
            qc(q, i),
        ))
    &&& (forall|i: int, j: int| 0 <= i < j < q.len() ==> qc(q, i) != qc(q, j))
    &&& (forall|i: int| 0 <= i < q.len() ==> gat(costs, #[trigger] qc(q, i)) as int <= 2 * i)
    &&& (forall|i: int|
        1 <= i < q.len() ==> has_cheaper_neighbor(n, seen, costs, #[trigger] qc(q, i)))
    &&& seen_iff_queued(n, blocked, seen, queue)
    &&& (forall|x: int, y: int|
        in_bounds(n, (x, y)) && #[trigger] gat(blocked, (x, y)) ==> gat(seen, (x, y)) && gat(
            costs,
            (x, y),
        ) == u32::MAX)
    &&& (forall|x: int, y: int|
        in_bounds(n, (x, y)) && #[trigger] gat(costs, (x, y)) == u32::MAX ==> gat(
            blocked,
            (x, y),
        ))
    &&& (forall|x: int, y: int|
        in_bounds(n, (x, y)) && #[trigger] gat(seen, (x, y)) && !gat(blocked, (x, y)) && (x, y)
            != t ==> 1 <= gat(costs, (x, y)))
    &&& (forall|x: int, y: int|
        in_bounds(n, (x, y)) && !(#[trigger] gat(seen, (x, y))) ==> gat(costs, (x, y)) == 0)
}

/// Expand one neighbour of the queue cell at slot `head`: the first visit
/// marks it seen, assigns its cost and appends it to the queue.
fn visit_neighbor(
    n: usize,
    t: Ghost<(int, int)>,
    blocked: &Vec<Vec<bool>>,
    seen: &mut Vec<Vec<bool>>,
    costs: &mut Vec<Vec<u32>>,
    queue: &mut Vec<(usize, usize)>,
    head: Ghost<int>,
    x: usize,
    y: usize,
    d: u8,
    add: u32,
)
    requires
        bfs_inv(n as int, t@, *blocked, *old(seen), *old(costs), *old(queue)),
        0 <= head@ < old(queue)@.len(),
        qc(old(queue)@, head@) == (x as int, y as int),
        d < TARGET,
        1 <= add <= 2,
    ensures
        bfs_inv(n as int, t@, *blocked, *final(seen), *final(costs), *final(queue)),
        old(queue)@.is_prefix_of(final(queue)@),
        final(queue)@.len() <= old(queue)@.len() + 1,
        forall|x2: int, y2: int|
            in_bounds(n as int, (x2, y2)) && (x2, y2) != nbr((x as int, y as int), d)
                ==> #[trigger] gat(*final(seen), (x2, y2)) == gat(*old(seen), (x2, y2)) && gat(
                *final(costs),
                (x2, y2),
            ) == gat(*old(costs), (x2, y2)),
        forall|x2: int, y2: int|
            in_bounds(n as int, (x2, y2)) && #[trigger] gat(*old(seen), (x2, y2)) ==> gat(
                *final(seen),
                (x2, y2),
            ) && gat(*final(costs), (x2, y2)) == gat(*old(costs), (x2, y2)),
        in_bounds(n as int, nbr((x as int, y as int), d)) ==> gat(
            *final(seen),
            nbr((x as int, y as int), d),
        ),
{
    let ghost c = (x as int, y as int);
    let ghost p_spec = nbr(c, d);
    proof {
        reveal(seen_iff_queued);
        assert(in_bounds(n as int, c) && gat(*seen, c) && !gat(*blocked, c));
        assert(gat(*costs, c) as int <= 2 * head@);
        assert(costs@.len() == n as int);
        assert(costs@[x as int]@.len() == n as int);
    }
    let cost_c = costs[x][y];
    match neighbor(n, x, y, d) {
        Some(p) => {
            proof {
                assert((p.0 as int, p.1 as int) == p_spec);
            }
            if !seen[p.0][p.1] {
                let ghost q0 = queue@;
                let ghost seen0 = *seen;
                let ghost costs0 = *costs;
                set_grid(seen, p.0, p.1, true);
                set_grid(costs, p.0, p.1, cost_c + add);
                queue.push((p.0, p.1));
                proof {
                    let q1 = queue@;
                    let len0 = q0.len() as int;
                    assert(q1 == q0.push((p.0, p.1)));
                    assert(qc(q1, len0) == p_spec);
                    assert forall|i: int| 0 <= i < len0 implies qc(q1, i) == qc(q0, i) by {}
                    // the newly seen cell was in no queue slot before
                    assert forall|i: int| 0 <= i < len0 implies qc(q0, i) != p_spec by {
                        assert(gat(seen0, qc(q0, i)));
                    }
                    // frame: every other cell keeps its seen flag and cost
                    assert forall|x2: int, y2: int|
                        in_bounds(n as int, (x2, y2)) && (x2, y2) != p_spec implies gat(
                        *seen,
                        (x2, y2),
                    ) == gat(seen0, (x2, y2)) && gat(*costs, (x2, y2)) == gat(
                        costs0,
                        (x2, y2),
                    ) by {}
                    assert(gat(*seen, p_spec) == true);
                    assert(gat(*costs, p_spec) == cost_c + add);
                    // the fresh cost respects the per-slot growth bound
                    assert(gat(*costs, c) as int <= 2 * head@);
                    assert(head@ < len0);
                    assert(gat(*costs, qc(q1, len0)) as int <= 2 * len0);
                    // the parent is the witness neighbour for the new slot
                    lemma_rev_dir(c, d);
                    assert(nbr(qc(q1, len0), rev_dir(d)) == c);
                    assert(gat(*seen, c) && gat(*costs, c) < gat(*costs, qc(q1, len0)));
                    // the queue still lists pairwise distinct in-bounds cells
                    assert forall|i: int, j: int| 0 <= i < j < q1.len() implies qc(q1, i) != qc(
                        q1,
                        j,
                    ) by {
                        if j < len0 {
                        } else {
                            assert(qc(q1, j) == p_spec);
                        }
                    }
                    // pigeonhole: the queue cells stay pairwise distinct and
                    // in bounds, so the queue cannot outgrow the field
                    let s = Seq::new(q1.len(), |i: int| qc(q1, i));
                    assert forall|i: int| 0 <= i < s.len() implies in_bounds(
                        n as int,
                        #[trigger] s[i],
                    ) by {
                        if i < len0 {
                            assert(in_bounds(n as int, qc(q0, i)));
                        }
                    }
                    assert forall|i: int, j: int| 0 <= i < j < s.len() implies s[i] != s[j] by {
                        assert(qc(q1, i) != qc(q1, j));
                    }
                    crate::reach::lemma_distinct_cells_bound(s, n as int);
                    assert(q1.len() <= (n as int) * (n as int));
                    // seen still matches blocked-or-queued
                    assert forall|x2: int, y2: int| in_bounds(n as int, (x2, y2)) implies (gat(
                        *seen,
                        (x2, y2),
                    ) <==> gat(*blocked, (x2, y2)) || in_queue(queue@, (x2, y2))) by {
                        if (x2, y2) == p_spec {
                            assert(qc(q1, len0) == (x2, y2));
                            assert(in_queue(q1, (x2, y2)));
                        } else {
                            if in_queue(q0, (x2, y2)) {
                                let i = choose|i: int|
                                    0 <= i < q0.len() && #[trigger] qc(q0, i) == (x2, y2);
                                assert(qc(q1, i) == (x2, y2));
                                assert(in_queue(q1, (x2, y2)));
                            }
                            if in_queue(q1, (x2, y2)) {
                                let i = choose|i: int|
                                    0 <= i < q1.len() && #[trigger] qc(q1, i) == (x2, y2);
                                assert(i < len0);
                                assert(in_queue(q0, (x2, y2)));
                            }
                        }
                    }
                    // every queued slot past the target still has a cheaper
                    // seen neighbour
                    assert forall|i: int| 1 <= i < q1.len() implies has_cheaper_neighbor(
                        n as int,
                        *seen,
                        *costs,
                        qc(q1, i),
                    ) by {
                        if i < len0 {
                            assert(qc(q0, i) == qc(q1, i));
                            assert(has_cheaper_neighbor(n as int, seen0, costs0, qc(q0, i)));
                            let e = choose|e: u8|
                                #![trigger nbr(qc(q0, i), e)]
                                e < TARGET && in_bounds(n as int, nbr(qc(q0, i), e)) && gat(
                                    seen0,
                                    nbr(qc(q0, i), e),
                                ) && gat(costs0, nbr(qc(q0, i), e)) < gat(costs0, qc(q0, i));
                            assert(gat(seen0, nbr(qc(q1, i), e)));
                            assert(gat(*seen, nbr(qc(q1, i), e)));
                            assert(gat(*costs, nbr(qc(q1, i), e)) == gat(costs0, nbr(qc(q0, i), e)));
                            assert(gat(*costs, qc(q1, i)) == gat(costs0, qc(q0, i)));
                        } else {
                            let e = rev_dir(d);
                            assert(nbr(qc(q1, i), e) == c);
                            assert(e < TARGET && in_bounds(n as int, nbr(qc(q1, i), e)) && gat(
                                *seen,
                                nbr(qc(q1, i), e),
                            ) && gat(*costs, nbr(qc(q1, i), e)) < gat(*costs, qc(q1, i)));
                        }
                    }
                }
            }
        },
        None => {},
    }
}

/// Whether `path` walks from `t` to `c` through in-bounds passable cells,
/// each step moving to one of the eight neighbours.
pub open spec fn path_connects(
    n: int,
    imp: Set<(int, int)>,
    t: (int, int),
    c: (int, int),
    path: Seq<(int, int)>,
) -> bool {
    &&& path.len() >= 1
    &&& path[0] == t
    &&& path.last() == c
    &&& (forall|i: int|
        0 <= i < path.len() ==> in_bounds(n, #[trigger] path[i]) && !imp.contains(path[i]))
    &&& (forall|i: int|
        0 <= i < path.len() - 1 ==> exists|d: u8|
            #![trigger nbr(#[trigger] path[i], d)]
            d < TARGET && nbr(path[i], d) == path[i + 1])
}

/// Whether a cell can be reached from the target through passable cells.
pub open spec fn connected(n: int, imp: Set<(int, int)>, t: (int, int), c: (int, int)) -> bool {
    exists|path: Seq<(int, int)>| path_connects(n, imp, t, c, path)
}

/// Whether every in-bounds neighbour of `c` carries a seen flag.
spec fn all_neighbors_seen(n: int, seen: Vec<Vec<bool>>, c: (int, int)) -> bool {
    forall|d: u8| d < TARGET && in_bounds(n, #[trigger] nbr(c, d)) ==> gat(seen, nbr(c, d))
}

/// Whether every in-bounds neighbour of `t` is impassable, so that no
/// wavefront can leave the target.
pub open spec fn target_cut_off(n: int, imp: Set<(int, int)>, t: (int, int)) -> bool {
    forall|d: u8| d < TARGET ==> !in_bounds(n, #[trigger] nbr(t, d)) || imp.contains(nbr(t, d))
}

/// What building a field for target `t` over passability set `imp` in an
/// `n` by `n` grid returns: each error comes exactly on its inputs, and a
/// built field is well formed, belongs to `t`, and marks exactly the
/// impassable cells.
pub open spec fn build_result_spec(
    n: int,
    imp: Set<(int, int)>,
    t: (int, int),
    r: Result<FieldView, FlowError>,
) -> bool {
    &&& (r == Result::<FieldView, FlowError>::Err(FlowError::OutOfBounds) <==> !in_bounds(n, t))
    &&& (r == Result::<FieldView, FlowError>::Err(FlowError::TargetBlocked) <==> in_bounds(n, t)
        && imp.contains(t))
    &&& (r == Result::<FieldView, FlowError>::Err(FlowError::NoPathFound) <==> in_bounds(n, t)
        && !imp.contains(t) && target_cut_off(n, imp, t))
    &&& (r is Ok <==> in_bounds(n, t) && !imp.contains(t) && !target_cut_off(n, imp, t))
    &&& (r matches Ok(v) ==> {
        &&& v.wf()
        &&& v.n == n
        &&& v.target == t
        &&& (forall|x: int, y: int|
            in_bounds(n, (x, y)) ==> (v.at((x, y)) == IMPASSABLE <==> imp.contains((x, y))))
        &&& (forall|c: (int, int)| connected(n, imp, t, c) ==> v.reachable(c))
    })
}

/// The ghost content of a build result: the view of a built field, or the
/// error unchanged.
pub open spec fn entry_view(e: Result<FlowField, FlowError>) -> Result<FieldView, FlowError> {
    match e {
        Ok(f) => Ok(f@),
        Err(x) => Err(x),
    }
}

/// Whether the direction stored for `c` points at an in-bounds, seen
/// neighbour of strictly lower cost.
spec fn assigned_ok(
    n: int,
    field: Vec<Vec<u8>>,
    seen: Vec<Vec<bool>>,
    costs: Vec<Vec<u32>>,
    c: (int, int),
) -> bool {
    let d = gat(field, c);
    &&& d < TARGET
    &&& in_bounds(n, nbr(c, d))
    &&& gat(seen, nbr(c, d))
    &&& gat(costs, nbr(c, d)) < gat(costs, c)
}

/// Bridge between a rectangular vector table and its sequence view.
proof fn lemma_grid_view_at<T>(g: Vec<Vec<T>>, n: int)
    requires
        dims(g, n),
    ensures
        grid_view(g).len() == n,
        forall|x: int| 0 <= x < n ==> (#[trigger] grid_view(g)[x]).len() == n,
        forall|x: int, y: int|
            in_bounds(n, (x, y)) ==> #[trigger] grid_view(g)[x][y] == gat(g, (x, y)),
{
    assert forall|x: int| 0 <= x < n implies (#[trigger] grid_view(g)[x]).len() == n by {
        assert(grid_view(g)[x] == g@[x]@);
    }
    assert forall|x: int, y: int| in_bounds(n, (x, y)) implies #[trigger] grid_view(g)[x][y]
        == gat(g, (x, y)) by {
        assert(grid_view(g)[x] == g@[x]@);
    }
}

/// Mark every in-bounds cell of the passability list in a fresh table.
fn blocked_grid(n: usize, impassable: &Vec<GridCell>) -> (g: Vec<Vec<bool>>)
    requires
        n <= MAX_SIDE,
    ensures
        dims(g, n as int),
        forall|x: int, y: int|
            in_bounds(n as int, (x, y)) ==> (#[trigger] gat(g, (x, y)) == cell_set(
                impassable@,
            ).contains((x, y))),
{
    let mut g = make_grid(n, false);
    let mut i: usize = 0;
    while i < impassable.len()
        invariant
            n <= MAX_SIDE,
            dims(g, n as int),
            i <= impassable@.len(),
            forall|x: int, y: int|
                in_bounds(n as int, (x, y)) ==> (#[trigger] gat(g, (x, y)) <==> exists|j: int|
                    0 <= j < i && impassable@[j]@ == (x, y)),
        decreases impassable@.len() - i,
    {
        let c = impassable[i];
        let ghost g0 = g;
        if (c.x as usize) < n && (c.y as usize) < n {
            set_grid(&mut g, c.x as usize, c.y as usize, true);
        }
        proof {
            assert forall|x: int, y: int| in_bounds(n as int, (x, y)) implies (#[trigger] gat(
                g,
                (x, y),
            ) <==> exists|j: int| 0 <= j < i + 1 && impassable@[j]@ == (x, y)) by {
                assert(gat(g0, (x, y)) <==> exists|j: int|
                    0 <= j < i && impassable@[j]@ == (x, y));
                if gat(g, (x, y)) {
                    if (x, y) == impassable@[i as int]@ {
                        assert(impassable@[i as int]@ == (x, y));
                    } else {
                        assert(gat(g0, (x, y)));
                        let j = choose|j: int| 0 <= j < i && impassable@[j]@ == (x, y);
                        assert(impassable@[j]@ == (x, y));
                    }
                } else {
                    if exists|j: int| 0 <= j < i + 1 && impassable@[j]@ == (x, y) {
                        let j = choose|j: int| 0 <= j < i + 1 && impassable@[j]@ == (x, y);
                        if j < i {
                            assert(gat(g0, (x, y)));
                            assert(gat(g, (x, y)));
                        } else {
                            assert(impassable@[i as int]@ == (x, y));
                            assert(in_bounds(n as int, impassable@[i as int]@));
                            assert(gat(g, (x, y)));
                        }
                    }
                }
            }
        }
        i = i + 1;
    }
    proof {
        assert forall|x: int, y: int| in_bounds(n as int, (x, y)) implies (#[trigger] gat(
            g,
            (x, y),
        ) == cell_set(impassable@).contains((x, y))) by {
            if gat(g, (x, y)) {
                let j = choose|j: int| 0 <= j < impassable@.len() && impassable@[j]@ == (x, y);
                assert(cell_set(impassable@).contains((x, y)));
            }
            if cell_set(impassable@).contains((x, y)) {
                let j = choose|j: int|
                    0 <= j < impassable@.len() && #[trigger] impassable@[j]@ == (x, y);
                assert(exists|j2: int| 0 <= j2 < impassable@.len() && impassable@[j2]@ == (x, y));
            }
        }
    }
    g
}

/// Seed the seen flags and the cost table from the blocked cells: every
/// blocked cell counts as visited with the sentinel cost, everything else
/// is unvisited at cost zero.
fn seed_from_blocked(n: usize, blocked: &Vec<Vec<bool>>) -> (r: (Vec<Vec<bool>>, Vec<Vec<u32>>))
    requires
        n <= MAX_SIDE,
        dims(*blocked, n as int),
    ensures
        dims(r.0, n as int),
        dims(r.1, n as int),
        forall|x: int, y: int|
            in_bounds(n as int, (x, y)) ==> #[trigger] gat(r.0, (x, y)) == gat(
                *blocked,
                (x, y),
            ),
        forall|x: int, y: int|
            in_bounds(n as int, (x, y)) ==> #[trigger] gat(r.1, (x, y)) == if gat(
                *blocked,
                (x, y),
            ) {
                u32::MAX
            } else {
                0u32
            },
{
    let mut seen: Vec<Vec<bool>> = Vec::new();
    let mut costs: Vec<Vec<u32>> = Vec::new();
    let mut x: usize = 0;
    while x < n
        invariant
            n <= MAX_SIDE,
            dims(*blocked, n as int),
            x <= n,
            seen@.len() == x,
            costs@.len() == x,
            forall|i: int| 0 <= i < x ==> (#[trigger] seen@[i])@.len() == n,
            forall|i: int| 0 <= i < x ==> (#[trigger] costs@[i])@.len() == n,
            forall|i: int, j: int|
                0 <= i < x && 0 <= j < n ==> #[trigger] seen@[i]@[j] == blocked@[i]@[j],
            forall|i: int, j: int|
                0 <= i < x && 0 <= j < n ==> #[trigger] costs@[i]@[j] == if blocked@[i]@[j] {
                    u32::MAX
                } else {
                    0u32
                },
        decreases n - x,
    {
        let mut srow: Vec<bool> = Vec::new();
        let mut crow: Vec<u32> = Vec::new();
        let mut y: usize = 0;
        while y < n
            invariant
                n <= MAX_SIDE,
                dims(*blocked, n as int),
                x < n,
                y <= n,
                srow@.len() == y,
                crow@.len() == y,
                forall|j: int| 0 <= j < y ==> #[trigger] srow@[j] == blocked@[x as int]@[j],
                forall|j: int|
                    0 <= j < y ==> #[trigger] crow@[j] == if blocked@[x as int]@[j] {
                        u32::MAX
                    } else {
                        0u32
                    },
            decreases n - y,
        {
            let b = blocked[x][y];
            srow.push(b);
            crow.push(if b {
                u32::MAX
            } else {
                0
            });
            y = y + 1;
        }
        seen.push(srow);
        costs.push(crow);
        x = x + 1;
    }
    (seen, costs)
}

/// Expand four neighbours of the queue cell at slot `head`: the four
/// orthogonal ones at cost one when `diagonals` is false, the four diagonal
/// ones at cost two when it is true.
#[verifier::rlimit(100)]
fn expand_four(
    n: usize,
    tg: Ghost<(int, int)>,
    blocked: &Vec<Vec<bool>>,
    seen: &mut Vec<Vec<bool>>,
    costs: &mut Vec<Vec<u32>>,
    queue: &mut Vec<(usize, usize)>,
    head: usize,
    x: usize,
    y: usize,
    diagonals: bool,
)
    requires
        bfs_inv(n as int, tg@, *blocked, *old(seen), *old(costs), *old(queue)),
        head < old(queue)@.len(),
        qc(old(queue)@, head as int) == (x as int, y as int),
    ensures
        bfs_inv(n as int, tg@, *blocked, *final(seen), *final(costs), *final(queue)),
        old(queue)@.is_prefix_of(final(queue)@),
        forall|x2: int, y2: int|
            in_bounds(n as int, (x2, y2)) && #[trigger] gat(*old(seen), (x2, y2)) ==> gat(
                *final(seen),
                (x2, y2),
            ) && gat(*final(costs), (x2, y2)) == gat(*old(costs), (x2, y2)),
        forall|e: u8|
            e < TARGET && (if diagonals {
                e == UP_RIGHT || e == DOWN_RIGHT || e == DOWN_LEFT || e == UP_LEFT
            } else {
                e == UP || e == RIGHT || e == DOWN || e == LEFT
            }) && in_bounds(n as int, #[trigger] nbr((x as int, y as int), e)) ==> gat(
                *final(seen),
                nbr((x as int, y as int), e),
            ),
{
    let ghost c = (x as int, y as int);
    let add: u32 = if diagonals {
        2
    } else {
        1
    };
    let d0: u8 = if diagonals {
        UP_RIGHT
    } else {
        UP
    };
    let d1: u8 = if diagonals {
        DOWN_RIGHT
    } else {
        RIGHT
    };
    let d2: u8 = if diagonals {
        DOWN_LEFT
    } else {
        DOWN
    };
    let d3: u8 = if diagonals {
        UP_LEFT
    } else {
        LEFT
    };
    visit_neighbor(n, tg, blocked, seen, costs, queue, Ghost(head as int), x, y, d0, add);
    proof {
        assert(qc(queue@, head as int) == c);
    }
    visit_neighbor(n, tg, blocked, seen, costs, queue, Ghost(head as int), x, y, d1, add);
    proof {
        assert(qc(queue@, head as int) == c);
    }
    visit_neighbor(n, tg, blocked, seen, costs, queue, Ghost(head as int), x, y, d2, add);
    proof {
        assert(qc(queue@, head as int) == c);
    }
    visit_neighbor(n, tg, blocked, seen, costs, queue, Ghost(head as int), x, y, d3, add);
}

/// Expand all eight neighbours of the queue cell at slot `head`:
/// orthogonals first at cost one, then diagonals at cost two.
fn expand_neighbors(
    n: usize,
    tg: Ghost<(int, int)>,
    blocked: &Vec<Vec<bool>>,
    seen: &mut Vec<Vec<bool>>,
    costs: &mut Vec<Vec<u32>>,
    queue: &mut Vec<(usize, usize)>,
    head: usize,
    x: usize,
    y: usize,
)
    requires
        bfs_inv(n as int, tg@, *blocked, *old(seen), *old(costs), *old(queue)),
        head < old(queue)@.len(),
        qc(old(queue)@, head as int) == (x as int, y as int),
    ensures
        bfs_inv(n as int, tg@, *blocked, *final(seen), *final(costs), *final(queue)),
        old(queue)@.is_prefix_of(final(queue)@),
        forall|x2: int, y2: int|
            in_bounds(n as int, (x2, y2)) && #[trigger] gat(*old(seen), (x2, y2)) ==> gat(
                *final(seen),
                (x2, y2),
            ) && gat(*final(costs), (x2, y2)) == gat(*old(costs), (x2, y2)),
        forall|e: u8|
            e < TARGET && in_bounds(n as int, #[trigger] nbr((x as int, y as int), e)) ==> gat(
                *final(seen),
                nbr((x as int, y as int), e),
            ),
{
    let ghost c = (x as int, y as int);
    expand_four(n, tg, blocked, seen, costs, queue, head, x, y, false);
    proof {
        assert(qc(queue@, head as int) == c);
    }
    expand_four(n, tg, blocked, seen, costs, queue, head, x, y, true);
    proof {
        assert forall|e: u8|
            e < TARGET && in_bounds(n as int, nbr(c, e)) implies gat(*seen, nbr(c, e)) by {
            if e == UP || e == RIGHT || e == DOWN || e == LEFT {
            } else {
                assert(e == UP_RIGHT || e == DOWN_RIGHT || e == DOWN_LEFT || e == UP_LEFT);
            }
        }
    }
}

/// Once a queue cell's direction is stored, later wavefront work keeps it
/// valid: newly seen cells never change the costs or flags of seen ones.
proof fn lemma_preserve_assignments(
    n: int,
    t: (int, int),
    blocked: Vec<Vec<bool>>,
    field_in: Vec<Vec<u8>>,
    seen_in: Vec<Vec<bool>>,
    costs_in: Vec<Vec<u32>>,
    queue_in: Vec<(usize, usize)>,
    field: Vec<Vec<u8>>,
    seen: Vec<Vec<bool>>,
    costs: Vec<Vec<u32>>,
    queue: Vec<(usize, usize)>,
    head: int,
    c: (int, int),
    dir: u8,
)
    requires
        bfs_inv(n, t, blocked, seen_in, costs_in, queue_in),
        0 <= head < queue_in@.len(),
        qc(queue_in@, head) == c,
        queue_in@.is_prefix_of(queue@),
        forall|i: int|
            0 <= i < head && #[trigger] qc(queue_in@, i) != t ==> assigned_ok(
                n,
                field_in,
                seen_in,
                costs_in,
                qc(queue_in@, i),
            ),
        forall|x: int, y: int|
            in_bounds(n, (x, y)) && #[trigger] gat(seen_in, (x, y)) ==> gat(seen, (x, y)) && gat(
                costs,
                (x, y),
            ) == gat(costs_in, (x, y)),
        gat(field, c) == dir,
        forall|x: int, y: int|
            in_bounds(n, (x, y)) && (x, y) != c ==> #[trigger] gat(field, (x, y)) == gat(
                field_in,
                (x, y),
            ),
        c != t ==> assigned_ok(n, field, seen, costs, c),
    ensures
        forall|i: int|
            0 <= i < head + 1 && #[trigger] qc(queue@, i) != t ==> assigned_ok(
                n,
                field,
                seen,
                costs,
                qc(queue@, i),
            ),
{
    assert forall|i: int| 0 <= i < head + 1 && #[trigger] qc(queue@, i) != t implies assigned_ok(
        n,
        field,
        seen,
        costs,
        qc(queue@, i),
    ) by {
        let cc = qc(queue@, i);
        assert(qc(queue_in@, i) == cc);
        if i < head {
            assert(in_bounds(n, cc) && gat(seen_in, cc));
            assert(assigned_ok(n, field_in, seen_in, costs_in, cc));
            let dd = gat(field_in, cc);
            assert(gat(seen_in, nbr(cc, dd)));
            assert(gat(costs, cc) == gat(costs_in, cc));
            assert(gat(costs, nbr(cc, dd)) == gat(costs_in, nbr(cc, dd)));
            assert(gat(seen, nbr(cc, dd)));
            assert(cc != c);
            assert(gat(field, cc) == dd);
        } else {
            assert(cc == c);
        }
    }
}

/// When every in-bounds neighbour of the expanded cell carries the
/// sentinel cost, that cell must be the target and the target is cut off.
proof fn lemma_no_direction(
    n: int,
    t: (int, int),
    imp: Set<(int, int)>,
    blocked: Vec<Vec<bool>>,
    seen: Vec<Vec<bool>>,
    costs: Vec<Vec<u32>>,
    queue: Vec<(usize, usize)>,
    head: int,
    c: (int, int),
)
    requires
        bfs_inv(n, t, blocked, seen, costs, queue),
        0 <= head < queue@.len(),
        qc(queue@, head) == c,
        forall|x: int, y: int|
            in_bounds(n, (x, y)) ==> #[trigger] gat(blocked, (x, y)) == imp.contains((x, y)),
        forall|e: u8|
            e < TARGET && in_bounds(n, #[trigger] nbr(c, e)) ==> gat(costs, nbr(c, e)) == u32::MAX,
    ensures
        c == t,
        target_cut_off(n, imp, t),
{
    if head > 0 {
        assert(has_cheaper_neighbor(n, seen, costs, c));
        let e = choose|e: u8|
            #![trigger nbr(c, e)]
            e < TARGET && in_bounds(n, nbr(c, e)) && gat(seen, nbr(c, e)) && gat(costs, nbr(c, e))
                < gat(costs, c);
        assert(gat(costs, nbr(c, e)) == u32::MAX);
        assert(false);
    }
    assert(c == t);
    assert forall|e: u8| e < TARGET implies !in_bounds(n, #[trigger] nbr(t, e)) || imp.contains(
        nbr(t, e),
    ) by {
        if in_bounds(n, nbr(t, e)) {
            assert(gat(costs, nbr(t, e)) == u32::MAX);
            assert(gat(blocked, nbr(t, e)));
        }
    }
}

/// A non-target cell expanded by the wavefront always has a strictly
/// cheaper neighbour, so the minimal-cost neighbour the scan picked
/// descends.
proof fn lemma_assignment_descends(
    n: int,
    t: (int, int),
    blocked: Vec<Vec<bool>>,
    seen: Vec<Vec<bool>>,
    costs: Vec<Vec<u32>>,
    queue: Vec<(usize, usize)>,
    head: int,
    c: (int, int),
    dir: u8,
)
    requires
        bfs_inv(n, t, blocked, seen, costs, queue),
        0 <= head < queue@.len(),
        qc(queue@, head) == c,
        c != t,
        dir < TARGET,
        in_bounds(n, nbr(c, dir)),
        forall|e: u8|
            e < TARGET && in_bounds(n, #[trigger] nbr(c, e)) ==> gat(costs, nbr(c, dir)) <= gat(
                costs,
                nbr(c, e),
            ),
    ensures
        gat(costs, nbr(c, dir)) < gat(costs, c),
{
    assert(head != 0);
    assert(has_cheaper_neighbor(n, seen, costs, c));
    let e = choose|e: u8|
        #![trigger nbr(c, e)]
        e < TARGET && in_bounds(n, nbr(c, e)) && gat(seen, nbr(c, e)) && gat(costs, nbr(c, e))
            < gat(costs, c);
    assert(gat(costs, nbr(c, dir)) <= gat(costs, nbr(c, e)));
}

/// A seen passable cell sits somewhere in the queue.
proof fn lemma_seen_is_queued(
    n: int,
    blocked: Vec<Vec<bool>>,
    seen: Vec<Vec<bool>>,
    queue: Vec<(usize, usize)>,
    c: (int, int),
)
    requires
        seen_iff_queued(n, blocked, seen, queue),
        in_bounds(n, c),
        gat(seen, c),
        !gat(blocked, c),
    ensures
        in_queue(queue@, c),
{
    reveal(seen_iff_queued);
}

/// Once the wavefront has drained its queue, every cell on a passable path
/// from the target has been seen: each queued cell expanded all its
/// neighbours, so a passable path can never leave the seen region.
proof fn lemma_wavefront_complete(
    n: int,
    t: (int, int),
    imp: Set<(int, int)>,
    blocked: Vec<Vec<bool>>,
    seen: Vec<Vec<bool>>,
    queue: Vec<(usize, usize)>,
    path: Seq<(int, int)>,
    k: int,
)
    requires
        seen_iff_queued(n, blocked, seen, queue),
        gat(seen, t),
        forall|x: int, y: int|
            in_bounds(n, (x, y)) ==> #[trigger] gat(blocked, (x, y)) == imp.contains((x, y)),
        forall|i: int|
            0 <= i < queue@.len() ==> all_neighbors_seen(n, seen, #[trigger] qc(queue@, i)),
        path_connects(n, imp, t, path.last(), path),
        0 <= k < path.len(),
    ensures
        gat(seen, path[k]),
    decreases k,
{
    if k == 0 {
        assert(path[0] == t);
    } else {
        lemma_wavefront_complete(n, t, imp, blocked, seen, queue, path, k - 1);
        let prev = path[k - 1];
        assert(in_bounds(n, prev) && !imp.contains(prev));
        assert(!gat(blocked, prev));
        lemma_seen_is_queued(n, blocked, seen, queue, prev);
        let i = choose|i: int| 0 <= i < queue@.len() && #[trigger] qc(queue@, i) == prev;
        assert(all_neighbors_seen(n, seen, prev));
        let d = choose|d: u8|
            #![trigger nbr(path[k - 1], d)]
            d < TARGET && nbr(path[k - 1], d) == path[k];
        assert(nbr(prev, d) == path[k]);
        assert(in_bounds(n, path[k]));
        assert(gat(seen, nbr(prev, d)));
    }
}

/// One wavefront step: expand the queue cell at slot `head` into its eight
/// neighbours and store its direction; reports `NoPathFound` when no
/// neighbour has a known cost, which only the cut-off target can hit.
#[verifier::rlimit(100)]
fn process_cell(
    n: usize,
    tg: Ghost<(int, int)>,
    impg: Ghost<Set<(int, int)>>,
    blocked: &Vec<Vec<bool>>,
    seen: &mut Vec<Vec<bool>>,
    costs: &mut Vec<Vec<u32>>,
    queue: &mut Vec<(usize, usize)>,
    field: &mut Vec<Vec<u8>>,
    head: usize,
) -> (r: Option<FlowError>)
    requires
        bfs_inv(n as int, tg@, *blocked, *old(seen), *old(costs), *old(queue)),
        head < old(queue)@.len(),
        dims(*old(field), n as int),
        forall|x: int, y: int|
            in_bounds(n as int, (x, y)) ==> #[trigger] gat(*old(field), (x, y)) < TARGET,
        forall|x: int, y: int|
            in_bounds(n as int, (x, y)) ==> #[trigger] gat(*blocked, (x, y)) == impg@.contains(
                (x, y),
            ),
        forall|i: int|
            0 <= i < head && #[trigger] qc(old(queue)@, i) != tg@ ==> assigned_ok(
                n as int,
                *old(field),
                *old(seen),
                *old(costs),
                qc(old(queue)@, i),
            ),
        forall|i: int|
            0 <= i < head ==> all_neighbors_seen(n as int, *old(seen), #[trigger] qc(old(queue)@, i)),
        head >= 1 ==> !target_cut_off(n as int, impg@, tg@),
    ensures
        r is None ==> ({
            &&& bfs_inv(n as int, tg@, *blocked, *final(seen), *final(costs), *final(queue))
            &&& old(queue)@.is_prefix_of(final(queue)@)
            &&& dims(*final(field), n as int)
            &&& (forall|x: int, y: int|
                in_bounds(n as int, (x, y)) ==> #[trigger] gat(*final(field), (x, y)) < TARGET)
            &&& (forall|i: int|
                0 <= i < head + 1 && #[trigger] qc(final(queue)@, i) != tg@ ==> assigned_ok(
                    n as int,
                    *final(field),
                    *final(seen),
                    *final(costs),
                    qc(final(queue)@, i),
                ))
            &&& (forall|i: int|
                0 <= i < head + 1 ==> all_neighbors_seen(
                    n as int,
                    *final(seen),
                    #[trigger] qc(final(queue)@, i),
                ))
            &&& !target_cut_off(n as int, impg@, tg@)
        }),
        r matches Some(e) ==> e == FlowError::NoPathFound && target_cut_off(n as int, impg@, tg@),
{
    let ghost t = tg@;
    let ghost imp = impg@;
    let (x, y) = queue[head];
    let ghost c = (x as int, y as int);
    let ghost seen_in = *seen;
    let ghost costs_in = *costs;
    let ghost queue_in = *queue;
    proof {
        assert(qc(queue@, head as int) == c);
        assert(in_bounds(n as int, c) && gat(*seen, c) && !gat(*blocked, c));
    }
    expand_neighbors(n, tg, blocked, seen, costs, queue, head, x, y);
    proof {
        assert(qc(queue@, head as int) == c);
    }
    let pick = pick_direction(costs, n, x, y);
    match pick {
        None => {
            proof {
                lemma_no_direction(
                    n as int,
                    t,
                    imp,
                    *blocked,
                    *seen,
                    *costs,
                    *queue,
                    head as int,
                    c,
                );
            }
            return Some(FlowError::NoPathFound);
        },
        Some(dir) => {
            let ghost field_in = *field;
            proof {
                assert(field@.len() == n as int);
                assert(field@[x as int]@.len() == n as int);
                if c != t {
                    lemma_assignment_descends(
                        n as int,
                        t,
                        *blocked,
                        *seen,
                        *costs,
                        *queue,
                        head as int,
                        c,
                        dir,
                    );
                } else {
                    // the target found a passable neighbour, so it is not
                    // cut off
                    assert(gat(*costs, nbr(t, dir)) < u32::MAX);
                    assert(!gat(*blocked, nbr(t, dir)));
                    assert(!imp.contains(nbr(t, dir)));
                    assert(!target_cut_off(n as int, imp, t));
                }
            }
            set_grid(field, x, y, dir);
            proof {
                assert(gat(*field, c) == dir);
                assert forall|x2: int, y2: int|
                    in_bounds(n as int, (x2, y2)) implies #[trigger] gat(*field, (x2, y2))
                    < TARGET by {
                    if (x2, y2) != c {
                        assert(gat(*field, (x2, y2)) == gat(field_in, (x2, y2)));
                    }
                }
                if c != t {
                    assert(assigned_ok(n as int, *field, *seen, *costs, c));
                }
                lemma_preserve_assignments(
                    n as int,
                    t,
                    *blocked,
                    field_in,
                    seen_in,
                    costs_in,
                    queue_in,
                    *field,
                    *seen,
                    *costs,
                    *queue,
                    head as int,
                    c,
                    dir,
                );
                assert forall|i: int|
                    0 <= i < head + 1 implies all_neighbors_seen(
                    n as int,
                    *seen,
                    #[trigger] qc(queue@, i),
                ) by {
                    let cc = qc(queue@, i);
                    assert(qc(queue_in@, i) == cc);
                    if i < head {
                        assert(all_neighbors_seen(n as int, seen_in, cc));
                        assert forall|e: u8|
                            e < TARGET && in_bounds(n as int, nbr(cc, e)) implies gat(
                            *seen,
                            nbr(cc, e),
                        ) by {
                            assert(gat(seen_in, nbr(cc, e)));
                            assert(in_bounds(n as int, nbr(cc, e)));
                        }
                    } else {
                        assert(cc == c);
                    }
                }
            }
        },
    }
    None
}

/// A dense `n` by `n` table of direction codes, built for exactly one
/// target cell and immutable once built.
pub struct FlowField {
    n: usize,
    target: GridCell,
    data: Vec<Vec<u8>>,
    cost: Ghost<Seq<Seq<u32>>>,
}

/// The sequence-of-sequences view of a rectangular vector table.
pub open spec fn grid_view<T>(g: Vec<Vec<T>>) -> Seq<Seq<T>> {
    g@.map_values(|row: Vec<T>| row@)
}

impl View for FlowField {
    type V = FieldView;

    closed spec fn view(&self) -> FieldView {
        FieldView {
            n: self.n as int,
            target: self.target@,
            data: grid_view(self.data),
            cost: self.cost@,
        }
    }
}

/// Deep copy of a direction table.
fn copy_grid(g: &Vec<Vec<u8>>) -> (r: Vec<Vec<u8>>)
    ensures
        r@.len() == g@.len(),
        forall|i: int| 0 <= i < g@.len() ==> #[trigger] r@[i]@ == g@[i]@,
{
    let mut r: Vec<Vec<u8>> = Vec::new();
    let mut i: usize = 0;
    while i < g.len()
        invariant
            i <= g@.len(),
            r@.len() == i,
            forall|k: int| 0 <= k < i ==> #[trigger] r@[k]@ == g@[k]@,
        decreases g@.len() - i,
    {
        let mut row: Vec<u8> = Vec::new();
        let mut j: usize = 0;
        while j < g[i].len()
            invariant
                i < g@.len(),
                j <= g@[i as int]@.len(),
                row@ == g@[i as int]@.take(j as int),
            decreases g@[i as int]@.len() - j,
        {
            row.push(g[i][j]);
            proof {
                assert(row@ =~= g@[i as int]@.take(j + 1));
            }
            j = j + 1;
        }
        proof {
            assert(row@ =~= g@[i as int]@);
        }
        r.push(row);
        i = i + 1;
    }
    r
}

impl Clone for FlowField {
    /// A clone carries the same view, so it is well formed exactly when the
    /// original is.
    fn clone(&self) -> (r: Self)
        ensures
            r@ == self@,
    {
        let data = copy_grid(&self.data);
        let r = FlowField { n: self.n, target: self.target, data, cost: Ghost(self.cost@) };
        proof {
            assert(grid_view(r.data) =~~= grid_view(self.data));
            assert(r@ =~~= self@);
        }
        r
    }
}

impl FlowField {
    /// The side length of the field, in cells.
    pub fn side(&self) -> (r: usize)
        ensures
            r as int == self@.n,
    {
        self.n
    }

    /// The cell this field was built for.
    pub fn target_cell(&self) -> (r: GridCell)
        ensures
            r@ == self@.target,
    {
        self.target
    }

    /// The grid cell that contains a world position.
    pub fn world_to_grid(world_pos: &WorldPos) -> (r: GridCell)
        ensures
            r@ == cell_of(*world_pos),
    {
        GridCell { x: world_pos.x / CELL_SIZE, y: world_pos.y / CELL_SIZE }
    }

    /// Sample the field at a world position: the decoded movement vector of
    /// the direction code stored in the containing cell.  The containing
    /// cell must lie within the field; the steering updater checks that and
    /// falls back to the straight line otherwise.
    pub fn get(&self, world_translation: &WorldPos) -> (r: FlowVec)
        requires
            self@.wf(),
            in_bounds(self@.n, cell_of(*world_translation)),
        ensures
            (r.x as int, r.y as int) == decode_pair(self@.at(cell_of(*world_translation))),
    {
        let grid_pos = Self::world_to_grid(world_translation);
        proof {
            assert(self.data@.len() == self@.data.len());
            assert(self.data@[grid_pos@.0]@ == self@.data[grid_pos@.0]);
            assert(self@.cell_ok(grid_pos@.0, grid_pos@.1));
        }
        let code = self.data[grid_pos.x as usize][grid_pos.y as usize];
        match u8_to_vector(code) {
            Some(v) => v,
            None => {
                proof {
                    assert(false);
                }
                FlowVec { x: 0, y: 0 }
            },
        }
    }

    /// Build one flow field for `target` over the passability snapshot
    /// `impassable` in an `n` by `n` grid.
    ///
    /// The wavefront starts at the target with cost zero and expands in
    /// visit order, charging one for an orthogonal step and two for a
    /// diagonal one; each cell is assigned a cost on its first visit.  Each
    /// visited cell then points at a minimal-cost neighbour, diagonals
    /// scanned first.  At the end every impassable cell is stamped
    /// `IMPASSABLE` and the target `TARGET`.
    pub fn build_flow_field(
        target: &GridCell,
        impassable: &Vec<GridCell>,
        n: usize,
    ) -> (r: Result<FlowField, FlowError>)
        requires
            n <= MAX_SIDE,
        ensures
            build_result_spec(n as int, cell_set(impassable@), target@, entry_view(r)),
    {
        let ghost imp = cell_set(impassable@);
        let ghost t = target@;
        let tx = target.x as usize;
        let ty = target.y as usize;
        if !(tx < n && ty < n) {
            return Err(FlowError::OutOfBounds);
        }
        let blocked = blocked_grid(n, impassable);
        proof {
            assert(blocked@.len() == n as int);
            assert(blocked@[tx as int]@.len() == n as int);
        }
        proof {
            assert(t == (tx as int, ty as int));
            assert(gat(blocked, t) == blocked@[tx as int]@[ty as int]);
        }
        if blocked[tx][ty] {
            proof {
                assert(gat(blocked, t) && cell_set(impassable@).contains(t));
            }
            return Err(FlowError::TargetBlocked);
        }
        proof {
            assert(!gat(blocked, t) && !cell_set(impassable@).contains(t));
        }
        let seeded = seed_from_blocked(n, &blocked);
        let mut seen = seeded.0;
        let mut costs = seeded.1;
        let mut field = make_grid(n, UP);
        set_grid(&mut seen, tx, ty, true);
        let mut queue: Vec<(usize, usize)> = Vec::new();
        queue.push((tx, ty));
        let mut head: usize = 0;
        proof {
            assert((n as int) * (n as int) <= 0x1000_0000) by (nonlinear_arith)
                requires
                    n <= 0x4000,
            ;
            assert(1 <= (n as int) * (n as int)) by (nonlinear_arith)
                requires
                    1 <= n,
            ;
            reveal(seen_iff_queued);
            assert(qc(queue@, 0) == t);
            assert forall|x: int, y: int| in_bounds(n as int, (x, y)) implies (#[trigger] gat(
                seen,
                (x, y),
            ) <==> gat(blocked, (x, y)) || in_queue(queue@, (x, y))) by {
                if (x, y) == t {
                    assert(qc(queue@, 0) == (x, y));
                    assert(in_queue(queue@, (x, y)));
                } else {
                    assert(gat(seeded.0, (x, y)) == gat(blocked, (x, y)));
                    assert(gat(seen, (x, y)) == gat(seeded.0, (x, y)));
                    if in_queue(queue@, (x, y)) {
                        let i = choose|i: int|
                            0 <= i < queue@.len() && #[trigger] qc(queue@, i) == (x, y);
                        assert(i == 0);
                        assert(false);
                    }
                }
            }
            assert forall|x: int, y: int|
                in_bounds(n as int, (x, y)) && !(#[trigger] gat(seen, (x, y))) implies gat(
                costs,
                (x, y),
            ) == 0 by {
                assert(gat(seeded.0, (x, y)) == gat(blocked, (x, y)));
                assert(gat(costs, (x, y)) == if gat(blocked, (x, y)) {
                    u32::MAX
                } else {
                    0u32
                });
            }
            assert forall|x: int, y: int|
                in_bounds(n as int, (x, y)) && #[trigger] gat(blocked, (x, y)) implies gat(
                seen,
                (x, y),
            ) && gat(costs, (x, y)) == u32::MAX by {
                assert(gat(seeded.0, (x, y)) == gat(blocked, (x, y)));
                assert(gat(costs, (x, y)) == u32::MAX);
            }
            assert forall|x: int, y: int|
                in_bounds(n as int, (x, y)) && #[trigger] gat(costs, (x, y)) == u32::MAX implies gat(
                blocked,
                (x, y),
            ) by {
                assert(gat(costs, (x, y)) == if gat(blocked, (x, y)) {
                    u32::MAX
                } else {
                    0u32
                });
            }
            assert(bfs_inv(n as int, t, blocked, seen, costs, queue));
        }
        while head < queue.len()
            invariant
                n <= MAX_SIDE,
                t == target@,
                imp == cell_set(impassable@),
                bfs_inv(n as int, t, blocked, seen, costs, queue),
                head <= queue@.len(),
                dims(field, n as int),
                forall|x: int, y: int|
                    in_bounds(n as int, (x, y)) ==> #[trigger] gat(field, (x, y)) < TARGET,
                forall|x: int, y: int|
                    in_bounds(n as int, (x, y)) ==> #[trigger] gat(blocked, (x, y))
                        == imp.contains((x, y)),
                forall|i: int|
                    0 <= i < head && #[trigger] qc(queue@, i) != t ==> assigned_ok(
                        n as int,
                        field,
                        seen,
                        costs,
                        qc(queue@, i),
                    ),
                forall|i: int|
                    0 <= i < head ==> all_neighbors_seen(n as int, seen, #[trigger] qc(queue@, i)),
                head >= 1 ==> !target_cut_off(n as int, imp, t),
            decreases (n as int) * (n as int) - head,
        {
            let stuck = process_cell(
                n,
                Ghost(t),
                Ghost(imp),
                &blocked,
                &mut seen,
                &mut costs,
                &mut queue,
                &mut field,
                head,
            );
            match stuck {
                Some(e) => {
                    return Err(e);
                },
                None => {},
            }
            head = head + 1;
        }
        // stamp the impassable cells, then the target
        let ghost field_bfs = field;
        let mut sx: usize = 0;
        while sx < n
            invariant
                n <= MAX_SIDE,
                dims(field, n as int),
                dims(blocked, n as int),
                sx <= n,
                forall|a: int, b: int|
                    in_bounds(n as int, (a, b)) && a < sx ==> #[trigger] gat(field, (a, b)) == if gat(
                        blocked,
                        (a, b),
                    ) {
                        IMPASSABLE
                    } else {
                        gat(field_bfs, (a, b))
                    },
                forall|a: int, b: int|
                    in_bounds(n as int, (a, b)) && a >= sx ==> #[trigger] gat(field, (a, b)) == gat(
                        field_bfs,
                        (a, b),
                    ),
            decreases n - sx,
        {
            let mut sy: usize = 0;
            while sy < n
                invariant
                    n <= MAX_SIDE,
                    dims(field, n as int),
                    dims(blocked, n as int),
                    sx < n,
                    sy <= n,
                    forall|a: int, b: int|
                        in_bounds(n as int, (a, b)) && (a < sx || (a == sx && b < sy))
                            ==> #[trigger] gat(field, (a, b)) == if gat(blocked, (a, b)) {
                            IMPASSABLE
                        } else {
                            gat(field_bfs, (a, b))
                        },
                    forall|a: int, b: int|
                        in_bounds(n as int, (a, b)) && (a > sx || (a == sx && b >= sy))
                            ==> #[trigger] gat(field, (a, b)) == gat(field_bfs, (a, b)),
                decreases n - sy,
            {
                let ghost fprev = field;
                proof {
                    assert(blocked@[sx as int]@.len() == n as int);
                    assert(field@[sx as int]@.len() == n as int);
                }
                if blocked[sx][sy] {
                    set_grid(&mut field, sx, sy, IMPASSABLE);
                }
                proof {
                    assert forall|a: int, b: int|
                        in_bounds(n as int, (a, b)) && (a, b) != ((sx as int, sy as int))
                            implies #[trigger] gat(field, (a, b)) == gat(fprev, (a, b)) by {}
                }
                sy = sy + 1;
            }
            sx = sx + 1;
        }
        let ghost field_stamped = field;
        proof {
            assert(field@[tx as int]@.len() == n as int);
        }
        set_grid(&mut field, tx, ty, TARGET);
        let f = FlowField { n, target: *target, data: field, cost: Ghost(grid_view(costs)) };
        proof {
            reveal(seen_iff_queued);
            let v = f@;
            lemma_grid_view_at(f.data, n as int);
            lemma_grid_view_at(costs, n as int);
            assert(v.n == n as int && v.target == t);
            assert forall|x2: int, y2: int| in_bounds(n as int, (x2, y2)) implies #[trigger] v.at(
                (x2, y2),
            ) == gat(f.data, (x2, y2)) && v.cost_at((x2, y2)) == gat(costs, (x2, y2)) by {
                assert(v.data == grid_view(f.data));
                assert(v.cost == grid_view(costs));
                assert(grid_view(f.data)[x2][y2] == gat(f.data, (x2, y2)));
                assert(grid_view(costs)[x2][y2] == gat(costs, (x2, y2)));
            }
            // relate the final table to the wavefront table
            let ghost field_pre = field_bfs;
            assert forall|x2: int, y2: int| in_bounds(n as int, (x2, y2)) implies #[trigger] gat(
                f.data,
                (x2, y2),
            ) == (if (x2, y2) == t {
                TARGET
            } else if gat(blocked, (x2, y2)) {
                IMPASSABLE
            } else {
                gat(field_pre, (x2, y2))
            }) by {
                assert(gat(field_stamped, (x2, y2)) == if gat(blocked, (x2, y2)) {
                    IMPASSABLE
                } else {
                    gat(field_pre, (x2, y2))
                });
                if (x2, y2) != t {
                    assert(gat(f.data, (x2, y2)) == gat(field_stamped, (x2, y2)));
                }
            }
            assert(v.at(t) == TARGET);
            assert(v.cost_at(t) == 0);
            assert forall|x2: int, y2: int| in_bounds(n as int, (x2, y2)) implies #[trigger] v.cell_ok(
                x2,
                y2,
            ) by {
                let cc = (x2, y2);
                if cc == t {
                } else if gat(blocked, cc) {
                    assert(v.at(cc) == IMPASSABLE && v.cost_at(cc) == u32::MAX);
                } else {
                    assert(v.at(cc) == gat(field_pre, cc));
                    assert(v.at(cc) < TARGET);
                    assert(gat(costs, cc) != u32::MAX);
                    if 1 <= v.cost_at(cc) {
                        // the cell was reached, so it sits in the queue and
                        // carries a checked direction
                        assert(gat(seen, cc));
                        assert(in_queue(queue@, cc));
                        let i = choose|i: int|
                            0 <= i < queue@.len() && #[trigger] qc(queue@, i) == cc;
                        assert(assigned_ok(n as int, field_pre, seen, costs, cc));
                        let dd = gat(field_pre, cc);
                        let sc = nbr(cc, dd);
                        assert(v.at(cc) == dd && v.step(cc) == sc);
                        assert(gat(costs, sc) < gat(costs, cc));
                        assert(gat(costs, sc) != u32::MAX);
                        assert(!gat(blocked, sc));
                        assert(gat(seen, sc));
                        if gat(costs, sc) == 0 {
                            assert(sc == t);
                        }
                        assert(v.cost_at(sc) == gat(costs, sc));
                    }
                }
            }
            assert(v.wf());
            assert forall|x2: int, y2: int| in_bounds(n as int, (x2, y2)) implies (v.at((x2, y2))
                == IMPASSABLE <==> imp.contains((x2, y2))) by {
                if (x2, y2) == t {
                    assert(!gat(blocked, t));
                } else if gat(blocked, (x2, y2)) {
                } else {
                    assert(v.at((x2, y2)) < TARGET);
                }
            }
            assert(!target_cut_off(n as int, imp, t));
            assert forall|c2: (int, int)| connected(n as int, imp, t, c2) implies f@.reachable(
                c2,
            ) by {
                let path = choose|path: Seq<(int, int)>| path_connects(n as int, imp, t, c2, path);
                assert(qc(queue@, 0) == t && gat(seen, t));
                lemma_wavefront_complete(
                    n as int,
                    t,
                    imp,
                    blocked,
                    seen,
                    queue,
                    path,
                    path.len() - 1,
                );
                assert(path.last() == path[path.len() - 1]);
                assert(gat(seen, c2));
                assert(in_bounds(n as int, c2) && !imp.contains(c2));
                assert(!gat(blocked, c2));
                assert(gat(costs, c2) != u32::MAX);
                assert(v.cost_at(c2) == gat(costs, c2));
                if c2 != t {
                    assert(1 <= gat(costs, c2));
                }
            }
        }
        Ok(f)
    }
}

} // verus!
