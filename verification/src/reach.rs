//! Reachability of the target along stored directions: from every cell the
//! wavefront reached, following the direction chain leads to the target
//! without ever revisiting a cell.

use vstd::prelude::*;
use vstd::seq_lib::*;
use vstd::set_lib::*;

use crate::field::{build_result_spec, connected, FieldView, FlowError};
use crate::grid::in_bounds;

verus! {

/// The flat index of a cell within a field of side length `n`.
pub open spec fn flat_index(n: int, c: (int, int)) -> int {
    c.0 * n + c.1
}

/// Flat indices of in-bounds cells are within `[0, n*n)` and distinct cells
/// have distinct flat indices.
pub proof fn lemma_flat_index(n: int, c1: (int, int), c2: (int, int))
    requires
        in_bounds(n, c1),
        in_bounds(n, c2),
    ensures
        0 <= flat_index(n, c1) < n * n,
        flat_index(n, c1) == flat_index(n, c2) ==> c1 == c2,
{
    assert(0 <= c1.0 * n + c1.1 < n * n) by (nonlinear_arith)
        requires
            0 <= c1.0 < n,
            0 <= c1.1 < n,
    ;
    assert(c1.0 * n + c1.1 == c2.0 * n + c2.1 ==> c1.0 == c2.0 && c1.1 == c2.1)
        by (nonlinear_arith)
        requires
            0 <= c1.0 < n,
            0 <= c1.1 < n,
            0 <= c2.0 < n,
            0 <= c2.1 < n,
    ;
}

/// Pigeonhole: a sequence of pairwise distinct in-bounds cells has at most
/// `n * n` elements.
pub proof fn lemma_distinct_cells_bound(s: Seq<(int, int)>, n: int)
    requires
        n >= 0,
        forall|i: int| 0 <= i < s.len() ==> in_bounds(n, #[trigger] s[i]),
        forall|i: int, j: int| 0 <= i < j < s.len() ==> s[i] != s[j],
    ensures
        s.len() <= n * n,
{
    let t = s.map_values(|c: (int, int)| flat_index(n, c));
    assert forall|i: int, j: int|
        0 <= i < t.len() && 0 <= j < t.len() && i != j implies t[i] != t[j] by {
        if i < j {
            lemma_flat_index(n, s[i], s[j]);
        } else {
            lemma_flat_index(n, s[j], s[i]);
        }
    }
    assert(t.no_duplicates());
    t.unique_seq_to_set();
    assert(t.to_set().subset_of(set_int_range(0, n * n))) by {
        assert forall|e: int| t.to_set().contains(e) implies set_int_range(0, n * n).contains(
            e,
        ) by {
            let i = choose|i: int| 0 <= i < t.len() && t[i] == e;
            lemma_flat_index(n, s[i], s[i]);
        }
    }
    lemma_int_range(0, n * n);
    lemma_len_subset(t.to_set(), set_int_range(0, n * n));
}

/// The cell reached after `k` steps along the stored directions from `c`.
pub open spec fn chain(v: FieldView, c: (int, int), k: nat) -> (int, int)
    decreases k,
{
    if k == 0 {
        c
    } else {
        v.step(chain(v, c, (k - 1) as nat))
    }
}

/// Taking one step first and then `k` steps is the same as taking `k + 1`
/// steps.
proof fn lemma_chain_shift(v: FieldView, c: (int, int), k: nat)
    ensures
        chain(v, c, (k + 1) as nat) == chain(v, v.step(c), k),
    decreases k,
{
    if k == 0 {
        assert(chain(v, c, 1) == v.step(chain(v, c, 0)));
        assert(chain(v, v.step(c), 0) == v.step(c));
    } else {
        lemma_chain_shift(v, c, (k - 1) as nat);
        assert(chain(v, c, (k + 1) as nat) == v.step(chain(v, c, k)));
        assert(chain(v, v.step(c), k) == v.step(chain(v, v.step(c), (k - 1) as nat)));
    }
}

/// From every reached cell the direction chain descends in cost until it
/// arrives at the target.
proof fn lemma_chain_descends(v: FieldView, c: (int, int)) -> (k: nat)
    requires
        v.wf(),
        v.reachable(c),
    ensures
        chain(v, c, k) == v.target,
        forall|i: nat| i < k ==> v.reachable(chain(v, c, i)) && chain(v, c, i) != v.target,
        forall|i: nat|
            i < k ==> v.cost_at(chain(v, c, (i + 1) as nat)) < v.cost_at(
                #[trigger] chain(v, c, i),
            ),
        k <= v.cost_at(c),
    decreases v.cost_at(c),
{
    if c == v.target {
        0
    } else {
        assert(v.cell_ok(c.0, c.1));
        let c2 = v.step(c);
        assert(v.reachable(c2));
        let k2 = lemma_chain_descends(v, c2);
        let k = k2 + 1;
        assert forall|i: nat| i < k implies v.reachable(#[trigger] chain(v, c, i)) && chain(v, c, i)
            != v.target && v.cost_at(chain(v, c, (i + 1) as nat)) < v.cost_at(
            chain(v, c, i),
        ) by {
            if i == 0 {
                lemma_chain_shift(v, c, 0);
            } else {
                lemma_chain_shift(v, c, (i - 1) as nat);
                lemma_chain_shift(v, c, i);
                assert(chain(v, c, i) == chain(v, c2, (i - 1) as nat));
                assert(chain(v, c, (i + 1) as nat) == chain(v, c2, i));
            }
        }
        lemma_chain_shift(v, c, k2);
        k
    }
}

/// Along a chain whose cost drops at every step, later cells have strictly
/// lower cost than earlier ones.
proof fn lemma_chain_cost_monotone(v: FieldView, c: (int, int), k: nat, i: nat, j: nat)
    requires
        forall|m: nat|
            m < k ==> v.cost_at(chain(v, c, (m + 1) as nat)) < v.cost_at(
                #[trigger] chain(v, c, m),
            ),
        i < j <= k,
    ensures
        v.cost_at(chain(v, c, j)) < v.cost_at(chain(v, c, i)),
    decreases j - i,
{
    if j == i + 1 {
        assert(i < k);
    } else {
        lemma_chain_cost_monotone(v, c, k, i, (j - 1) as nat);
        assert(((j - 1) as nat) < k);
    }
}

/// Law: in a well-formed field, following the stored directions from any
/// reached cell arrives at the target in fewer than `n * n` steps, visiting
/// pairwise distinct cells on the way (so the chain has no cycle).
pub proof fn lemma_chain_reaches_target(v: FieldView, c: (int, int)) -> (k: nat)
    requires
        v.wf(),
        v.reachable(c),
    ensures
        k < v.n * v.n,
        chain(v, c, k) == v.target,
        forall|i: nat| i < k ==> v.reachable(chain(v, c, i)) && chain(v, c, i) != v.target,
        forall|i: nat, j: nat| i < j <= k ==> chain(v, c, i) != chain(v, c, j),
{
    let k = lemma_chain_descends(v, c);
    assert forall|i: nat, j: nat| i < j <= k implies chain(v, c, i) != chain(v, c, j) by {
        lemma_chain_cost_monotone(v, c, k, i, j);
    }
    let s = Seq::new(k + 1, |i: int| chain(v, c, i as nat));
    assert forall|i: int| 0 <= i < s.len() implies in_bounds(v.n, #[trigger] s[i]) by {
        if i < k {
            assert(v.reachable(chain(v, c, i as nat)));
        } else {
            assert(s[i] == v.target);
        }
    }
    assert forall|i: int, j: int| 0 <= i < j < s.len() implies s[i] != s[j] by {
        assert(chain(v, c, i as nat) != chain(v, c, j as nat));
    }
    lemma_distinct_cells_bound(s, v.n);
    k
}

/// Law: a field built for target `t` guides every cell connected to `t`
/// through passable cells: following its stored directions arrives at `t`
/// in fewer than `n * n` steps, visiting pairwise distinct cells.
pub proof fn lemma_built_field_guides(
    n: int,
    imp: Set<(int, int)>,
    t: (int, int),
    v: FieldView,
    c: (int, int),
) -> (k: nat)
    requires
        build_result_spec(n, imp, t, Result::<FieldView, FlowError>::Ok(v)),
        connected(n, imp, t, c),
    ensures
        k < v.n * v.n,
        chain(v, c, k) == t,
        forall|i: nat| i < k ==> v.reachable(chain(v, c, i)) && chain(v, c, i) != t,
        forall|i: nat, j: nat| i < j <= k ==> chain(v, c, i) != chain(v, c, j),
{
    assert(v.wf() && v.target == t);
    assert(v.reachable(c));
    lemma_chain_reaches_target(v, c)
}

} // verus!
