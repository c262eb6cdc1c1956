//! Exact selection of at most one item per group under a capacity, maximising
//! total value (the multiple-choice knapsack), by dynamic programming over groups.
//!
//! Items carry a group label, a non-negative weight and a value. Group `g` is
//! the set of items labelled `g`; layer `t` of the table allows items whose
//! label is below `t`.
use vstd::prelude::*;
use vstd::arithmetic::div_mod::{lemma_fundamental_div_mod, lemma_mod_multiples_basic, lemma_small_mod};

verus! {

/// Largest number of items the selector takes.
pub const MAX_ITEMS: usize = 100_000_000;

/// Largest magnitude of an item's value.
pub const VALUE_LIMIT: i128 = 100_000_000_000_000_000_000_000_000_000;

pub open spec fn weight_seq(w: Seq<u64>) -> Seq<int> {
    w.map_values(|x: u64| x as int)
}

pub open spec fn value_seq(v: Seq<i128>) -> Seq<int> {
    v.map_values(|x: i128| x as int)
}

/// Sum of `xs[i]` over the positions `i < n` that `mask` marks.
pub open spec fn masked_sum(xs: Seq<int>, mask: Seq<bool>, n: int) -> int
    decreases n,
{
    if n <= 0 {
        0
    } else {
        masked_sum(xs, mask, n - 1) + if mask[n - 1] { xs[n - 1] } else { 0 }
    }
}

/// No two marked items share a label.
pub open spec fn exclusive(labels: Seq<usize>, mask: Seq<bool>) -> bool {
    forall|i: int, j: int|
        0 <= i < j < mask.len() && #[trigger] mask[i] && #[trigger] mask[j] ==> labels[i] != labels[j]
}

/// Every marked item's label is below `t`.
pub open spec fn labels_below(labels: Seq<usize>, mask: Seq<bool>, t: int) -> bool {
    forall|i: int| 0 <= i < mask.len() && #[trigger] mask[i] ==> labels[i] < t
}

/// A choice of items: one flag per item, at most one per group, within `cap`.
pub open spec fn fits(labels: Seq<usize>, w: Seq<u64>, mask: Seq<bool>, cap: int) -> bool {
    &&& mask.len() == labels.len()
    &&& exclusive(labels, mask)
    &&& masked_sum(weight_seq(w), mask, mask.len() as int) <= cap
}

/// Best value with items of the groups below `t` within capacity `c`.
pub open spec fn best_value(labels: Seq<usize>, w: Seq<u64>, v: Seq<i128>, t: nat, c: int) -> int
    decreases t, 0nat,
{
    if t == 0 {
        0
    } else {
        group_step(labels, w, v, (t - 1) as nat, c, labels.len())
    }
}

/// Best value with groups below `g`, or one of the first `j` items of group `g`
/// together with the best below `g` in the remaining capacity.
pub open spec fn group_step(labels: Seq<usize>, w: Seq<u64>, v: Seq<i128>, g: nat, c: int, j: nat) -> int
    decreases g, j + 1,
{
    if j == 0 {
        best_value(labels, w, v, g, c)
    } else {
        let prev = group_step(labels, w, v, g, c, (j - 1) as nat);
        let k = j - 1;
        if k < labels.len() && labels[k] == g && w[k] <= c {
            let cand = best_value(labels, w, v, g, c - w[k]) + v[k];
            if cand > prev { cand } else { prev }
        } else {
            prev
        }
    }
}

/// Item data that the table is built from.
pub open spec fn well_formed(labels: Seq<usize>, w: Seq<u64>, v: Seq<i128>) -> bool {
    &&& labels.len() == w.len() == v.len()
    &&& labels.len() <= MAX_ITEMS
    &&& forall|i: int| 0 <= i < labels.len() ==> (#[trigger] labels[i]) < labels.len()
    &&& forall|i: int| 0 <= i < v.len() ==> -VALUE_LIMIT <= #[trigger] v[i] <= VALUE_LIMIT
}

proof fn lemma_step_bounds(labels: Seq<usize>, w: Seq<u64>, v: Seq<i128>, g: nat, c: int, j: nat)
    requires
        well_formed(labels, w, v),
    ensures
        best_value(labels, w, v, g, c) <= group_step(labels, w, v, g, c, j),
        0 <= best_value(labels, w, v, g, c) <= g * VALUE_LIMIT,
        group_step(labels, w, v, g, c, j) <= (g + 1) * VALUE_LIMIT,
    decreases g, j,
{
    if j == 0 {
        if g > 0 {
            lemma_step_bounds(labels, w, v, (g - 1) as nat, c, labels.len());
        }
    } else {
        lemma_step_bounds(labels, w, v, g, c, (j - 1) as nat);
        let k = j - 1;
        if k < labels.len() && labels[k] == g && w[k] <= c {
            lemma_step_bounds(labels, w, v, g, c - w[k], 0);
        }
    }
    assert(g * VALUE_LIMIT + VALUE_LIMIT == (g + 1) * VALUE_LIMIT) by (nonlinear_arith);
}

/// The table value is never negative and at most `t` times the value limit.
pub proof fn lemma_best_value_bounds(labels: Seq<usize>, w: Seq<u64>, v: Seq<i128>, t: nat, c: int)
    requires
        well_formed(labels, w, v),
    ensures
        0 <= best_value(labels, w, v, t, c) <= t * VALUE_LIMIT,
{
    lemma_step_bounds(labels, w, v, t, c, 0);
}

proof fn lemma_step_at_least_candidate(
    labels: Seq<usize>,
    w: Seq<u64>,
    v: Seq<i128>,
    g: nat,
    c: int,
    j: nat,
    k: int,
)
    requires
        0 <= k < j <= labels.len(),
        labels[k] == g,
        w[k] <= c,
    ensures
        group_step(labels, w, v, g, c, j) >= best_value(labels, w, v, g, c - w[k]) + v[k],
    decreases j,
{
    if k < j - 1 {
        lemma_step_at_least_candidate(labels, w, v, g, c, (j - 1) as nat, k);
    }
}

proof fn lemma_step_at_least_base(labels: Seq<usize>, w: Seq<u64>, v: Seq<i128>, g: nat, c: int, j: nat)
    ensures
        group_step(labels, w, v, g, c, j) >= best_value(labels, w, v, g, c),
    decreases j,
{
    if j > 0 {
        lemma_step_at_least_base(labels, w, v, g, c, (j - 1) as nat);
    }
}

proof fn lemma_step_empty_group(labels: Seq<usize>, w: Seq<u64>, v: Seq<i128>, g: nat, c: int, j: nat)
    requires
        j <= labels.len(),
        forall|i: int| 0 <= i < j ==> labels[i] != g,
    ensures
        group_step(labels, w, v, g, c, j) == best_value(labels, w, v, g, c),
    decreases j,
{
    if j > 0 {
        lemma_step_empty_group(labels, w, v, g, c, (j - 1) as nat);
    }
}

pub proof fn lemma_masked_sum_unmarked(xs: Seq<int>, mask: Seq<bool>, n: int)
    requires
        forall|i: int| 0 <= i < n ==> !(#[trigger] mask[i]),
    ensures
        masked_sum(xs, mask, n) == 0,
    decreases n,
{
    if n > 0 {
        lemma_masked_sum_unmarked(xs, mask, n - 1);
    }
}

pub proof fn lemma_masked_sum_nonneg(xs: Seq<int>, mask: Seq<bool>, n: int)
    requires
        n <= xs.len(),
        forall|i: int| 0 <= i < xs.len() ==> #[trigger] xs[i] >= 0,
    ensures
        masked_sum(xs, mask, n) >= 0,
    decreases n,
{
    if n > 0 {
        lemma_masked_sum_nonneg(xs, mask, n - 1);
    }
}

/// Marking one more item adds its entry to the sum.
pub proof fn lemma_masked_sum_mark(xs: Seq<int>, mask: Seq<bool>, n: int, j: int)
    requires
        0 <= j < n <= mask.len(),
        !mask[j],
    ensures
        masked_sum(xs, mask.update(j, true), n) == masked_sum(xs, mask, n) + xs[j],
    decreases n,
{
    if n - 1 > j {
        lemma_masked_sum_mark(xs, mask, n - 1, j);
    } else {
        lemma_masked_sum_same(xs, mask, mask.update(j, true), n - 1);
    }
}

/// Sums agree where the masks agree.
pub proof fn lemma_masked_sum_same(xs: Seq<int>, m1: Seq<bool>, m2: Seq<bool>, n: int)
    requires
        forall|i: int| 0 <= i < n ==> m1[i] == m2[i],
    ensures
        masked_sum(xs, m1, n) == masked_sum(xs, m2, n),
    decreases n,
{
    if n > 0 {
        lemma_masked_sum_same(xs, m1, m2, n - 1);
    }
}

/// No choice of items within capacity `c` from the groups below `t` is worth
/// more than the table's value.
pub proof fn lemma_best_value_is_upper_bound(
    labels: Seq<usize>,
    w: Seq<u64>,
    v: Seq<i128>,
    t: nat,
    c: int,
    mask: Seq<bool>,
)
    requires
        well_formed(labels, w, v),
        mask.len() == labels.len(),
        exclusive(labels, mask),
        labels_below(labels, mask, t as int),
        masked_sum(weight_seq(w), mask, mask.len() as int) <= c,
    ensures
        masked_sum(value_seq(v), mask, mask.len() as int) <= best_value(labels, w, v, t, c),
    decreases t,
{
    let n = mask.len() as int;
    let ws = weight_seq(w);
    let vs = value_seq(v);
    if t == 0 {
        assert forall|i: int| 0 <= i < n implies !(#[trigger] mask[i]) by {
            if mask[i] {
                assert(labels[i] < 0);
            }
        }
        lemma_masked_sum_unmarked(vs, mask, n);
    } else {
        let g = (t - 1) as nat;
        if exists|j: int| 0 <= j < n && #[trigger] mask[j] && labels[j] == g {
            let j = choose|j: int| 0 <= j < n && #[trigger] mask[j] && labels[j] == g;
            let rest = mask.update(j, false);
            assert(rest.update(j, true) =~= mask);
            lemma_masked_sum_mark(ws, rest, n, j);
            lemma_masked_sum_mark(vs, rest, n, j);
            assert forall|i: int| 0 <= i < ws.len() implies #[trigger] ws[i] >= 0 by {}
            lemma_masked_sum_nonneg(ws, rest, n);
            assert(exclusive(labels, rest)) by {
                assert forall|a: int, b: int|
                    0 <= a < b < rest.len() && #[trigger] rest[a] && #[trigger] rest[b] implies labels[a] != labels[b] by {
                    assert(mask[a] && mask[b]);
                }
            }
            assert(labels_below(labels, rest, g as int)) by {
                assert forall|i: int| 0 <= i < rest.len() && #[trigger] rest[i] implies labels[i] < g by {
                    assert(mask[i]);
                    if labels[i] == g {
                        assert(i != j);
                        if i < j {
                            assert(mask[i] && mask[j]);
                        } else {
                            assert(mask[j] && mask[i]);
                        }
                    }
                }
            }
            lemma_best_value_is_upper_bound(labels, w, v, g, c - w[j], rest);
            lemma_step_at_least_candidate(labels, w, v, g, c, labels.len(), j);
        } else {
            assert(labels_below(labels, mask, g as int)) by {
                assert forall|i: int| 0 <= i < mask.len() && #[trigger] mask[i] implies labels[i] < g by {
                    assert(labels[i] != g);
                }
            }
            lemma_best_value_is_upper_bound(labels, w, v, g, c, mask);
            lemma_step_at_least_base(labels, w, v, g, c, labels.len());
        }
    }
}


/// What the reconstruction reads from an entry of layer `g`'s choice row.
/// The item of group `g` that the table takes at capacity `c` after the first
/// `j` items, or `-1`: an item replaces the earlier pick only when strictly better.
pub open spec fn pick(labels: Seq<usize>, w: Seq<u64>, v: Seq<i128>, g: nat, c: int, j: nat) -> int
    decreases j,
{
    if j == 0 {
        -1
    } else {
        let k = (j - 1) as nat;
        if k < labels.len() && labels[k as int] == g && w[k as int] <= c
            && best_value(labels, w, v, g, c - w[k as int]) + v[k as int] > group_step(labels, w, v, g, c, k) {
            k as int
        } else {
            pick(labels, w, v, g, c, k)
        }
    }
}

/// The choice that the table leads to from layer `t` at capacity `c`: the
/// pick of each group from the last down, each in the capacity left over.
pub open spec fn selected_mask(labels: Seq<usize>, w: Seq<u64>, v: Seq<i128>, t: nat, c: int) -> Seq<bool>
    decreases t,
{
    if t == 0 {
        Seq::new(labels.len(), |i: int| false)
    } else {
        let k = pick(labels, w, v, (t - 1) as nat, c, labels.len());
        if k >= 0 {
            selected_mask(labels, w, v, (t - 1) as nat, c - w[k]).update(k, true)
        } else {
            selected_mask(labels, w, v, (t - 1) as nat, c)
        }
    }
}

proof fn lemma_selected_mask_len(labels: Seq<usize>, w: Seq<u64>, v: Seq<i128>, t: nat, c: int)
    ensures
        selected_mask(labels, w, v, t, c).len() == labels.len(),
    decreases t,
{
    if t > 0 {
        let k = pick(labels, w, v, (t - 1) as nat, c, labels.len());
        lemma_pick_in_range(labels, w, v, (t - 1) as nat, c, labels.len());
        if k >= 0 {
            lemma_selected_mask_len(labels, w, v, (t - 1) as nat, c - w[k]);
        } else {
            lemma_selected_mask_len(labels, w, v, (t - 1) as nat, c);
        }
    }
}

proof fn lemma_pick_empty_group(labels: Seq<usize>, w: Seq<u64>, v: Seq<i128>, g: nat, c: int, j: nat)
    requires
        j <= labels.len(),
        forall|i: int| 0 <= i < j ==> labels[i] != g,
    ensures
        pick(labels, w, v, g, c, j) == -1,
    decreases j,
{
    if j > 0 {
        lemma_pick_empty_group(labels, w, v, g, c, (j - 1) as nat);
    }
}

proof fn lemma_pick_in_range(labels: Seq<usize>, w: Seq<u64>, v: Seq<i128>, g: nat, c: int, j: nat)
    ensures
        -1 <= pick(labels, w, v, g, c, j) < j,
    decreases j,
{
    if j > 0 {
        lemma_pick_in_range(labels, w, v, g, c, (j - 1) as nat);
    }
}

pub open spec fn choice_ok(labels: Seq<usize>, w: Seq<u64>, v: Seq<i128>, g: nat, c: int, x: usize, upto: int) -> bool {
    &&& x as int == pick(labels, w, v, g, c, upto as nat) + 1
    &&& if x == 0 {
        group_step(labels, w, v, g, c, upto as nat) == best_value(labels, w, v, g, c)
    } else {
        let k = x - 1;
        &&& k < upto
        &&& labels[k] == g
        &&& w[k] <= c
        &&& group_step(labels, w, v, g, c, upto as nat) == best_value(labels, w, v, g, c - w[k]) + v[k]
    }
}

/// A choice row of layer `g`: empty for a group without items, else one entry per capacity.
pub open spec fn row_ok(labels: Seq<usize>, w: Seq<u64>, v: Seq<i128>, g: nat, cap: int, row: Seq<usize>) -> bool {
    ||| row.len() == 0 && forall|c: int| 0 <= c <= cap ==> #[trigger] best_value(labels, w, v, g + 1, c) == best_value(labels, w, v, g, c)
        && pick(labels, w, v, g, c, labels.len()) == -1
    ||| row.len() == cap + 1 && forall|c: int| 0 <= c <= cap ==> #[trigger] choice_ok(labels, w, v, g, c, row[c], labels.len() as int)
}

fn copy_row(src: &Vec<i128>) -> (r: Vec<i128>)
    ensures
        r@ == src@,
{
    let mut r: Vec<i128> = Vec::new();
    let mut i: usize = 0;
    while i < src.len()
        invariant
            i <= src@.len(),
            r@ == src@.take(i as int),
        decreases src@.len() - i,
    {
        r.push(src[i]);
        i += 1;
        assert(r@ =~= src@.take(i as int));
    }
    assert(src@.take(src@.len() as int) =~= src@);
    r
}

/// Adds group `t` to the table: from layer `t` in `best` to layer `t + 1`.
fn layer_step(
    labels: &Vec<usize>,
    weights: &Vec<u64>,
    values: &Vec<i128>,
    best: &Vec<i128>,
    t: usize,
    cap: usize,
) -> (r: (Vec<i128>, Vec<usize>))
    requires
        well_formed(labels@, weights@, values@),
        t < labels@.len(),
        cap < usize::MAX,
        best@.len() == cap + 1,
        forall|c: int| 0 <= c <= cap ==> #[trigger] best@[c] == best_value(labels@, weights@, values@, t as nat, c),
    ensures
        r.0@.len() == cap + 1,
        forall|c: int| 0 <= c <= cap ==> #[trigger] r.0@[c] == best_value(labels@, weights@, values@, (t + 1) as nat, c),
        row_ok(labels@, weights@, values@, t as nat, cap as int, r.1@),
{
    let ghost l = labels@;
    let ghost w = weights@;
    let ghost v = values@;
    let n = labels.len();
    let mut any: bool = false;
    let mut j: usize = 0;
    while j < n
        invariant
            j <= n == l.len(),
            labels@ == l,
            any <==> exists|i: int| 0 <= i < j && l[i] == t,
        decreases n - j,
    {
        if labels[j] == t {
            any = true;
        }
        j += 1;
    }
    let mut next = copy_row(best);
    if !any {
        proof {
            assert forall|c: int| 0 <= c <= cap implies #[trigger] best_value(l, w, v, (t + 1) as nat, c) == best_value(l, w, v, t as nat, c)
                && pick(l, w, v, t as nat, c, l.len()) == -1 by {
                lemma_step_empty_group(l, w, v, t as nat, c, l.len());
                lemma_pick_empty_group(l, w, v, t as nat, c, l.len());
            }
        }
        return (next, Vec::new());
    }
    let mut choice: Vec<usize> = Vec::new();
    let mut c: usize = 0;
    while c <= cap
        invariant
            c <= cap + 1,
            cap < usize::MAX,
            choice@.len() == c,
            forall|k: int| 0 <= k < c ==> choice@[k] == 0,
        decreases cap + 1 - c,
    {
        choice.push(0);
        c += 1;
    }
    let mut j: usize = 0;
    while j < n
        invariant
            j <= n == l.len(),
            labels@ == l,
            weights@ == w,
            values@ == v,
            well_formed(l, w, v),
            t < n,
            cap < usize::MAX,
            best@.len() == cap + 1,
            forall|c: int| 0 <= c <= cap ==> #[trigger] best@[c] == best_value(l, w, v, t as nat, c),
            next@.len() == cap + 1,
            choice@.len() == cap + 1,
            forall|c: int| 0 <= c <= cap ==> #[trigger] next@[c] == group_step(l, w, v, t as nat, c, j as nat),
            forall|c: int| 0 <= c <= cap ==> #[trigger] choice_ok(l, w, v, t as nat, c, choice@[c], j as int),
        decreases n - j,
    {
        if labels[j] == t && weights[j] <= cap as u64 {
            let wj: usize = weights[j] as usize;
            let mut c: usize = wj;
            proof {
                assert forall|d: int| 0 <= d < wj implies group_step(l, w, v, t as nat, d, (j + 1) as nat) == #[trigger] group_step(l, w, v, t as nat, d, j as nat) by {}
                assert forall|d: int| 0 <= d < wj implies #[trigger] choice_ok(l, w, v, t as nat, d, choice@[d], j + 1) by {
                    assert(choice_ok(l, w, v, t as nat, d, choice@[d], j as int));
                    assert(group_step(l, w, v, t as nat, d, (j + 1) as nat) == group_step(l, w, v, t as nat, d, j as nat));
                }
                assert forall|d: int| 0 <= d < wj implies #[trigger] next@[d] == group_step(l, w, v, t as nat, d, (j + 1) as nat) by {
                    assert(next@[d] == group_step(l, w, v, t as nat, d, j as nat));
                    assert(group_step(l, w, v, t as nat, d, (j + 1) as nat) == group_step(l, w, v, t as nat, d, j as nat));
                }
            }
            while c <= cap
                invariant
                    wj <= c <= cap + 1,
                    wj == w[j as int],
                    j < n == l.len(),
                    l[j as int] == t,
                    labels@ == l,
                    weights@ == w,
                    values@ == v,
                    well_formed(l, w, v),
                    cap < usize::MAX,
                    best@.len() == cap + 1,
                    forall|c: int| 0 <= c <= cap ==> #[trigger] best@[c] == best_value(l, w, v, t as nat, c),
                    next@.len() == cap + 1,
                    choice@.len() == cap + 1,
                    forall|d: int| 0 <= d < c ==> #[trigger] next@[d] == group_step(l, w, v, t as nat, d, (j + 1) as nat),
                    forall|d: int| c <= d <= cap ==> #[trigger] next@[d] == group_step(l, w, v, t as nat, d, j as nat),
                    forall|d: int| 0 <= d < c ==> #[trigger] choice_ok(l, w, v, t as nat, d, choice@[d], j + 1),
                    forall|d: int| c <= d <= cap ==> #[trigger] choice_ok(l, w, v, t as nat, d, choice@[d], j as int),
                decreases cap + 1 - c,
            {
                proof {
                    lemma_best_value_bounds(l, w, v, t as nat, c - wj);
                    assert(t * VALUE_LIMIT <= MAX_ITEMS * VALUE_LIMIT) by (nonlinear_arith)
                        requires t <= MAX_ITEMS;
                }
                let cand: i128 = best[c - wj] + values[j];
                let ghost prev = next@[c as int];
                if cand > next[c] {
                    next.set(c, cand);
                    choice.set(c, j + 1);
                }
                proof {
                    assert(group_step(l, w, v, t as nat, c as int, (j + 1) as nat) == if cand > prev { cand as int } else { prev as int });
                    if !(cand > prev) {
                        // the entry stands; its reading carries over to one more item
                        let x = choice@[c as int];
                        assert(choice_ok(l, w, v, t as nat, c as int, x, j as int));
                    }
                }
                c += 1;
            }
        } else {
            proof {
                assert forall|d: int| 0 <= d <= cap implies group_step(l, w, v, t as nat, d, (j + 1) as nat) == #[trigger] group_step(l, w, v, t as nat, d, j as nat) by {}
                assert forall|d: int| 0 <= d <= cap implies #[trigger] choice_ok(l, w, v, t as nat, d, choice@[d], j + 1) by {
                    assert(choice_ok(l, w, v, t as nat, d, choice@[d], j as int));
                    assert(group_step(l, w, v, t as nat, d, (j + 1) as nat) == group_step(l, w, v, t as nat, d, j as nat));
                }
                assert forall|d: int| 0 <= d <= cap implies #[trigger] next@[d] == group_step(l, w, v, t as nat, d, (j + 1) as nat) by {
                    assert(next@[d] == group_step(l, w, v, t as nat, d, j as nat));
                }
            }
        }
        j += 1;
    }
    proof {
        assert forall|c: int| 0 <= c <= cap implies #[trigger] next@[c] == best_value(l, w, v, (t + 1) as nat, c) by {
            assert(next@[c] == group_step(l, w, v, t as nat, c, n as nat));
        }
    }
    (next, choice)
}


/// Chooses at most one item per group, within capacity `cap`, with the greatest
/// total value; which of several equally good choices is given by `selected_mask`.
pub fn solve(labels: &Vec<usize>, weights: &Vec<u64>, values: &Vec<i128>, cap: usize) -> (mask: Vec<bool>)
    requires
        well_formed(labels@, weights@, values@),
        cap < usize::MAX,
    ensures
        fits(labels@, weights@, mask@, cap as int),
        masked_sum(value_seq(values@), mask@, mask@.len() as int) == best_value(
            labels@,
            weights@,
            values@,
            labels@.len() as nat,
            cap as int,
        ),
        mask@ == selected_mask(labels@, weights@, values@, labels@.len() as nat, cap as int),
{
    let ghost l = labels@;
    let ghost w = weights@;
    let ghost v = values@;
    let n = labels.len();
    let mut best: Vec<i128> = Vec::new();
    let mut c: usize = 0;
    while c <= cap
        invariant
            c <= cap + 1,
            cap < usize::MAX,
            best@.len() == c,
            forall|k: int| 0 <= k < c ==> best@[k] == 0,
        decreases cap + 1 - c,
    {
        best.push(0);
        c += 1;
    }
    let mut table: Vec<Vec<usize>> = Vec::new();
    let mut t: usize = 0;
    while t < n
        invariant
            t <= n == l.len(),
            labels@ == l,
            weights@ == w,
            values@ == v,
            well_formed(l, w, v),
            cap < usize::MAX,
            best@.len() == cap + 1,
            forall|c: int| 0 <= c <= cap ==> #[trigger] best@[c] == best_value(l, w, v, t as nat, c),
            table@.len() == t,
            forall|g: int| 0 <= g < t ==> row_ok(l, w, v, g as nat, cap as int, #[trigger] table@[g]@),
        decreases n - t,
    {
        let (next, row) = layer_step(labels, weights, values, &best, t, cap);
        best = next;
        table.push(row);
        t += 1;
    }
    let mut mask: Vec<bool> = Vec::new();
    let mut i: usize = 0;
    while i < n
        invariant
            i <= n,
            mask@.len() == i,
            forall|k: int| 0 <= k < i ==> !mask@[k],
        decreases n - i,
    {
        mask.push(false);
        i += 1;
    }
    let ghost ws = weight_seq(w);
    let ghost vs = value_seq(v);
    proof {
        lemma_masked_sum_unmarked(ws, mask@, n as int);
        lemma_masked_sum_unmarked(vs, mask@, n as int);
    }
    let ghost final_mask = selected_mask(l, w, v, n as nat, cap as int);
    proof { lemma_selected_mask_len(l, w, v, n as nat, cap as int); }
    let mut c: usize = cap;
    let mut t: usize = n;
    while t > 0
        invariant
            t <= n == l.len(),
            labels@ == l,
            weights@ == w,
            values@ == v,
            ws == weight_seq(w),
            vs == value_seq(v),
            well_formed(l, w, v),
            c <= cap,
            table@.len() == n,
            forall|g: int| 0 <= g < n ==> row_ok(l, w, v, g as nat, cap as int, #[trigger] table@[g]@),
            mask@.len() == n,
            masked_sum(vs, mask@, n as int) + best_value(l, w, v, t as nat, c as int) == best_value(l, w, v, n as nat, cap as int),
            masked_sum(ws, mask@, n as int) + c == cap,
            forall|k: int| 0 <= k < n && #[trigger] mask@[k] ==> l[k] >= t,
            exclusive(l, mask@),
            selected_mask(l, w, v, t as nat, c as int).len() == n,
            forall|k: int| 0 <= k < n ==> #[trigger] final_mask[k] == (mask@[k] || selected_mask(l, w, v, t as nat, c as int)[k]),
        decreases t,
    {
        t -= 1;
        proof { lemma_selected_mask_len(l, w, v, t as nat, c as int); }
        let ghost g = t as nat;
        assert(row_ok(l, w, v, g, cap as int, table@[t as int]@));
        if table[t].len() > 0 {
            let x: usize = table[t][c];
            assert(choice_ok(l, w, v, g, c as int, x, n as int));
            assert(best_value(l, w, v, (t + 1) as nat, c as int) == group_step(l, w, v, g, c as int, n as nat));
            if x > 0 {
                let k: usize = x - 1;
                let ghost before = mask@;
                let ghost c_before = c as int;
                assert(!before[k as int]);
                mask.set(k, true);
                proof {
                    let rest = selected_mask(l, w, v, g, c_before - w[k as int]);
                    lemma_selected_mask_len(l, w, v, g, c_before - w[k as int]);
                    assert(selected_mask(l, w, v, (t + 1) as nat, c_before) == rest.update(k as int, true));
                    assert forall|i: int| 0 <= i < n implies #[trigger] final_mask[i] == (mask@[i] || rest[i]) by {
                        assert(final_mask[i] == (before[i] || selected_mask(l, w, v, (t + 1) as nat, c_before)[i]));
                    }
                    lemma_masked_sum_mark(ws, before, n as int, k as int);
                    lemma_masked_sum_mark(vs, before, n as int, k as int);
                    assert forall|a: int, b: int|
                        0 <= a < b < mask@.len() && #[trigger] mask@[a] && #[trigger] mask@[b] implies l[a] != l[b] by {
                        if a != k && b != k {
                            assert(before[a] && before[b]);
                        } else if a == k {
                            assert(before[b]);
                        } else {
                            assert(before[a]);
                        }
                    }
                }
                c = c - weights[k] as usize;
            }
            if x == 0 {
                assert(selected_mask(l, w, v, (t + 1) as nat, c as int) == selected_mask(l, w, v, g, c as int));
            }
        } else {
            assert(best_value(l, w, v, (t + 1) as nat, c as int) == best_value(l, w, v, g, c as int));
            assert(selected_mask(l, w, v, (t + 1) as nat, c as int) == selected_mask(l, w, v, g, c as int));
        }
    }
    assert(mask@ =~= final_mask);
    mask
}


/// `d` divides both `x` and `y`.
pub open spec fn common_divisor(d: int, x: int, y: int) -> bool {
    d > 0 && x % d == 0 && y % d == 0
}

proof fn lemma_multiple_of(x: int, d: int, k: int)
    requires
        d > 0,
        x == d * k,
    ensures
        x % d == 0,
{
    assert(x == k * d) by (nonlinear_arith) requires x == d * k;
    lemma_mod_multiples_basic(k, d);
}

/// A divisor of `y` and of `x % y` divides `x`.
proof fn lemma_divisor_of_remainder(x: int, y: int, d: int)
    requires
        x >= 0,
        y > 0,
        common_divisor(d, y, x % y),
    ensures
        common_divisor(d, x, y),
{
    lemma_fundamental_div_mod(x, y);
    lemma_fundamental_div_mod(y, d);
    lemma_fundamental_div_mod(x % y, d);
    let k = (y / d) * (x / y) + (x % y) / d;
    assert(x == d * k) by (nonlinear_arith)
        requires
            x == y * (x / y) + x % y,
            y == d * (y / d) + y % d,
            x % y == d * ((x % y) / d) + (x % y) % d,
            y % d == 0,
            (x % y) % d == 0,
            k == (y / d) * (x / y) + (x % y) / d;
    lemma_multiple_of(x, d, k);
}

/// Divisibility is transitive.
proof fn lemma_divides_transitive(x: int, g: int, h: int)
    requires
        g > 0,
        h > 0,
        x % g == 0,
        g % h == 0,
    ensures
        x % h == 0,
{
    lemma_fundamental_div_mod(x, g);
    lemma_fundamental_div_mod(g, h);
    let k = (g / h) * (x / g);
    assert(x == h * k) by (nonlinear_arith)
        requires x == g * (x / g) + x % g, g == h * (g / h) + g % h, x % g == 0, g % h == 0, k == (g / h) * (x / g);
    lemma_multiple_of(x, h, k);
}

/// A divisor of `x` and `y` divides `x % y`.
proof fn lemma_divisor_of_operands(x: int, y: int, d: int)
    requires
        x >= 0,
        y > 0,
        common_divisor(d, x, y),
    ensures
        common_divisor(d, y, x % y),
{
    lemma_fundamental_div_mod(x, y);
    lemma_fundamental_div_mod(x, d);
    lemma_fundamental_div_mod(y, d);
    let k = x / d - (y / d) * (x / y);
    assert(x % y == d * k) by (nonlinear_arith)
        requires
            x == y * (x / y) + x % y,
            x == d * (x / d) + x % d,
            y == d * (y / d) + y % d,
            x % d == 0,
            y % d == 0,
            k == x / d - (y / d) * (x / y);
    lemma_multiple_of(x % y, d, k);
}

/// A positive multiple of `d` is at least `d`.
proof fn lemma_divisor_at_most(x: int, d: int)
    requires
        x > 0,
        d > 0,
        x % d == 0,
    ensures
        d <= x,
{
    lemma_fundamental_div_mod(x, d);
    assert(d <= x) by (nonlinear_arith)
        requires x == d * (x / d) + x % d, x % d == 0, x > 0, d > 0;
}

/// Greatest common divisor by Euclid's algorithm; zero only when both are zero.
pub fn gcd(a: u64, b: u64) -> (g: u64)
    ensures
        g > 0 ==> a % g == 0 && b % g == 0,
        g > 0 ==> forall|d: int| #[trigger] common_divisor(d, a as int, b as int) ==> d <= g && (g as int) % d == 0,
        g == 0 ==> a == 0 && b == 0,
{
    let mut x: u64 = a;
    let mut y: u64 = b;
    while y != 0
        invariant
            forall|d: int| #[trigger] common_divisor(d, x as int, y as int) ==> common_divisor(d, a as int, b as int),
            forall|d: int| #[trigger] common_divisor(d, a as int, b as int) ==> common_divisor(d, x as int, y as int),
        decreases y,
    {
        let r: u64 = x % y;
        proof {
            assert forall|d: int| #[trigger] common_divisor(d, y as int, r as int) implies common_divisor(d, a as int, b as int) by {
                lemma_divisor_of_remainder(x as int, y as int, d);
            }
            assert forall|d: int| #[trigger] common_divisor(d, a as int, b as int) implies common_divisor(d, y as int, r as int) by {
                assert(common_divisor(d, x as int, y as int));
                lemma_divisor_of_operands(x as int, y as int, d);
            }
        }
        x = y;
        y = r;
    }
    proof {
        if x > 0 {
            lemma_multiple_of(x as int, x as int, 1);
            lemma_multiple_of(0, x as int, 0);
            assert(common_divisor(x as int, x as int, 0));
            assert forall|d: int| #[trigger] common_divisor(d, a as int, b as int) implies d <= x && (x as int) % d == 0 by {
                assert(common_divisor(d, x as int, 0));
                lemma_divisor_at_most(x as int, d);
            }
        } else {
            lemma_multiple_of(0, a + 1, 0);
            lemma_multiple_of(0, b + 1, 0);
            assert(common_divisor(a + 1, 0, 0));
            assert(common_divisor(b + 1, 0, 0));
            lemma_small_mod(a as nat, (a + 1) as nat);
            lemma_small_mod(b as nat, (b + 1) as nat);
        }
    }
    x
}

/// Every weight among the first `n` is a multiple of `d`.
pub open spec fn divides_prefix(w: Seq<u64>, n: int, d: int) -> bool {
    forall|k: int| 0 <= k < n ==> (#[trigger] w[k] as int) % d == 0
}

/// `g` is the greatest common divisor of the weights (zero when all are zero).
pub open spec fn is_unit(w: Seq<u64>, g: int) -> bool {
    &&& g >= 0
    &&& g > 0 ==> divides_prefix(w, w.len() as int, g)
    &&& g > 0 ==> forall|d: int| d > 0 && #[trigger] divides_prefix(w, w.len() as int, d) ==> g % d == 0
    &&& g == 0 ==> forall|k: int| 0 <= k < w.len() ==> #[trigger] w[k] == 0
}

/// The greatest common divisor of the weights.
pub open spec fn unit_of(w: Seq<u64>) -> int {
    choose|g: int| is_unit(w, g)
}

/// Weights in multiples of `g`.
pub open spec fn scaled_weights(w: Seq<u64>, g: int) -> Seq<u64> {
    w.map_values(|x: u64| if g > 0 { (x as int / g) as u64 } else { 0u64 })
}

/// Capacity in multiples of the unit, capped at the total scaled weight.
pub open spec fn capacity_for(w: Seq<u64>, budget: int) -> int {
    let g = unit_of(w);
    let sw = scaled_weights(w, g);
    let all = masked_sum(weight_seq(sw), Seq::new(sw.len(), |k: int| true), sw.len() as int);
    let unit_budget = if g > 0 { budget / g } else { 0 };
    if unit_budget <= all { unit_budget } else { all }
}

/// The choice that `select_within` makes.
pub open spec fn selection_for(labels: Seq<usize>, w: Seq<u64>, v: Seq<i128>, budget: int) -> Seq<bool> {
    selected_mask(labels, scaled_weights(w, unit_of(w)), v, labels.len() as nat, capacity_for(w, budget))
}

proof fn lemma_unit_unique(w: Seq<u64>, g1: int, g2: int)
    requires
        is_unit(w, g1),
        is_unit(w, g2),
    ensures
        g1 == g2,
{
    if g1 > 0 && g2 > 0 {
        assert(divides_prefix(w, w.len() as int, g1));
        assert(divides_prefix(w, w.len() as int, g2));
        lemma_divisor_at_most(g1, g2);
        lemma_divisor_at_most(g2, g1);
    } else if g1 > 0 {
        lemma_zero_unit_only(w, g1);
    } else if g2 > 0 {
        lemma_zero_unit_only(w, g2);
    }
}

/// When every weight is zero, no positive number is their unit.
proof fn lemma_zero_unit_only(w: Seq<u64>, g: int)
    requires
        g > 0,
        forall|k: int| 0 <= k < w.len() ==> #[trigger] w[k] == 0,
    ensures
        !is_unit(w, g),
{
    assert forall|k: int| 0 <= k < w.len() implies (#[trigger] w[k] as int) % (g + 1) == 0 by {
        lemma_multiple_of(0, g + 1, 0);
    }
    assert(divides_prefix(w, w.len() as int, g + 1));
    lemma_small_mod(g as nat, (g + 1) as nat);
}

/// The greatest common divisor of the weights; zero only when every weight is zero.
fn common_unit(weights: &Vec<u64>) -> (g: u64)
    ensures
        is_unit(weights@, g as int),
{
    let ghost w = weights@;
    let mut g: u64 = 0;
    let mut i: usize = 0;
    while i < weights.len()
        invariant
            i <= weights@.len(),
            w == weights@,
            g > 0 ==> divides_prefix(w, i as int, g as int),
            g > 0 ==> forall|d: int| d > 0 && #[trigger] divides_prefix(w, i as int, d) ==> (g as int) % d == 0,
            g == 0 ==> forall|k: int| 0 <= k < i ==> #[trigger] w[k] == 0,
        decreases weights@.len() - i,
    {
        let h: u64 = gcd(g, weights[i]);
        proof {
            if h > 0 {
                assert forall|k: int| 0 <= k < i + 1 implies (#[trigger] w[k] as int) % (h as int) == 0 by {
                    if k < i {
                        if g > 0 {
                            lemma_divides_transitive(w[k] as int, g as int, h as int);
                        } else {
                            lemma_multiple_of(0, h as int, 0);
                        }
                    }
                }
                assert forall|d: int| d > 0 && #[trigger] divides_prefix(w, i + 1, d) implies (h as int) % d == 0 by {
                    assert(divides_prefix(w, i as int, d));
                    assert((w[i as int] as int) % d == 0);
                    if g == 0 {
                        lemma_multiple_of(0, d, 0);
                    }
                    assert(common_divisor(d, g as int, w[i as int] as int));
                }
            }
        }
        g = h;
        i += 1;
    }
    g
}

/// With every weight a multiple of `g`, a masked sum is `g` times the masked sum of the quotients.
proof fn lemma_masked_sum_scaled(w: Seq<u64>, sw: Seq<u64>, g: int, mask: Seq<bool>, n: int)
    requires
        g > 0,
        0 <= n <= w.len() == sw.len(),
        forall|i: int| 0 <= i < w.len() ==> #[trigger] sw[i] as int == (w[i] as int) / g && (w[i] as int) % g == 0,
    ensures
        masked_sum(weight_seq(w), mask, n) == g * masked_sum(weight_seq(sw), mask, n),
    decreases n,
{
    if n > 0 {
        lemma_masked_sum_scaled(w, sw, g, mask, n - 1);
        let i = n - 1;
        lemma_fundamental_div_mod(w[i] as int, g);
        assert(sw[i] as int == (w[i] as int) / g);
        let a = masked_sum(weight_seq(sw), mask, n - 1);
        let x: int = if mask[i] { sw[i] as int } else { 0 };
        assert(g * a + (if mask[i] { w[i] as int } else { 0 }) == g * (a + x)) by (nonlinear_arith)
            requires w[i] as int == g * (w[i] as int / g) + (w[i] as int) % g, (w[i] as int) % g == 0,
                sw[i] as int == w[i] as int / g, x == if mask[i] { sw[i] as int } else { 0 };
    }
}

proof fn lemma_masked_sum_at_most_total(xs: Seq<int>, mask: Seq<bool>, n: int)
    requires
        0 <= n <= xs.len(),
        forall|i: int| 0 <= i < xs.len() ==> #[trigger] xs[i] >= 0,
    ensures
        masked_sum(xs, mask, n) <= masked_sum(xs, Seq::new(xs.len(), |i: int| true), n),
    decreases n,
{
    if n > 0 {
        lemma_masked_sum_at_most_total(xs, mask, n - 1);
    }
}

/// For `g > 0` and `s >= 0`: `g * s <= b` exactly when `s <= b / g`.
proof fn lemma_scaled_budget(g: int, s: int, b: int)
    requires
        g > 0,
        s >= 0,
        b >= 0,
    ensures
        (g * s <= b) <==> (s <= b / g),
{
    lemma_fundamental_div_mod(b, g);
    assert((g * s <= b) <==> (s <= b / g)) by (nonlinear_arith)
        requires g > 0, s >= 0, b >= 0, b == g * (b / g) + b % g, 0 <= b % g < g;
}

/// Chooses at most one item per group with total weight within `budget` and the
/// greatest total value over all such choices.
pub fn select_within(labels: &Vec<usize>, weights: &Vec<u64>, values: &Vec<i128>, budget: u64) -> (mask: Vec<bool>)
    requires
        well_formed(labels@, weights@, values@),
        budget < usize::MAX,
    ensures
        fits(labels@, weights@, mask@, budget as int),
        forall|m: Seq<bool>| #[trigger] fits(labels@, weights@, m, budget as int) ==>
            masked_sum(value_seq(values@), m, m.len() as int) <= masked_sum(value_seq(values@), mask@, mask@.len() as int),
        mask@ == selection_for(labels@, weights@, values@, budget as int),
{
    let ghost l = labels@;
    let ghost w = weights@;
    let ghost v = values@;
    let n = weights.len();
    let g: u64 = common_unit(weights);
    let mut scaled: Vec<u64> = Vec::new();
    let mut total: u128 = 0;
    let mut i: usize = 0;
    while i < n
        invariant
            i <= n == w.len(),
            weights@ == w,
            n <= MAX_ITEMS,
            scaled@.len() == i,
            g > 0 ==> forall|k: int| 0 <= k < n ==> #[trigger] w[k] % g == 0,
            g == 0 ==> forall|k: int| 0 <= k < n ==> #[trigger] w[k] == 0,
            forall|k: int| 0 <= k < i ==> #[trigger] scaled@[k] == if g > 0 { w[k] / g } else { 0 },
            total == masked_sum(weight_seq(scaled@), Seq::new(scaled@.len(), |k: int| true), i as int),
            total <= i * (u64::MAX as int),
        decreases n - i,
    {
        let x: u64 = if g > 0 { weights[i] / g } else { 0 };
        let ghost before = scaled@;
        scaled.push(x);
        proof {
            lemma_masked_sum_same(weight_seq(before), Seq::new(before.len(), |k: int| true), Seq::new(scaled@.len(), |k: int| true), i as int);
            assert forall|k: int| 0 <= k < i implies weight_seq(before)[k] == #[trigger] weight_seq(scaled@)[k] by {}
            lemma_masked_sum_same_values(weight_seq(before), weight_seq(scaled@), Seq::new(scaled@.len(), |k: int| true), i as int);
            assert(i * (u64::MAX as int) + (u64::MAX as int) == (i + 1) * (u64::MAX as int)) by (nonlinear_arith);
            assert((i + 1) * (u64::MAX as int) <= MAX_ITEMS * (u64::MAX as int)) by (nonlinear_arith)
                requires i + 1 <= MAX_ITEMS;
        }
        total = total + x as u128;
        i += 1;
    }
    let unit_cap: u64 = if g > 0 { budget / g } else { 0 };
    let cap: usize = if (unit_cap as u128) <= total { unit_cap as usize } else { total as usize };
    let mask = solve(labels, &scaled, values, cap);
    proof {
        lemma_unit_unique(w, g as int, unit_of(w));
        assert(scaled@ =~= scaled_weights(w, g as int));
        assert(cap == capacity_for(w, budget as int));
        let sw = scaled@;
        let all = Seq::new(sw.len(), |k: int| true);
        assert forall|k: int| 0 <= k < sw.len() implies #[trigger] weight_seq(sw)[k] >= 0 by {}
        assert forall|k: int| 0 <= k < w.len() implies #[trigger] weight_seq(w)[k] >= 0 by {}
        assert forall|m: Seq<bool>| m.len() == n implies
            (masked_sum(weight_seq(w), m, n as int) <= budget <==> #[trigger] masked_sum(weight_seq(sw), m, n as int) <= cap) by {
            lemma_masked_sum_nonneg(weight_seq(sw), m, n as int);
            lemma_masked_sum_at_most_total(weight_seq(sw), m, n as int);
            if g > 0 {
                assert forall|k: int| 0 <= k < w.len() implies #[trigger] sw[k] as int == (w[k] as int) / (g as int) && (w[k] as int) % (g as int) == 0 by {}
                lemma_masked_sum_scaled(w, sw, g as int, m, n as int);
                lemma_scaled_budget(g as int, masked_sum(weight_seq(sw), m, n as int), budget as int);
            } else {
                assert forall|k: int| 0 <= k < n && #[trigger] m[k] implies false || weight_seq(w)[k] == 0 by {}
                lemma_masked_sum_zero_weights(weight_seq(w), m, n as int);
                lemma_masked_sum_zero_weights(weight_seq(sw), m, n as int);
            }
        }
        assert forall|m: Seq<bool>| #[trigger] fits(l, w, m, budget as int) implies
            masked_sum(value_seq(v), m, m.len() as int) <= masked_sum(value_seq(v), mask@, mask@.len() as int) by {
            assert(masked_sum(weight_seq(sw), m, n as int) <= cap);
            assert(labels_below(l, m, n as int));
            lemma_best_value_is_upper_bound(l, sw, v, n as nat, cap as int, m);
        }
    }
    mask
}

proof fn lemma_masked_sum_same_values(xs: Seq<int>, ys: Seq<int>, mask: Seq<bool>, n: int)
    requires
        forall|k: int| 0 <= k < n ==> xs[k] == ys[k],
    ensures
        masked_sum(xs, mask, n) == masked_sum(ys, mask, n),
    decreases n,
{
    if n > 0 {
        lemma_masked_sum_same_values(xs, ys, mask, n - 1);
    }
}

proof fn lemma_masked_sum_zero_weights(xs: Seq<int>, mask: Seq<bool>, n: int)
    requires
        0 <= n <= xs.len(),
        forall|k: int| 0 <= k < xs.len() ==> #[trigger] xs[k] == 0,
    ensures
        masked_sum(xs, mask, n) == 0,
    decreases n,
{
    if n > 0 {
        lemma_masked_sum_zero_weights(xs, mask, n - 1);
    }
}

} // verus!
