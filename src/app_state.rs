//! Browsing state over evaluated alternatives: the display order (chosen
//! alternatives first), the cursor and the detail toggle.
use vstd::prelude::*;
use std::time::Duration;
use crate::domain::RiskCalculationResult;
use crate::optimizer::{alternative_label, label_of};

verus! {

/// Some entry of `labels` is `label`.
pub open spec fn has_label(labels: Seq<String>, label: Seq<char>) -> bool {
    exists|k: int| 0 <= k < labels.len() && (#[trigger] labels[k])@ == label
}

pub struct AppState {
    pub results: Vec<RiskCalculationResult>,
    /// Positions in `results`, in the order they are shown.
    pub display_order: Vec<usize>,
    pub total_time: Duration,
    /// Position in `display_order` of the cursor.
    pub selected: usize,
    pub expanded: bool,
    pub optimization_budget: Option<i64>,
    /// Labels `asset_id (alternative_id)` chosen by each objective.
    pub risk_selected: Vec<String>,
    pub priority_selected: Vec<String>,
    pub combined_selected: Vec<String>,
}

fn contains_label(labels: &Vec<String>, label: &String) -> (r: bool)
    ensures
        r == has_label(labels@, label@),
{
    let mut k: usize = 0;
    while k < labels.len()
        invariant
            k <= labels@.len(),
            forall|j: int| 0 <= j < k ==> (#[trigger] labels@[j])@ != label@,
        decreases labels@.len() - k,
    {
        if labels[k] == *label {
            return true;
        }
        k += 1;
    }
    false
}


/// Appends, in increasing order, every position whose flag is `want`.
fn append_matching(flags: &Vec<bool>, want: bool, order: &mut Vec<usize>)
    requires
        forall|a: int| 0 <= a < old(order)@.len() ==> #[trigger] old(order)@[a] < flags@.len(),
    ensures
        old(order)@.len() <= final(order)@.len() <= old(order)@.len() + flags@.len(),
        final(order)@.take(old(order)@.len() as int) == old(order)@,
        forall|a: int| 0 <= a < final(order)@.len() ==> #[trigger] final(order)@[a] < flags@.len(),
        forall|a: int| old(order)@.len() <= a < final(order)@.len() ==> flags@[#[trigger] final(order)@[a] as int] == want,
        forall|a: int, b: int| old(order)@.len() <= a < b < final(order)@.len() ==> #[trigger] final(order)@[a] < #[trigger] final(order)@[b],
        forall|k: usize| (k as int) < flags@.len() && flags@[k as int] == want ==> exists|t: int|
            old(order)@.len() <= t < final(order)@.len() && #[trigger] final(order)@[t] == k,
{
    let ghost start = order@;
    let n = flags.len();
    let mut i: usize = 0;
    while i < n
        invariant
            i <= n == flags@.len(),
            start.len() <= order@.len() <= start.len() + i,
            order@.take(start.len() as int) == start,
            forall|a: int| 0 <= a < start.len() ==> #[trigger] start[a] < n,
            forall|a: int| 0 <= a < order@.len() ==> #[trigger] order@[a] < n,
            forall|a: int| start.len() <= a < order@.len() ==> (#[trigger] order@[a]) < i && flags@[order@[a] as int] == want,
            forall|a: int, b: int| start.len() <= a < b < order@.len() ==> #[trigger] order@[a] < #[trigger] order@[b],
            forall|k: usize| (k as int) < i && flags@[k as int] == want ==> exists|t: int|
                start.len() <= t < order@.len() && #[trigger] order@[t] == k,
        decreases n - i,
    {
        if flags[i] == want {
            let ghost before = order@;
            order.push(i);
            proof {
                assert(order@.take(start.len() as int) =~= before.take(start.len() as int));
                assert forall|k: usize| (k as int) < i + 1 && flags@[k as int] == want implies exists|t: int|
                    start.len() <= t < order@.len() && #[trigger] order@[t] == k by {
                    if (k as int) < i {
                        let t = choose|t: int| start.len() <= t < before.len() && #[trigger] before[t] == k;
                        assert(order@[t] == k);
                    } else {
                        assert(order@[before.len() as int] == k);
                    }
                }
            }
        }
        i += 1;
    }
}

impl AppState {
    /// Result `i` is chosen by one of the objectives.
    pub open spec fn chosen_by_any(self, i: int) -> bool {
        let l = alternative_label(self.results@[i]);
        has_label(self.risk_selected@, l) || has_label(self.priority_selected@, l)
            || has_label(self.combined_selected@, l)
    }

    /// The cursor and the toggle only moved; the data is untouched.
    pub open spec fn same_data(self, other: AppState) -> bool {
        &&& self.results == other.results
        &&& self.display_order == other.display_order
        &&& self.total_time == other.total_time
        &&& self.optimization_budget == other.optimization_budget
        &&& self.risk_selected == other.risk_selected
        &&& self.priority_selected == other.priority_selected
        &&& self.combined_selected == other.combined_selected
    }

    /// The last cursor position (zero when there is nothing to show).
    pub open spec fn last_position(self) -> int {
        if self.display_order@.len() == 0 { 0 } else { self.display_order@.len() - 1 }
    }

    pub fn new(results: Vec<RiskCalculationResult>, total_time: Duration) -> (r: Self)
        ensures
            r.results == results,
            r.total_time == total_time,
            r.display_order@.len() == results@.len(),
            forall|i: int| 0 <= i < results@.len() ==> r.display_order@[i] == i,
            r.selected == 0,
            !r.expanded,
            r.optimization_budget is None,
            r.risk_selected@.len() == 0,
            r.priority_selected@.len() == 0,
            r.combined_selected@.len() == 0,
    {
        let mut display_order: Vec<usize> = Vec::new();
        let mut i: usize = 0;
        while i < results.len()
            invariant
                i <= results@.len(),
                display_order@.len() == i,
                forall|k: int| 0 <= k < i ==> display_order@[k] == k,
            decreases results@.len() - i,
        {
            display_order.push(i);
            i += 1;
        }
        AppState {
            results,
            display_order,
            total_time,
            selected: 0,
            expanded: false,
            optimization_budget: None,
            risk_selected: Vec::new(),
            priority_selected: Vec::new(),
            combined_selected: Vec::new(),
        }
    }

    /// Browsing state after the three selections: alternatives chosen by any
    /// objective come first, each part in input order.
    pub fn with_optimization(
        results: Vec<RiskCalculationResult>,
        total_time: Duration,
        risk_alternatives: Vec<String>,
        priority_alternatives: Vec<String>,
        combined_alternatives: Vec<String>,
        budget: i64,
    ) -> (r: Self)
        ensures
            r.results == results,
            r.total_time == total_time,
            r.risk_selected == risk_alternatives,
            r.priority_selected == priority_alternatives,
            r.combined_selected == combined_alternatives,
            r.optimization_budget == Some(budget),
            r.selected == 0,
            !r.expanded,
            r.display_order@.len() == results@.len(),
            forall|k: usize| (k as int) < results@.len() ==> #[trigger] r.display_order@.contains(k),
            forall|a: int| 0 <= a < results@.len() ==> #[trigger] r.display_order@[a] < results@.len(),
            forall|a: int, b: int| #![trigger r.display_order@[a], r.display_order@[b]] 0 <= a < b < results@.len() ==> {
                let x = r.display_order@[a] as int;
                let y = r.display_order@[b] as int;
                (r.chosen_by_any(x) && !r.chosen_by_any(y)) || ((r.chosen_by_any(x) == r.chosen_by_any(y)) && x < y)
            },
    {
        let mut state = AppState {
            results,
            display_order: Vec::new(),
            total_time,
            selected: 0,
            expanded: false,
            optimization_budget: Some(budget),
            risk_selected: risk_alternatives,
            priority_selected: priority_alternatives,
            combined_selected: combined_alternatives,
        };
        let n = state.results.len();
        let mut flags: Vec<bool> = Vec::new();
        let mut i: usize = 0;
        while i < n
            invariant
                i <= n == state.results@.len(),
                flags@.len() == i,
                forall|k: int| 0 <= k < i ==> #[trigger] flags@[k] == state.chosen_by_any(k),
            decreases n - i,
        {
            let f = state.is_selected_by_any(&state.results[i]);
            flags.push(f);
            i += 1;
        }
        let mut order: Vec<usize> = Vec::new();
        append_matching(&flags, true, &mut order);
        let front: usize = order.len();
        let ghost mid = order@;
        append_matching(&flags, false, &mut order);
        proof {
            assert forall|a: int| 0 <= a < front implies #[trigger] order@[a] == mid[a] by {
                assert(order@.take(front as int)[a] == order@[a]);
            }
            assert forall|a: int, b: int| #![trigger order@[a], order@[b]] 0 <= a < b < order@.len() implies {
                let x = order@[a] as int;
                let y = order@[b] as int;
                (flags@[x] && !flags@[y]) || (flags@[x] == flags@[y] && x < y)
            } by {
                if a < front && b >= front {
                    assert(order@[a] == mid[a]);
                    assert(flags@[order@[a] as int]);
                    assert(!flags@[order@[b] as int]);
                } else if b < front {
                    assert(order@[a] == mid[a]);
                    assert(order@[b] == mid[b]);
                    assert(mid[a] < mid[b]);
                }
            }
            assert forall|k: usize| (k as int) < n implies #[trigger] order@.contains(k) by {
                if flags@[k as int] {
                    let t = choose|t: int| 0 <= t < mid.len() && #[trigger] mid[t] == k;
                    assert(order@[t] == k);
                } else {
                    let t = choose|t: int| front <= t < order@.len() && #[trigger] order@[t] == k;
                    assert(order@[t] == k);
                }
            }
            assert forall|a: int, b: int| 0 <= a < b < order@.len() implies #[trigger] order@[a] != #[trigger] order@[b] by {
                let x = order@[a] as int;
                let y = order@[b] as int;
                assert((flags@[x] && !flags@[y]) || (flags@[x] == flags@[y] && x < y));
            }
            lemma_distinct_bounded_len(order@, n as int);
        }
        state.display_order = order;
        state
    }

    /// Whether the risk-reduction selection chose `result`.
    pub fn is_selected_by_risk(&self, result: &RiskCalculationResult) -> (r: bool)
        ensures
            r == has_label(self.risk_selected@, alternative_label(*result)),
    {
        let key = label_of(result);
        contains_label(&self.risk_selected, &key)
    }

    /// Whether the priority selection chose `result`.
    pub fn is_selected_by_priority(&self, result: &RiskCalculationResult) -> (r: bool)
        ensures
            r == has_label(self.priority_selected@, alternative_label(*result)),
    {
        let key = label_of(result);
        contains_label(&self.priority_selected, &key)
    }

    /// Whether the combined selection chose `result`.
    pub fn is_selected_by_combined(&self, result: &RiskCalculationResult) -> (r: bool)
        ensures
            r == has_label(self.combined_selected@, alternative_label(*result)),
    {
        let key = label_of(result);
        contains_label(&self.combined_selected, &key)
    }

    /// Whether any of the three selections chose `result`.
    pub fn is_selected_by_any(&self, result: &RiskCalculationResult) -> (r: bool)
        ensures
            r == (has_label(self.risk_selected@, alternative_label(*result))
                || has_label(self.priority_selected@, alternative_label(*result))
                || has_label(self.combined_selected@, alternative_label(*result))),
    {
        self.is_selected_by_risk(result) || self.is_selected_by_priority(result)
            || self.is_selected_by_combined(result)
    }

    /// Moves the cursor down one row, stopping at the last.
    pub fn select_next(&mut self)
        ensures
            final(self).same_data(*old(self)),
            final(self).expanded == old(self).expanded,
            final(self).selected == if old(self).selected < old(self).last_position() {
                old(self).selected + 1
            } else {
                old(self).selected as int
            },
    {
        let last: usize = if self.display_order.len() == 0 { 0 } else { self.display_order.len() - 1 };
        if self.selected < last {
            self.selected += 1;
        }
    }

    /// Moves the cursor up one row, stopping at the first.
    pub fn select_previous(&mut self)
        ensures
            final(self).same_data(*old(self)),
            final(self).expanded == old(self).expanded,
            final(self).selected == if old(self).selected > 0 {
                old(self).selected - 1
            } else {
                0
            },
    {
        if self.selected > 0 {
            self.selected -= 1;
        }
    }

    /// Moves the cursor down a page, stopping at the last row.
    pub fn page_down(&mut self, page_size: usize)
        requires
            old(self).selected + page_size <= usize::MAX,
        ensures
            final(self).same_data(*old(self)),
            final(self).expanded == old(self).expanded,
            final(self).selected == if old(self).selected + page_size <= old(self).last_position() {
                old(self).selected + page_size
            } else {
                old(self).last_position()
            },
    {
        let last: usize = if self.display_order.len() == 0 { 0 } else { self.display_order.len() - 1 };
        let target: usize = self.selected + page_size;
        self.selected = if target <= last { target } else { last };
    }

    /// Moves the cursor up a page, stopping at the first row.
    pub fn page_up(&mut self, page_size: usize)
        ensures
            final(self).same_data(*old(self)),
            final(self).expanded == old(self).expanded,
            final(self).selected == if old(self).selected >= page_size {
                old(self).selected - page_size
            } else {
                0
            },
    {
        self.selected = if self.selected >= page_size { self.selected - page_size } else { 0 };
    }

    /// Switches between the summary and the detailed view.
    pub fn toggle_expand(&mut self)
        ensures
            final(self).same_data(*old(self)),
            final(self).selected == old(self).selected,
            final(self).expanded == !old(self).expanded,
    {
        self.expanded = !self.expanded;
    }

    /// The result under the cursor, if there is one.
    pub fn get_selected(&self) -> (r: Option<&RiskCalculationResult>)
        ensures
            r == if self.selected < self.display_order@.len()
                && self.display_order@[self.selected as int] < self.results@.len() {
                Some(&self.results@[self.display_order@[self.selected as int] as int])
            } else {
                None
            },
    {
        if self.selected < self.display_order.len() {
            let idx: usize = self.display_order[self.selected];
            if idx < self.results.len() {
                return Some(&self.results[idx]);
            }
        }
        None
    }
}

/// A sequence of distinct positions below `n` that holds each of them has length `n`.
proof fn lemma_distinct_bounded_len(s: Seq<usize>, n: int)
    requires
        0 <= n <= usize::MAX,
        forall|a: int| 0 <= a < s.len() ==> #[trigger] s[a] < n,
        forall|a: int, b: int| 0 <= a < b < s.len() ==> #[trigger] s[a] != #[trigger] s[b],
        forall|k: usize| (k as int) < n ==> #[trigger] s.contains(k),
    ensures
        s.len() == n,
{
    let set_s = s.to_set();
    let full = Set::new(|k: usize| (k as int) < n);
    assert(set_s =~= full) by {
        assert forall|k: usize| set_s.contains(k) implies full.contains(k) by {
            let t = choose|t: int| 0 <= t < s.len() && s[t] == k;
        }
        assert forall|k: usize| full.contains(k) implies set_s.contains(k) by {
            assert(s.contains(k));
        }
    }
    s.unique_seq_to_set();
    assert(full =~= Set::new(|k: usize| 0 <= k < n));
    lemma_range_set_len(n);
}

proof fn lemma_range_set_len(n: int)
    requires
        0 <= n <= usize::MAX,
    ensures
        Set::new(|k: usize| 0 <= k < n).finite(),
        Set::new(|k: usize| 0 <= k < n).len() == n,
    decreases n,
{
    if n == 0 {
        assert(Set::new(|k: usize| 0 <= k < n) =~= Set::empty());
    } else {
        lemma_range_set_len(n - 1);
        assert(Set::new(|k: usize| 0 <= k < n) =~= Set::new(|k: usize| 0 <= k < n - 1).insert((n - 1) as usize));
    }
}

} // verus!
