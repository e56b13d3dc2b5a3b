//! The preload window: which indices to prepare next, looking ahead of the
//! furthest position that the user has reached.

use vstd::prelude::*;
use vstd::arithmetic::div_mod::{lemma_add_mod_noop, lemma_small_mod, lemma_mod_self_0, lemma_mod_bound};

verus! {

/// The number of indices that one preload window looks ahead.
pub const PRELOAD_WINDOW: usize = 5;

/// The `k`-th index of the window that starts behind `furthest_viewed`, wrapping at
/// the end of a registry of `registry_len` entries.
pub open spec fn window_index(furthest_viewed: int, registry_len: int, k: int) -> int {
    (furthest_viewed + 1 + k) % registry_len
}

/// The window as a sequence: empty for an empty registry, else `window_size`
/// indices, nearest first.
pub open spec fn window_of(furthest_viewed: int, registry_len: int, window_size: int) -> Seq<
    usize,
> {
    if registry_len <= 0 {
        Seq::empty()
    } else {
        Seq::new(
            window_size as nat,
            |k: int| window_index(furthest_viewed, registry_len, k) as usize,
        )
    }
}

proof fn lemma_wrap_step(a: int, n: int)
    requires
        n > 0,
    ensures
        (a + 1) % n == if a % n + 1 == n {
            0
        } else {
            a % n + 1
        },
{
    lemma_mod_bound(a, n);
    lemma_add_mod_noop(a, 1, n);
    if n == 1 {
        lemma_mod_self_0(1);
        assert((a % n + 1) == 1);
    } else {
        lemma_small_mod(1, n as nat);
        if a % n + 1 == n {
            lemma_mod_self_0(n);
        } else {
            lemma_small_mod((a % n + 1) as nat, n as nat);
        }
    }
}

/// The indices `furthest_viewed + 1 ..= furthest_viewed + window_size`, each taken
/// modulo `registry_len`, in that order. An empty registry has an empty window.
pub fn compute_window(furthest_viewed: usize, registry_len: usize, window_size: usize) -> (window:
    Vec<usize>)
    ensures
        window@ == window_of(furthest_viewed as int, registry_len as int, window_size as int),
        registry_len > 0 ==> window.len() == window_size,
        forall|k: int| 0 <= k < window.len() ==> window[k] < registry_len,
{
    let mut window: Vec<usize> = Vec::new();
    if registry_len == 0 {
        return window;
    }
    let mut cur: usize = furthest_viewed % registry_len;
    let mut k: usize = 0;
    proof {
        lemma_mod_bound(furthest_viewed as int, registry_len as int);
    }
    while k < window_size
        invariant
            registry_len > 0,
            k <= window_size,
            window.len() == k,
            cur < registry_len,
            cur == (furthest_viewed + k) % (registry_len as int),
            forall|j: int|
                0 <= j < k ==> window[j] == window_index(
                    furthest_viewed as int,
                    registry_len as int,
                    j,
                ),
        decreases window_size - k,
    {
        proof {
            lemma_wrap_step(furthest_viewed + k, registry_len as int);
            lemma_mod_bound(furthest_viewed + k + 1, registry_len as int);
        }
        cur = if cur + 1 == registry_len {
            0
        } else {
            cur + 1
        };
        window.push(cur);
        k = k + 1;
    }
    assert(window@ =~= window_of(furthest_viewed as int, registry_len as int, window_size as int));
    window
}

/// What of `window` is to be dispatched: the indices that are neither cached nor
/// held by a worker, in the window's order, each once.
pub open spec fn plan_of(window: Seq<usize>, cached: Set<usize>, held: Set<usize>) -> Seq<usize>
    decreases window.len(),
{
    if window.len() == 0 {
        Seq::empty()
    } else {
        let rest = plan_of(window.drop_last(), cached, held);
        let last = window.last();
        if cached.contains(last) || held.contains(last) || rest.contains(last) {
            rest
        } else {
            rest.push(last)
        }
    }
}

/// A plan holds exactly the indices of its window that are neither cached nor held,
/// none of them twice.
pub proof fn lemma_plan_is_filtered_window(window: Seq<usize>, cached: Set<usize>, held: Set<usize>)
    ensures
        plan_of(window, cached, held).no_duplicates(),
        plan_of(window, cached, held).len() <= window.len(),
        forall|x: usize|
            plan_of(window, cached, held).contains(x) <==> (window.contains(x) && !cached.contains(
                x,
            ) && !held.contains(x)),
    decreases window.len(),
{
    let plan = plan_of(window, cached, held);
    if window.len() == 0 {
    } else {
        let front = window.drop_last();
        let rest = plan_of(front, cached, held);
        let last = window.last();
        lemma_plan_is_filtered_window(front, cached, held);
        assert forall|x: usize| plan.contains(x) <==> (window.contains(x) && !cached.contains(x)
            && !held.contains(x)) by {
            if window.contains(x) {
                let i = choose|i: int| 0 <= i < window.len() && window[i] == x;
                if i < front.len() {
                    assert(front[i] == x);
                    assert(front.contains(x));
                }
            }
            if front.contains(x) {
                let i = choose|i: int| 0 <= i < front.len() && front[i] == x;
                assert(window[i] == x);
            }
            assert(window[window.len() - 1] == last);
            if plan.contains(x) {
                let i = choose|i: int| 0 <= i < plan.len() && plan[i] == x;
                if i < rest.len() {
                    assert(rest[i] == x);
                    assert(rest.contains(x));
                }
            }
            if rest.contains(x) {
                let i = choose|i: int| 0 <= i < rest.len() && rest[i] == x;
                assert(plan[i] == x);
            }
            if plan.len() > rest.len() {
                assert(plan[plan.len() - 1] == last);
            }
        }
    }
}

/// Whether `window` names `first` at an earlier position than `second`.
pub open spec fn names_before(window: Seq<usize>, first: usize, second: usize) -> bool {
    exists|i: int, j: int|
        0 <= i < j < window.len() && #[trigger] window[i] == first && #[trigger] window[j]
            == second
}

/// The order of a plan is that of its window: of two indices in the plan, the one
/// that comes first is named first by the window.
pub proof fn lemma_plan_keeps_order(window: Seq<usize>, cached: Set<usize>, held: Set<usize>)
    ensures
        forall|a: int, b: int|
            #![trigger plan_of(window, cached, held)[a], plan_of(window, cached, held)[b]]
            0 <= a < b < plan_of(window, cached, held).len() ==> names_before(
                window,
                plan_of(window, cached, held)[a],
                plan_of(window, cached, held)[b],
            ),
    decreases window.len(),
{
    let plan = plan_of(window, cached, held);
    if window.len() == 0 {
    } else {
        let front = window.drop_last();
        let rest = plan_of(front, cached, held);
        lemma_plan_keeps_order(front, cached, held);
        lemma_plan_is_filtered_window(front, cached, held);
        assert forall|a: int, b: int|
            #![trigger plan[a], plan[b]]
            0 <= a < b < plan.len() implies names_before(window, plan[a], plan[b]) by {
            if b < rest.len() {
                assert(names_before(front, rest[a], rest[b]));
                let (i, j) = choose|i: int, j: int|
                    0 <= i < j < front.len() && #[trigger] front[i] == rest[a] && #[trigger] front[j]
                        == rest[b];
                assert(window[i] == plan[a] && window[j] == plan[b]);
            } else {
                assert(rest.contains(rest[a]));
                assert(front.contains(rest[a]));
                let i = choose|i: int| 0 <= i < front.len() && front[i] == rest[a];
                let j = window.len() - 1;
                assert(window[i] == plan[a] && window[j] == plan[b]);
            }
        }
    }
}

/// Whether `values` holds `wanted`.
pub fn holds(values: &Vec<usize>, wanted: usize) -> (found: bool)
    ensures
        found == values@.contains(wanted),
{
    let mut i: usize = 0;
    while i < values.len()
        invariant
            i <= values.len(),
            forall|j: int| 0 <= j < i ==> values[j] != wanted,
        decreases values.len() - i,
    {
        if values[i] == wanted {
            return true;
        }
        i = i + 1;
    }
    false
}

} // verus!
