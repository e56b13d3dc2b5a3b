//! What a scan leaves behind: the laws of the engine over whole runs of terminal
//! messages, and over the pause gate.

use vstd::prelude::*;
use crate::engine::EngineState;
use crate::worker::{is_job_output, lemma_one_terminal_message, sent_of, Sent, WorkerOutput};

verus! {

/// A terminal message as the consumer applies it: an image already materialized,
/// or a failure.
pub enum Outcome<H> {
    Stored { index: usize, handle: H, fingerprint: Vec<u8> },
    Failed { index: usize, message: String },
}

impl<H> Outcome<H> {
    /// The index that the outcome is about.
    pub open spec fn index(self) -> usize {
        match self {
            Outcome::Stored { index, .. } => index,
            Outcome::Failed { index, .. } => index,
        }
    }
}

/// Whether some message of `outcomes` is about `index`.
pub open spec fn names<H>(outcomes: Seq<Outcome<H>>, index: usize) -> bool {
    exists|k: int| 0 <= k < outcomes.len() && (#[trigger] outcomes[k]).index() == index
}

impl<H> EngineState<H> {
    /// The state after one terminal message.
    pub open spec fn after_outcome(self, outcome: Outcome<H>) -> EngineState<H> {
        match outcome {
            Outcome::Stored { index, handle, fingerprint } => self.after_decoded(
                index,
                handle,
                fingerprint,
            ),
            Outcome::Failed { index, message } => self.after_error(index, message),
        }
    }

    /// The state after the messages of `outcomes`, applied in the order received.
    pub open spec fn after_all(self, outcomes: Seq<Outcome<H>>) -> EngineState<H>
        decreases outcomes.len(),
    {
        if outcomes.len() == 0 {
            self
        } else {
            self.after_all(outcomes.drop_last()).after_outcome(outcomes.last())
        }
    }

    /// One terminal message keeps the engine valid, keeps the registry's size,
    /// settles its own index where that lies in the registry, unsettles none, and
    /// never lowers the handled count.
    pub proof fn lemma_outcome_step(self, outcome: Outcome<H>)
        requires
            self.wf(),
        ensures
            self.after_outcome(outcome).wf(),
            self.after_outcome(outcome).entries.len() == self.entries.len(),
            outcome.index() < self.entries.len() ==> self.after_outcome(outcome).settled(
                outcome.index(),
            ),
            forall|i: usize| self.settled(i) ==> self.after_outcome(outcome).settled(i),
            self.after_outcome(outcome).handled() >= self.handled(),
    {
        let t = self.after_outcome(outcome);
        let index = outcome.index();
        match outcome {
            Outcome::Stored { index, handle, fingerprint } => {
                if index < self.entries.len() {
                    assert(t.cached.dom() =~= self.cached.dom().insert(index));
                    assert(t.failed.dom() =~= self.failed.dom().remove(index));
                }
            },
            Outcome::Failed { index, message } => {
                if index < self.entries.len() && !self.cached.contains_key(index) {
                    assert(t.failed.dom() =~= self.failed.dom().insert(index));
                }
            },
        }
    }

    /// The progress fraction never decreases over the lifetime of a scan: whatever
    /// messages arrive, in whatever order, the handled count after more of them is
    /// at least the count after fewer, and the registry's size stays.
    pub proof fn lemma_progress_never_decreases(self, outcomes: Seq<Outcome<H>>, fewer: int)
        requires
            self.wf(),
            0 <= fewer <= outcomes.len(),
        ensures
            self.after_all(outcomes).wf(),
            self.after_all(outcomes.take(fewer)).wf(),
            self.after_all(outcomes).entries.len() == self.entries.len(),
            self.after_all(outcomes.take(fewer)).handled() <= self.after_all(outcomes).handled(),
            self.after_all(outcomes).handled() <= self.entries.len(),
        decreases outcomes.len(),
    {
        if outcomes.len() == 0 {
            assert(outcomes.take(fewer) =~= outcomes);
        } else if fewer == outcomes.len() {
            assert(outcomes.take(fewer) =~= outcomes);
            self.lemma_progress_never_decreases(outcomes.drop_last(), 0);
            self.after_all(outcomes.drop_last()).lemma_outcome_step(outcomes.last());
        } else {
            let front = outcomes.drop_last();
            assert(front.take(fewer) =~= outcomes.take(fewer));
            self.lemma_progress_never_decreases(front, fewer);
            self.after_all(front).lemma_outcome_step(outcomes.last());
        }
        self.after_all(outcomes).lemma_handled_bounds();
    }

    /// An index that a message of the run names is settled after the run, and an
    /// index that was settled before stays so.
    pub proof fn lemma_named_index_settles(self, outcomes: Seq<Outcome<H>>, k: int)
        requires
            self.wf(),
            0 <= k < outcomes.len(),
            outcomes[k].index() < self.entries.len(),
        ensures
            self.after_all(outcomes).settled(outcomes[k].index()),
        decreases outcomes.len(),
    {
        let front = outcomes.drop_last();
        self.lemma_progress_never_decreases(front, 0);
        self.after_all(front).lemma_outcome_step(outcomes.last());
        if k < outcomes.len() - 1 {
            self.lemma_named_index_settles(front, k);
            assert(front[k] == outcomes[k]);
        }
    }

    /// Once the scan has drained, every index of the registry has exactly one terminal
    /// outcome: where each index is named by some message of the run, then after the
    /// run each index is cached or has a failure on record, never both and never
    /// neither, and the progress fraction is exactly one.
    pub proof fn lemma_drained_scan_settles_every_index(self, outcomes: Seq<Outcome<H>>)
        requires
            self.wf(),
            forall|i: usize| i < self.entries.len() ==> #[trigger] names(outcomes, i),
        ensures
            self.after_all(outcomes).wf(),
            self.after_all(outcomes).entries.len() == self.entries.len(),
            forall|i: usize|
                i < self.entries.len() ==> (self.after_all(outcomes).cached.contains_key(i)
                    != self.after_all(outcomes).failed.contains_key(i)),
            self.after_all(outcomes).drained(),
            self.after_all(outcomes).handled() == self.entries.len(),
    {
        let t = self.after_all(outcomes);
        self.lemma_progress_never_decreases(outcomes, 0);
        assert forall|i: usize| i < self.entries.len() implies t.settled(i) by {
            assert(names(outcomes, i));
            let k = choose|k: int| 0 <= k < outcomes.len() && (#[trigger] outcomes[k]).index() == i;
            self.lemma_named_index_settles(outcomes, k);
        }
        t.lemma_handled_bounds();
        assert forall|i: usize| i < self.entries.len() implies (t.cached.contains_key(i)
            != t.failed.contains_key(i)) by {
            assert(t.settled(i));
            assert(!(t.cached.contains_key(i) && t.failed.contains_key(i)));
        }
    }

    /// Within one loaded directory the furthest position never moves back and the
    /// registry keeps its size: whatever the consumer does short of loading another
    /// directory, be it a message applied, a step forward or back, a position
    /// reported, a pause or a resume.
    pub proof fn lemma_furthest_and_size_are_kept(self, outcome: Outcome<H>, index: usize)
        requires
            self.wf(),
        ensures
            self.after_outcome(outcome).furthest_viewed == self.furthest_viewed,
            self.after_outcome(outcome).entries.len() == self.entries.len(),
            self.after_next().furthest_viewed >= self.furthest_viewed,
            self.after_next().entries == self.entries,
            self.after_next().wf(),
            self.after_previous().furthest_viewed == self.furthest_viewed,
            self.after_previous().entries == self.entries,
            self.after_previous().wf(),
            self.after_viewed(index).furthest_viewed >= self.furthest_viewed,
            self.after_viewed(index).entries == self.entries,
            self.after_viewed(index).wf(),
            self.paused().furthest_viewed == self.furthest_viewed,
            self.paused().entries == self.entries,
            self.resumed().furthest_viewed == self.furthest_viewed,
            self.resumed().entries == self.entries,
    {
        self.lemma_outcome_step(outcome);
        let n = self.entries.len() as int;
        if n > 0 {
            vstd::arithmetic::div_mod::lemma_mod_bound(self.current + 1, n);
            vstd::arithmetic::div_mod::lemma_mod_bound(self.current + n - 1, n);
        }
    }

    /// What is cached or in flight is never dispatched again: neither a preload nor
    /// a full scan names an index that is cached or held, and neither names an
    /// index twice or one outside the registry.
    pub proof fn lemma_plans_leave_out_what_is_taken(self, held: Set<usize>)
        requires
            self.wf(),
        ensures
            self.preload_plan(held).no_duplicates(),
            self.scan_plan(held).no_duplicates(),
            forall|x: usize|
                #[trigger] self.preload_plan(held).contains(x) ==> !held.contains(x)
                    && !self.cached.contains_key(x) && x < self.entries.len(),
            forall|x: usize|
                #[trigger] self.scan_plan(held).contains(x) <==> (x < self.entries.len()
                    && !held.contains(x) && !self.cached.contains_key(x)),
    {
        let n = self.entries.len();
        let window = crate::window::window_of(
            self.furthest_viewed as int,
            n as int,
            crate::window::PRELOAD_WINDOW as int,
        );
        let all = crate::engine::all_indices(n);
        crate::window::lemma_plan_is_filtered_window(window, self.cached.dom(), held);
        crate::window::lemma_plan_is_filtered_window(all, self.cached.dom(), held);
        assert forall|x: usize| window.contains(x) implies x < n by {
            let k = choose|k: int| 0 <= k < window.len() && window[k] == x;
            vstd::arithmetic::div_mod::lemma_mod_bound(self.furthest_viewed + 1 + k, n as int);
        }
        assert forall|x: usize| all.contains(x) <==> x < n by {
            if x < n {
                assert(all[x as int] == x);
            }
            if all.contains(x) {
                let k = choose|k: int| 0 <= k < all.len() && all[k] == x;
                assert(all[k] == k as usize);
            }
        }
        assert forall|x: usize| #[trigger]
            self.scan_plan(held).contains(x) <==> (x < self.entries.len() && !held.contains(x)
                && !self.cached.contains_key(x)) by {
            assert(self.scan_plan(held).contains(x) <==> (all.contains(x)
                && !self.cached.dom().contains(x) && !held.contains(x)));
        }
    }

    /// A pause followed at once by a resume, while the channel of the full scan is
    /// open, starts no second scan and leaves the engine as it was: what is cached,
    /// what has failed and what a preload would dispatch are the same, and a preload
    /// never names an index that is in flight or cached.
    pub proof fn lemma_pause_resume_duplicates_nothing(self, held: Set<usize>)
        requires
            self.wf(),
            self.mode is Active,
            self.scan_open,
        ensures
            !self.paused().resume_starts_scan(),
            self.paused().resumed() == self,
            self.paused().preload_plan(held).len() == 0,
            self.paused().resumed().preload_plan(held) == self.preload_plan(held),
            forall|x: usize|
                self.preload_plan(held).contains(x) ==> !held.contains(x)
                    && !self.cached.contains_key(x),
    {
        crate::window::lemma_plan_is_filtered_window(
            crate::window::window_of(
                self.furthest_viewed as int,
                self.entries.len() as int,
                crate::window::PRELOAD_WINDOW as int,
            ),
            self.cached.dom(),
            held,
        );
        assert(self.paused().resumed() =~= self);
    }

    /// Loading a directory leaves nothing of the one before: whatever was cached or
    /// had failed, no index is cached or failed afterwards, both positions are 0,
    /// and the new state is valid.
    pub proof fn lemma_load_clears(entries: Seq<crate::registry::ImageEntry>, k: usize)
        requires
            crate::registry::indexed_in_order(entries),
            entries.len() <= usize::MAX,
        ensures
            EngineState::<H>::loaded(entries).wf(),
            !EngineState::<H>::loaded(entries).cached.contains_key(k),
            !EngineState::<H>::loaded(entries).failed.contains_key(k),
            EngineState::<H>::loaded(entries).furthest_viewed == 0,
            EngineState::<H>::loaded(entries).handled() == 0,
    {
    }
}

/// How many terminal messages about `index` the messages of `channel` hold.
pub open spec fn results_about(channel: Seq<Sent>, index: usize) -> nat
    decreases channel.len(),
{
    if channel.len() == 0 {
        0
    } else {
        results_about(channel.drop_last(), index) + match channel.last() {
            Sent::Result(result) => if result.index() == index {
                1nat
            } else {
                0nat
            },
            Sent::Progress(_) => 0nat,
        }
    }
}

/// What a channel receives of jobs that run one after another: the messages of
/// each, in its order.
pub open spec fn channel_of(outputs: Seq<WorkerOutput>) -> Seq<Sent>
    decreases outputs.len(),
{
    if outputs.len() == 0 {
        Seq::empty()
    } else {
        channel_of(outputs.drop_last()) + sent_of(outputs.last().events@, outputs.last().result)
    }
}

/// The terminal messages of two runs of messages add up.
pub proof fn lemma_results_add_up(first: Seq<Sent>, second: Seq<Sent>, index: usize)
    ensures
        results_about(first + second, index) == results_about(first, index) + results_about(
            second,
            index,
        ),
    decreases second.len(),
{
    if second.len() == 0 {
        assert(first + second =~= first);
    } else {
        lemma_results_add_up(first, second.drop_last(), index);
        assert((first + second).drop_last() =~= first + second.drop_last());
        assert((first + second).last() == second.last());
    }
}

proof fn lemma_progress_holds_no_result(channel: Seq<Sent>, index: usize)
    requires
        forall|k: int| 0 <= k < channel.len() ==> (#[trigger] channel[k]) is Progress,
    ensures
        results_about(channel, index) == 0,
    decreases channel.len(),
{
    if channel.len() > 0 {
        assert(channel[channel.len() - 1] is Progress);
        lemma_progress_holds_no_result(channel.drop_last(), index);
    }
}

/// A job sends exactly one terminal message about its own index, and none about
/// any other.
pub proof fn lemma_job_sends_one_result(output: WorkerOutput, own: usize, index: usize)
    requires
        is_job_output(output, own),
    ensures
        results_about(sent_of(output.events@, output.result), index) == if index == own {
            1nat
        } else {
            0nat
        },
{
    lemma_one_terminal_message(output, own);
    let events = output.events@;
    let before = Seq::new((events.len() - 1) as nat, |k: int| Sent::Progress(events[k]));
    let result = seq![Sent::Result(output.result)];
    let behind = seq![Sent::Progress(events.last())];
    assert(sent_of(events, output.result) =~= before + result + behind);
    lemma_progress_holds_no_result(before, index);
    lemma_progress_holds_no_result(behind, index);
    assert(result.drop_last() =~= Seq::empty());
    assert(results_about(result, index) == if index == own {
        1nat
    } else {
        0nat
    }) by {
        assert(result.last() == Sent::Result(output.result));
        assert(results_about(result.drop_last(), index) == 0);
    }
    lemma_results_add_up(before, result, index);
    lemma_results_add_up(before + result, behind, index);
}

/// What the channel of a scan receives: where the jobs of `plan` run, each once and
/// whatever the outcome of the others, the channel holds exactly one terminal
/// message for every index of the plan and none for any other index. For the plan
/// of a full scan after a load these are the indices of the registry, each once,
/// and no index beyond it.
pub proof fn lemma_scan_sends_one_result_each(outputs: Seq<WorkerOutput>, plan: Seq<usize>, index: usize)
    requires
        outputs.len() == plan.len(),
        plan.no_duplicates(),
        forall|k: int| 0 <= k < plan.len() ==> is_job_output(#[trigger] outputs[k], plan[k]),
    ensures
        results_about(channel_of(outputs), index) == if plan.contains(index) {
            1nat
        } else {
            0nat
        },
    decreases outputs.len(),
{
    if outputs.len() > 0 {
        let last = plan.len() - 1;
        let front = plan.drop_last();
        assert(is_job_output(outputs[last], plan[last]));
        assert forall|k: int| 0 <= k < front.len() implies is_job_output(
            #[trigger] outputs.drop_last()[k],
            front[k],
        ) by {
            assert(is_job_output(outputs[k], plan[k]));
        }
        lemma_scan_sends_one_result_each(outputs.drop_last(), front, index);
        lemma_job_sends_one_result(outputs.last(), plan[last], index);
        lemma_results_add_up(
            channel_of(outputs.drop_last()),
            sent_of(outputs.last().events@, outputs.last().result),
            index,
        );
        if front.contains(index) {
            let k = choose|k: int| 0 <= k < front.len() && front[k] == index;
            assert(plan[k] == index);
            assert(plan[k] != plan[last]);
        }
        if plan.contains(index) && index != plan[last] {
            let k = choose|k: int| 0 <= k < plan.len() && plan[k] == index;
            assert(front[k] == index);
        }
        if index == plan[last] {
            assert(plan[last] == index);
        }
    }
}

} // verus!
