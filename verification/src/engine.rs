//! The consumer's side of the engine: the registry, the cache store, the failures
//! that were reported, the furthest position viewed, and the pause gate. All of it
//! is owned by the one thread that drains the channels.

use vstd::prelude::*;
use std::collections::HashSet;
use crate::cache::CacheStore;
use crate::inflight::InFlightSet;
use crate::messages::{CacheEntry, DecodeResult};
use crate::registry::{indexed_in_order, no_fingerprints, ImageEntry, Registry};
use crate::window::{
    compute_window, holds, lemma_plan_is_filtered_window, plan_of, window_of, PRELOAD_WINDOW,
};
use vstd::arithmetic::div_mod::{lemma_mod_self_0, lemma_small_mod, lemma_mod_add_multiples_vanish};
use vstd::set_lib::{lemma_len_subset, lemma_set_disjoint_lens, lemma_subset_equality};

verus! {

broadcast use vstd::std_specs::hash::group_hash_axioms;

/// The two states of the pause gate.
#[derive(Clone, Copy, Debug, PartialEq, Eq, Structural)]
pub enum Mode {
    Active,
    Paused,
}

/// Turns decoded pixels into whatever the display keeps for an image.
pub trait Materializer {
    type Handle;

    /// The handle that this factory makes of `entry`, as it stands before the call.
    spec fn made(&self, entry: CacheEntry) -> Self::Handle;

    fn materialize(&mut self, entry: CacheEntry) -> (handle: Self::Handle)
        ensures
            handle == old(self).made(entry),
    ;
}

/// The materializer that keeps the pixels as they are.
pub struct KeepPixels;

impl Materializer for KeepPixels {
    type Handle = CacheEntry;

    open spec fn made(&self, entry: CacheEntry) -> CacheEntry {
        entry
    }

    fn materialize(&mut self, entry: CacheEntry) -> (handle: CacheEntry) {
        entry
    }
}

/// What the consumer owns.
pub struct Engine<H> {
    registry: Registry,
    cache: CacheStore<H>,
    errors: CacheStore<String>,
    modified: HashSet<usize>,
    furthest_viewed: usize,
    current: usize,
    mode: Mode,
    scan_open: bool,
}

/// The engine as contracts see it.
#[verifier::ext_equal]
pub struct EngineState<H> {
    /// The registry, in order.
    pub entries: Seq<ImageEntry>,
    /// The cache store.
    pub cached: Map<usize, H>,
    /// The failure reported for an index, where one was.
    pub failed: Map<usize, String>,
    /// The indices whose tags were changed since the directory was loaded.
    pub modified: Set<usize>,
    /// The high-water mark of forward navigation.
    pub furthest_viewed: usize,
    /// The index on display.
    pub current: usize,
    /// The pause gate.
    pub mode: Mode,
    /// Whether the channel of a full scan is open.
    pub scan_open: bool,
}

impl<H> EngineState<H> {
    /// The validity of an engine: entries stand at their indices; what is cached or
    /// failed lies inside the registry; no index is both; the two positions lie
    /// inside the registry, or are 0 where it is empty; a scan is open only over a
    /// registry that is not empty.
    pub open spec fn wf(self) -> bool {
        &&& indexed_in_order(self.entries)
        &&& self.entries.len() <= usize::MAX
        &&& self.cached.dom().finite()
        &&& self.failed.dom().finite()
        &&& forall|i: usize| self.cached.contains_key(i) ==> i < self.entries.len()
        &&& forall|i: usize| self.failed.contains_key(i) ==> i < self.entries.len()
        &&& forall|i: usize| !(self.cached.contains_key(i) && self.failed.contains_key(i))
        &&& self.modified.finite()
        &&& forall|i: usize| self.modified.contains(i) ==> i < self.entries.len()
        &&& self.furthest_viewed < self.entries.len() || (self.entries.len() == 0
            && self.furthest_viewed == 0)
        &&& self.current < self.entries.len() || (self.entries.len() == 0 && self.current == 0)
        &&& self.scan_open ==> self.entries.len() > 0
    }

    /// Whether `index` has had its terminal outcome: an image or a failure.
    pub open spec fn settled(self, index: usize) -> bool {
        self.cached.contains_key(index) || self.failed.contains_key(index)
    }

    /// How many indices have had their terminal outcome.
    pub open spec fn handled(self) -> nat {
        self.cached.dom().len() + self.failed.dom().len()
    }

    /// Whether every index of the registry has had its terminal outcome.
    pub open spec fn drained(self) -> bool {
        forall|i: usize| i < self.entries.len() ==> self.settled(i)
    }

    /// The state after a directory of `entries` was loaded.
    pub open spec fn loaded(entries: Seq<ImageEntry>) -> EngineState<H> {
        EngineState {
            entries,
            cached: Map::empty(),
            failed: Map::empty(),
            modified: Set::empty(),
            furthest_viewed: 0,
            current: 0,
            mode: Mode::Active,
            scan_open: entries.len() > 0,
        }
    }

    /// The state after `pause`.
    pub open spec fn paused(self) -> EngineState<H> {
        EngineState { mode: Mode::Paused, ..self }
    }

    /// Whether `resume` asks for a full scan to be started: only from `Paused`, with
    /// a registry that is not empty and no scan channel open.
    pub open spec fn resume_starts_scan(self) -> bool {
        self.mode is Paused && self.entries.len() > 0 && !self.scan_open
    }

    /// The state after `resume`. With an empty registry nothing changes.
    pub open spec fn resumed(self) -> EngineState<H> {
        if self.mode is Paused && self.entries.len() > 0 {
            EngineState { mode: Mode::Active, scan_open: true, ..self }
        } else {
            self
        }
    }

    /// The state after an image for `index` was stored with its fingerprint. An
    /// index outside the registry changes nothing.
    pub open spec fn after_decoded(self, index: usize, handle: H, fingerprint: Vec<u8>) -> EngineState<
        H,
    > {
        if index < self.entries.len() {
            EngineState {
                entries: self.entries.update(
                    index as int,
                    (ImageEntry { fingerprint: Some(fingerprint), ..self.entries[index as int] }),
                ),
                cached: self.cached.insert(index, handle),
                failed: self.failed.remove(index),
                ..self
            }
        } else {
            self
        }
    }

    /// The state after a failure for `index` was reported. The cache store is never
    /// touched; an index outside the registry, or one that is cached, changes nothing.
    pub open spec fn after_error(self, index: usize, message: String) -> EngineState<H> {
        if index < self.entries.len() && !self.cached.contains_key(index) {
            EngineState { failed: self.failed.insert(index, message), ..self }
        } else {
            self
        }
    }

    /// The state after an image for `index` was stored that the consumer decoded
    /// itself, without a fingerprint.
    pub open spec fn after_stored(self, index: usize, handle: H) -> EngineState<H> {
        if index < self.entries.len() {
            EngineState {
                cached: self.cached.insert(index, handle),
                failed: self.failed.remove(index),
                ..self
            }
        } else {
            self
        }
    }

    /// The state after a terminal message was consumed with `factory` at hand: an
    /// image is stored as the handle that the factory makes of its pixels, with its
    /// fingerprint; a failure is recorded.
    pub open spec fn after_result<M: Materializer<Handle = H>>(self, result: DecodeResult, factory: M) -> EngineState<
        H,
    > {
        match result {
            DecodeResult::ImageDecoded { index, width, height, pixels, fingerprint } => {
                self.after_decoded(
                    index,
                    factory.made((CacheEntry { width, height, pixels })),
                    fingerprint,
                )
            },
            DecodeResult::DecodeError { index, message } => self.after_error(index, message),
        }
    }

    /// The state after the user reached `index`: the furthest position never moves
    /// back, and an index outside the registry changes nothing.
    pub open spec fn after_viewed(self, index: usize) -> EngineState<H> {
        if index < self.entries.len() && index > self.furthest_viewed {
            EngineState { furthest_viewed: index, ..self }
        } else {
            self
        }
    }
}

impl<H> View for Engine<H> {
    type V = EngineState<H>;

    closed spec fn view(&self) -> EngineState<H> {
        EngineState {
            entries: self.registry@,
            cached: self.cache@,
            failed: self.errors@,
            modified: self.modified@,
            furthest_viewed: self.furthest_viewed,
            current: self.current,
            mode: self.mode,
            scan_open: self.scan_open,
        }
    }
}

impl<H> Engine<H> {
    /// Whether the engine is valid. Every constructor establishes this and every
    /// method keeps it.
    pub open spec fn wf(&self) -> bool {
        self@.wf()
    }

    /// An engine with nothing loaded: paused, no scan open.
    pub fn new() -> (engine: Self)
        ensures
            engine.wf(),
            engine@.entries.len() == 0,
            engine@.cached == Map::<usize, H>::empty(),
            engine@.failed == Map::<usize, String>::empty(),
            engine@.modified == Set::<usize>::empty(),
            engine@.furthest_viewed == 0,
            engine@.current == 0,
            engine@.mode == Mode::Paused,
            !engine@.scan_open,
    {
        Engine {
            registry: Registry::new(),
            cache: CacheStore::new(),
            errors: CacheStore::new(),
            modified: HashSet::new(),
            furthest_viewed: 0,
            current: 0,
            mode: Mode::Paused,
            scan_open: false,
        }
    }

    /// Loads a directory: the registry is replaced by one entry per `(path, tags)`
    /// pair; the cache store, the failures and the in-flight tracker are emptied;
    /// both positions return to 0, and scheduling is `Active`. The result says whether a
    /// full scan is to be started, which is so whenever the registry is not empty.
    pub fn load(&mut self, sources: Vec<(String, Vec<String>)>, in_flight: &mut InFlightSet) -> (start_scan:
        bool)
        ensures
            final(self).wf(),
            final(self)@ == EngineState::<H>::loaded(final(self)@.entries),
            final(self)@.entries.len() == sources.len(),
            no_fingerprints(final(self)@.entries),
            forall|i: int|
                0 <= i < sources.len() ==> {
                    &&& (#[trigger] final(self)@.entries[i]).path == sources[i].0
                    &&& final(self)@.entries[i].tags == sources[i].1
                },
            final(in_flight)@ == Set::<usize>::empty(),
            start_scan == (sources.len() > 0),
    {
        self.registry.load(sources);
        self.cache.clear();
        self.errors.clear();
        self.modified.clear();
        in_flight.clear();
        self.furthest_viewed = 0;
        self.current = 0;
        self.mode = Mode::Active;
        self.scan_open = self.registry.len() > 0;
        self.scan_open
    }

    /// `Active` to `Paused`. Nothing that was cached, reported or dispatched is
    /// touched.
    pub fn pause(&mut self)
        requires
            old(self).wf(),
        ensures
            final(self).wf(),
            final(self)@ == old(self)@.paused(),
    {
        self.mode = Mode::Paused;
    }

    /// `Paused` to `Active`, where the registry is not empty. The result says
    /// whether a full scan is to be started: never while the channel of one is
    /// still open.
    pub fn resume(&mut self) -> (start_scan: bool)
        requires
            old(self).wf(),
        ensures
            final(self).wf(),
            final(self)@ == old(self)@.resumed(),
            start_scan == old(self)@.resume_starts_scan(),
    {
        if self.registry.len() > 0 && self.mode == Mode::Paused {
            self.mode = Mode::Active;
            if !self.scan_open {
                self.scan_open = true;
                return true;
            }
        }
        false
    }

    /// Records that the channel of the full scan has closed: every worker is done
    /// and every message was received.
    pub fn scan_closed(&mut self)
        requires
            old(self).wf(),
        ensures
            final(self).wf(),
            final(self)@ == (EngineState { scan_open: false, ..old(self)@ }),
    {
        self.scan_open = false;
    }

    /// Whether new chunks and preload windows may be scheduled.
    pub fn allows_scheduling(&self) -> (allowed: bool)
        ensures
            allowed == (self@.mode is Active),
    {
        self.mode == Mode::Active
    }

    /// The state of the pause gate.
    pub fn mode(&self) -> (mode: Mode)
        ensures
            mode == self@.mode,
    {
        self.mode
    }

    /// Whether the channel of a full scan is open.
    pub fn scan_open(&self) -> (open: bool)
        ensures
            open == self@.scan_open,
    {
        self.scan_open
    }

    /// The number of entries in the registry.
    pub fn len(&self) -> (n: usize)
        ensures
            n == self@.entries.len(),
    {
        self.registry.len()
    }

    /// The entry at `index`.
    pub fn entry(&self, index: usize) -> (entry: Option<&ImageEntry>)
        ensures
            index < self@.entries.len() ==> entry == Some(&self@.entries[index as int]),
            index >= self@.entries.len() ==> entry is None,
    {
        self.registry.get(index)
    }

    /// The furthest index that the user has reached.
    pub fn furthest_viewed(&self) -> (index: usize)
        ensures
            index == self@.furthest_viewed,
    {
        self.furthest_viewed
    }

    /// The index on display.
    pub fn current_index(&self) -> (index: usize)
        ensures
            index == self@.current,
    {
        self.current
    }

    /// What is cached for `index`.
    pub fn get_cached(&self, index: usize) -> (handle: Option<&H>)
        ensures
            match handle {
                Some(h) => self@.cached.contains_key(index) && *h == self@.cached[index],
                None => !self@.cached.contains_key(index),
            },
    {
        self.cache.get_cached(index)
    }

    /// The failure that was reported for `index`.
    pub fn error_of(&self, index: usize) -> (message: Option<&String>)
        ensures
            match message {
                Some(m) => self@.failed.contains_key(index) && *m == self@.failed[index],
                None => !self@.failed.contains_key(index),
            },
    {
        self.errors.get_cached(index)
    }
}

/// The indices below `n`.
pub open spec fn below(n: nat) -> Set<usize> {
    Set::new(|i: usize| i < n)
}

proof fn lemma_below_len(n: nat)
    requires
        n <= usize::MAX + 1,
    ensures
        below(n).finite(),
        below(n).len() == n,
    decreases n,
{
    if n == 0 {
        assert(below(0) =~= Set::<usize>::empty());
    } else {
        lemma_below_len((n - 1) as nat);
        assert(below(n) =~= below((n - 1) as nat).insert((n - 1) as usize));
    }
}

impl<H> EngineState<H> {
    /// The state after `next_image`: one step forward, wrapping at the end; the
    /// furthest position follows where the step went past it.
    pub open spec fn after_next(self) -> EngineState<H> {
        if self.entries.len() == 0 {
            self
        } else {
            let current = ((self.current + 1) % (self.entries.len() as int)) as usize;
            EngineState {
                current,
                furthest_viewed: if current > self.furthest_viewed {
                    current
                } else {
                    self.furthest_viewed
                },
                ..self
            }
        }
    }

    /// The state after `previous_image`: one step back, wrapping at the start. The
    /// furthest position stays.
    pub open spec fn after_previous(self) -> EngineState<H> {
        if self.entries.len() == 0 {
            self
        } else {
            EngineState {
                current: ((self.current + self.entries.len() - 1) % (
                self.entries.len() as int)) as usize,
                ..self
            }
        }
    }

    /// The state after the tags of the entry at `index` were replaced: the entry
    /// counts as modified.
    pub open spec fn after_tags(self, index: usize, tags: Vec<String>) -> EngineState<H> {
        if index < self.entries.len() {
            EngineState {
                entries: self.entries.update(
                    index as int,
                    (ImageEntry { tags, ..self.entries[index as int] }),
                ),
                modified: self.modified.insert(index),
                ..self
            }
        } else {
            self
        }
    }

    /// The state after the tags of the entry at `index` were put in another order:
    /// the entry does not count as modified by that.
    pub open spec fn after_arranged(self, index: usize, tags: Vec<String>) -> EngineState<H> {
        if index < self.entries.len() {
            EngineState {
                entries: self.entries.update(
                    index as int,
                    (ImageEntry { tags, ..self.entries[index as int] }),
                ),
                ..self
            }
        } else {
            self
        }
    }

    /// What a preload dispatches while `held` is in flight: nothing while paused,
    /// else the window ahead of the furthest position, without what is cached or
    /// held.
    pub open spec fn preload_plan(self, held: Set<usize>) -> Seq<usize> {
        if self.mode is Active {
            plan_of(
                window_of(
                    self.furthest_viewed as int,
                    self.entries.len() as int,
                    PRELOAD_WINDOW as int,
                ),
                self.cached.dom(),
                held,
            )
        } else {
            Seq::empty()
        }
    }

    /// The handled count never exceeds the registry, and equals it exactly when every
    /// index has had its terminal outcome.
    pub proof fn lemma_handled_bounds(self)
        requires
            self.wf(),
        ensures
            self.handled() <= self.entries.len(),
            self.handled() == self.entries.len() <==> self.drained(),
    {
        let a = self.cached.dom();
        let b = self.failed.dom();
        let all = below(self.entries.len());
        lemma_below_len(self.entries.len());
        assert(a.disjoint(b));
        lemma_set_disjoint_lens(a, b);
        assert((a + b).subset_of(all));
        lemma_len_subset(a + b, all);
        if self.drained() {
            assert forall|i: usize| all.contains(i) implies (a + b).contains(i) by {
                assert(self.settled(i));
            }
            assert(a + b =~= all);
        }
        if self.handled() == self.entries.len() {
            lemma_subset_equality(a + b, all);
            assert forall|i: usize| i < self.entries.len() implies self.settled(i) by {
                assert(all.contains(i));
                assert((a + b).contains(i));
            }
        }
    }
}

impl<H> Engine<H> {
    /// Stores the image that a worker decoded for `index` and writes its fingerprint
    /// into the entry. A failure reported earlier for `index` is dropped. An index
    /// outside the registry changes nothing.
    pub fn apply_decoded(&mut self, index: usize, handle: H, fingerprint: Vec<u8>)
        requires
            old(self).wf(),
        ensures
            final(self).wf(),
            final(self)@ == old(self)@.after_decoded(index, handle, fingerprint),
            final(self)@.handled() >= old(self)@.handled(),
    {
        proof {
            lemma_count_steps(old(self)@, index);
        }
        if index < self.registry.len() {
            self.registry.set_fingerprint(index, fingerprint);
            self.errors.remove(index);
            self.cache.insert(index, handle);
        }
    }

    /// Stores an image that the consumer decoded itself for `index`. No fingerprint is
    /// written.
    pub fn store(&mut self, index: usize, handle: H)
        requires
            old(self).wf(),
        ensures
            final(self).wf(),
            final(self)@ == old(self)@.after_stored(index, handle),
            final(self)@.handled() >= old(self)@.handled(),
    {
        proof {
            lemma_count_steps(old(self)@, index);
        }
        if index < self.registry.len() {
            self.errors.remove(index);
            self.cache.insert(index, handle);
        }
    }

    /// Records the failure that a worker reported for `index`. The cache store is not
    /// touched; where `index` is cached, or outside the registry, nothing changes.
    pub fn apply_error(&mut self, index: usize, message: String)
        requires
            old(self).wf(),
        ensures
            final(self).wf(),
            final(self)@ == old(self)@.after_error(index, message),
            final(self)@.cached == old(self)@.cached,
            final(self)@.handled() >= old(self)@.handled(),
    {
        proof {
            lemma_count_steps(old(self)@, index);
        }
        if index < self.registry.len() && !self.cache.contains(index) {
            self.errors.insert(index, message);
        }
    }

    /// Consumes one terminal message: an image is materialized by `factory` and
    /// stored with its fingerprint, a failure is recorded.
    pub fn apply_result<M: Materializer<Handle = H>>(&mut self, result: DecodeResult, factory: &mut M)
        requires
            old(self).wf(),
        ensures
            final(self).wf(),
            final(self)@.handled() >= old(self)@.handled(),
            final(self)@ == old(self)@.after_result(result, *old(factory)),
    {
        match result {
            DecodeResult::ImageDecoded { index, width, height, pixels, fingerprint } => {
                let handle = factory.materialize(CacheEntry { width, height, pixels });
                self.apply_decoded(index, handle, fingerprint);
            },
            DecodeResult::DecodeError { index, message } => {
                self.apply_error(index, message);
            },
        }
    }

    /// The progress of the scan as a fraction: how many indices have had their
    /// terminal outcome, over how many the registry holds.
    pub fn progress(&self) -> (fraction: (usize, usize))
        requires
            self.wf(),
        ensures
            fraction.0 == self@.handled(),
            fraction.1 == self@.entries.len(),
            fraction.0 <= fraction.1,
            fraction.0 == fraction.1 <==> self@.drained(),
    {
        proof {
            self@.lemma_handled_bounds();
        }
        (self.cache.len() + self.errors.len(), self.registry.len())
    }

    /// Records that the user reached `index`. The furthest position never moves
    /// back.
    pub fn note_viewed(&mut self, index: usize)
        requires
            old(self).wf(),
        ensures
            final(self).wf(),
            final(self)@ == old(self)@.after_viewed(index),
            final(self)@.furthest_viewed >= old(self)@.furthest_viewed,
    {
        if index < self.registry.len() && index > self.furthest_viewed {
            self.furthest_viewed = index;
        }
    }

    /// Moves the display one image forward, wrapping at the end.
    pub fn next_image(&mut self)
        requires
            old(self).wf(),
        ensures
            final(self).wf(),
            final(self)@ == old(self)@.after_next(),
            final(self)@.furthest_viewed >= old(self)@.furthest_viewed,
    {
        let n = self.registry.len();
        if n > 0 {
            proof {
                if self.current + 1 == n {
                    lemma_mod_self_0(n as int);
                } else {
                    lemma_small_mod((self.current + 1) as nat, n as nat);
                }
            }
            self.current = if self.current + 1 == n {
                0
            } else {
                self.current + 1
            };
            if self.current > self.furthest_viewed {
                self.furthest_viewed = self.current;
            }
        }
    }

    /// Moves the display one image back, wrapping at the start.
    pub fn previous_image(&mut self)
        requires
            old(self).wf(),
        ensures
            final(self).wf(),
            final(self)@ == old(self)@.after_previous(),
    {
        let n = self.registry.len();
        if n > 0 {
            proof {
                if self.current == 0 {
                    lemma_small_mod((n - 1) as nat, n as nat);
                } else {
                    lemma_mod_add_multiples_vanish(self.current - 1, n as int);
                    lemma_small_mod((self.current - 1) as nat, n as nat);
                }
            }
            self.current = if self.current == 0 {
                n - 1
            } else {
                self.current - 1
            };
        }
    }

    /// Replaces the tags of the entry at `index` and marks it as modified.
    pub fn set_tags(&mut self, index: usize, tags: Vec<String>)
        requires
            old(self).wf(),
        ensures
            final(self).wf(),
            final(self)@ == old(self)@.after_tags(index, tags),
    {
        if index < self.registry.len() {
            self.registry.set_tags(index, tags);
            self.modified.insert(index);
        }
    }

    /// Replaces the tags of the entry at `index` by an arrangement of them, which
    /// does not mark the entry as modified.
    pub fn arrange_tags(&mut self, index: usize, tags: Vec<String>)
        requires
            old(self).wf(),
        ensures
            final(self).wf(),
            final(self)@ == old(self)@.after_arranged(index, tags),
    {
        self.registry.set_tags(index, tags);
    }

    /// Whether the tags of the entry at `index` were changed since the directory
    /// was loaded.
    pub fn is_modified(&self, index: usize) -> (modified: bool)
        ensures
            modified == self@.modified.contains(index),
    {
        self.modified.contains(&index)
    }

    /// The indices that a preload is to dispatch now, nearest first: the window ahead
    /// of the furthest position, without what is cached or in flight. Empty while
    /// paused. Dispatching still acquires each index: that is the authoritative gate.
    pub fn plan_preload(&self, in_flight: &InFlightSet) -> (plan: Vec<usize>)
        requires
            self.wf(),
        ensures
            plan@ == self@.preload_plan(in_flight@),
    {
        let mut plan: Vec<usize> = Vec::new();
        if self.mode != Mode::Active {
            return plan;
        }
        let window = compute_window(self.furthest_viewed, self.registry.len(), PRELOAD_WINDOW);
        let mut k: usize = 0;
        while k < window.len()
            invariant
                k <= window.len(),
                plan@ == plan_of(window@.subrange(0, k as int), self@.cached.dom(), in_flight@),
            decreases window.len() - k,
        {
            let index = window[k];
            assert(window@.subrange(0, k + 1).drop_last() =~= window@.subrange(0, k as int));
            if !self.cache.contains(index) && !in_flight.contains(index) && !holds(&plan, index) {
                plan.push(index);
            }
            k = k + 1;
        }
        assert(window@.subrange(0, k as int) =~= window@);
        plan
    }
}

/// One message never lowers the handled count.
proof fn lemma_count_steps<H>(s: EngineState<H>, index: usize)
    requires
        s.wf(),
    ensures
        forall|handle: H, fingerprint: Vec<u8>|
            (#[trigger] s.after_decoded(index, handle, fingerprint)).handled() >= s.handled(),
        forall|handle: H| (#[trigger] s.after_stored(index, handle)).handled() >= s.handled(),
        forall|message: String| (#[trigger] s.after_error(index, message)).handled() >= s.handled(),
{
    assert forall|handle: H| (#[trigger] s.after_stored(index, handle)).handled()
        >= s.handled() by {
        let t = s.after_stored(index, handle);
        if index < s.entries.len() {
            assert(t.cached.dom() =~= s.cached.dom().insert(index));
            assert(t.failed.dom() =~= s.failed.dom().remove(index));
        }
    }
    assert forall|handle: H, fingerprint: Vec<u8>|
        (#[trigger] s.after_decoded(index, handle, fingerprint)).handled() >= s.handled() by {
        let t = s.after_decoded(index, handle, fingerprint);
        if index < s.entries.len() {
            assert(t.cached.dom() =~= s.cached.dom().insert(index));
            assert(t.failed.dom() =~= s.failed.dom().remove(index));
        }
    }
    assert forall|message: String| (#[trigger] s.after_error(index, message)).handled()
        >= s.handled() by {
        let t = s.after_error(index, message);
        if index < s.entries.len() && !s.cached.contains_key(index) {
            assert(t.failed.dom() =~= s.failed.dom().insert(index));
        }
    }
}

/// What the display is to do about the image at the current index.
#[derive(Clone, Copy, Debug, PartialEq, Eq, Structural)]
pub enum DisplayAction {
    /// The registry is empty.
    Nothing,
    /// The image is cached: show it.
    ShowCached,
    /// The image is neither cached nor in flight: the consumer decodes it itself,
    /// holding its index, which it releases when done.
    DecodeNow,
    /// A worker holds the index: the image arrives by message.
    Wait,
}

/// The indices `0..n`, in order.
pub open spec fn all_indices(n: nat) -> Seq<usize> {
    Seq::new(n, |i: int| i as usize)
}

impl<H> EngineState<H> {
    /// What a full scan dispatches while `held` is in flight: every index in order,
    /// without what is cached or held.
    pub open spec fn scan_plan(self, held: Set<usize>) -> Seq<usize> {
        plan_of(all_indices(self.entries.len()), self.cached.dom(), held)
    }

    /// What the display does about the current index while `held` is in flight.
    pub open spec fn display_action(self, held: Set<usize>) -> DisplayAction {
        if self.entries.len() == 0 {
            DisplayAction::Nothing
        } else if self.cached.contains_key(self.current) {
            DisplayAction::ShowCached
        } else if held.contains(self.current) {
            DisplayAction::Wait
        } else {
            DisplayAction::DecodeNow
        }
    }
}

impl<H> Engine<H> {
    /// The indices that a full scan is to dispatch, in order: every index that is
    /// neither cached nor in flight.
    pub fn plan_scan(&self, in_flight: &InFlightSet) -> (plan: Vec<usize>)
        requires
            self.wf(),
        ensures
            plan@ == self@.scan_plan(in_flight@),
    {
        let total = self.registry.len();
        let ghost all = all_indices(total as nat);
        let mut plan: Vec<usize> = Vec::new();
        let mut index: usize = 0;
        while index < total
            invariant
                index <= total,
                all == all_indices(total as nat),
                plan@ == plan_of(all.subrange(0, index as int), self@.cached.dom(), in_flight@),
            decreases total - index,
        {
            proof {
                let front = all.subrange(0, index as int);
                assert(all.subrange(0, index + 1).drop_last() =~= front);
                lemma_plan_is_filtered_window(front, self@.cached.dom(), in_flight@);
                if front.contains(index) {
                    let at = choose|at: int| 0 <= at < front.len() && front[at] == index;
                    assert(false);
                }
            }
            if !self.cache.contains(index) && !in_flight.contains(index) {
                plan.push(index);
            }
            index = index + 1;
        }
        assert(all.subrange(0, index as int) =~= all);
        plan
    }

    /// Decides what the display does about the current index. Where the consumer
    /// is to decode the image itself, the index is acquired here, in the same step
    /// as the check.
    pub fn display_action(&self, in_flight: &mut InFlightSet) -> (action: DisplayAction)
        requires
            self.wf(),
        ensures
            action == self@.display_action(old(in_flight)@),
            action is DecodeNow ==> final(in_flight)@ == old(in_flight)@.insert(self@.current),
            !(action is DecodeNow) ==> final(in_flight)@ == old(in_flight)@,
    {
        if self.registry.len() == 0 {
            DisplayAction::Nothing
        } else if self.cache.contains(self.current) {
            DisplayAction::ShowCached
        } else if in_flight.try_acquire(self.current) {
            DisplayAction::DecodeNow
        } else {
            assert(final(in_flight)@ =~= old(in_flight)@);
            DisplayAction::Wait
        }
    }
}

} // verus!
