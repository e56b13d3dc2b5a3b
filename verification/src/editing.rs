//! Tag editing over the loaded directory: the rules of tag lists applied to the
//! image on display, or to every image, with a record of what was modified.

use vstd::prelude::*;
use crate::engine::{Engine, EngineState};
use crate::registry::ImageEntry;
use crate::sorting::{
    frequencies_of, is_sorted_list, is_sorted_table, rows, sort_tags, sorted_frequencies,
    table_kind, table_order, SortType,
};
use crate::tags::{
    add_tag, add_unique, apply_activation_tag, contains_tag, count_occurrences, occurrences,
    remove_duplicates, remove_tag, with_activation, with_added, without, without_repeats,
};
use crate::text::texts_of;

verus! {

/// Whether `after` is `before` with its tags replaced by a list of the texts
/// `tags`.
pub open spec fn retagged(before: ImageEntry, after: ImageEntry, tags: Seq<Seq<char>>) -> bool {
    &&& after.index == before.index
    &&& after.path == before.path
    &&& after.fingerprint == before.fingerprint
    &&& texts_of(after.tags@) == tags
}

/// Whether `after` is `before` with its tags put in the order `kind`.
pub open spec fn resorted(before: ImageEntry, after: ImageEntry, kind: SortType) -> bool {
    &&& after.index == before.index
    &&& after.path == before.path
    &&& after.fingerprint == before.fingerprint
    &&& is_sorted_list(texts_of(after.tags@), texts_of(before.tags@), kind)
}

/// Whether `after` differs from `before` in tags and in what is modified at most.
pub open spec fn same_but_tags<H>(before: EngineState<H>, after: EngineState<H>) -> bool {
    &&& after.entries.len() == before.entries.len()
    &&& after.cached == before.cached
    &&& after.failed == before.failed
    &&& after.furthest_viewed == before.furthest_viewed
    &&& after.current == before.current
    &&& after.mode == before.mode
    &&& after.scan_open == before.scan_open
}

/// Whether every entry but the one at `index` is in `after` as it was in `before`.
pub open spec fn others_kept<H>(before: EngineState<H>, after: EngineState<H>, index: int) -> bool {
    forall|i: int|
        0 <= i < before.entries.len() && i != index ==> #[trigger] after.entries[i]
            == before.entries[i]
}

/// The tags of entry `i` as texts.
pub open spec fn tags_at<H>(state: EngineState<H>, i: int) -> Seq<Seq<char>> {
    texts_of(state.entries[i].tags@)
}

/// How many of the first `upto` entries hold `tag`.
pub open spec fn holders<H>(state: EngineState<H>, tag: Seq<char>, upto: int) -> nat
    decreases upto,
{
    if upto <= 0 {
        0
    } else {
        holders(state, tag, upto - 1) + if tags_at(state, upto - 1).contains(tag) {
            1nat
        } else {
            0nat
        }
    }
}

proof fn lemma_holders_bound<H>(state: EngineState<H>, tag: Seq<char>, upto: int)
    requires
        0 <= upto,
    ensures
        holders(state, tag, upto) <= upto,
    decreases upto,
{
    if upto > 0 {
        lemma_holders_bound(state, tag, upto - 1);
    }
}

impl<H> Engine<H> {
    /// The tags of the entry at `index`, or none for an index outside the registry.
    pub fn tags(&self, index: usize) -> (tags: Option<&Vec<String>>)
        ensures
            index < self@.entries.len() ==> tags == Some(&self@.entries[index as int].tags),
            index >= self@.entries.len() ==> tags is None,
    {
        match self.entry(index) {
            Some(entry) => Some(&entry.tags),
            None => None,
        }
    }

    /// Adds `tag` to the image on display, at the front or at the end, and drops
    /// repeats. The image counts as modified. Without images nothing happens.
    pub fn add_tag_to_current(&mut self, tag: &String, prepend: bool)
        requires
            old(self).wf(),
        ensures
            final(self).wf(),
            same_but_tags(old(self)@, final(self)@),
            old(self)@.entries.len() == 0 ==> final(self)@ == old(self)@,
            old(self)@.entries.len() > 0 ==> {
                &&& retagged(
                    old(self)@.entries[old(self)@.current as int],
                    final(self)@.entries[old(self)@.current as int],
                    with_added(tags_at(old(self)@, old(self)@.current as int), tag@, prepend),
                )
                &&& final(self)@.modified == old(self)@.modified.insert(old(self)@.current)
                &&& others_kept(old(self)@, final(self)@, old(self)@.current as int)
            },
    {
        let current = self.current_index();
        let tags = match self.tags(current) {
            Some(tags) => add_tag(tags, tag, prepend),
            None => {
                return ;
            },
        };
        self.set_tags(current, tags);
    }

    /// Removes every occurrence of `tag` from the image on display, which counts as
    /// modified. Without images nothing happens.
    pub fn remove_tag_from_current(&mut self, tag: &String)
        requires
            old(self).wf(),
        ensures
            final(self).wf(),
            same_but_tags(old(self)@, final(self)@),
            old(self)@.entries.len() == 0 ==> final(self)@ == old(self)@,
            old(self)@.entries.len() > 0 ==> {
                &&& retagged(
                    old(self)@.entries[old(self)@.current as int],
                    final(self)@.entries[old(self)@.current as int],
                    without(tags_at(old(self)@, old(self)@.current as int), tag@),
                )
                &&& final(self)@.modified == old(self)@.modified.insert(old(self)@.current)
                &&& others_kept(old(self)@, final(self)@, old(self)@.current as int)
            },
    {
        let current = self.current_index();
        let tags = match self.tags(current) {
            Some(tags) => remove_tag(tags, tag),
            None => {
                return ;
            },
        };
        self.set_tags(current, tags);
    }

    /// Drops the repeats among the tags of the image on display, which counts as
    /// modified. Without images nothing happens.
    pub fn remove_duplicates_for_current(&mut self)
        requires
            old(self).wf(),
        ensures
            final(self).wf(),
            same_but_tags(old(self)@, final(self)@),
            old(self)@.entries.len() == 0 ==> final(self)@ == old(self)@,
            old(self)@.entries.len() > 0 ==> {
                &&& retagged(
                    old(self)@.entries[old(self)@.current as int],
                    final(self)@.entries[old(self)@.current as int],
                    without_repeats(tags_at(old(self)@, old(self)@.current as int)),
                )
                &&& final(self)@.modified == old(self)@.modified.insert(old(self)@.current)
                &&& others_kept(old(self)@, final(self)@, old(self)@.current as int)
            },
    {
        let current = self.current_index();
        let tags = match self.tags(current) {
            Some(tags) => remove_duplicates(tags),
            None => {
                return ;
            },
        };
        self.set_tags(current, tags);
    }

    /// Puts the tags of the image on display in the order `kind`. The image does not
    /// count as modified by that. Without images nothing happens.
    pub fn sort_current_tags(&mut self, kind: SortType)
        requires
            old(self).wf(),
        ensures
            final(self).wf(),
            same_but_tags(old(self)@, final(self)@),
            final(self)@.modified == old(self)@.modified,
            old(self)@.entries.len() == 0 ==> final(self)@ == old(self)@,
            old(self)@.entries.len() > 0 ==> {
                &&& resorted(
                    old(self)@.entries[old(self)@.current as int],
                    final(self)@.entries[old(self)@.current as int],
                    kind,
                )
                &&& others_kept(old(self)@, final(self)@, old(self)@.current as int)
            },
    {
        let current = self.current_index();
        let tags = match self.tags(current) {
            Some(tags) => sort_tags(tags, kind),
            None => {
                return ;
            },
        };
        self.arrange_tags(current, tags);
    }

    /// Adds `tag` at the end of the tags of the image on display, unless it is among
    /// them. The result says whether it was added; only then the image counts as
    /// modified.
    pub fn add_unique_to_current(&mut self, tag: &String) -> (added: bool)
        requires
            old(self).wf(),
        ensures
            final(self).wf(),
            same_but_tags(old(self)@, final(self)@),
            added == (old(self)@.entries.len() > 0 && !tags_at(
                old(self)@,
                old(self)@.current as int,
            ).contains(tag@)),
            !added ==> final(self)@ == old(self)@,
            added ==> {
                &&& retagged(
                    old(self)@.entries[old(self)@.current as int],
                    final(self)@.entries[old(self)@.current as int],
                    tags_at(old(self)@, old(self)@.current as int).push(tag@),
                )
                &&& final(self)@.modified == old(self)@.modified.insert(old(self)@.current)
                &&& others_kept(old(self)@, final(self)@, old(self)@.current as int)
            },
    {
        let current = self.current_index();
        let tags = match self.tags(current) {
            Some(tags) => {
                if contains_tag(tags, tag) {
                    return false;
                }
                add_unique(tags, tag)
            },
            None => {
                return false;
            },
        };
        self.set_tags(current, tags);
        true
    }

    /// Puts the activation tag `tag` at the front of the tags of every image that
    /// lacks it; those images count as modified. An empty tag changes nothing.
    pub fn apply_activation_tag(&mut self, tag: &String)
        requires
            old(self).wf(),
        ensures
            final(self).wf(),
            same_but_tags(old(self)@, final(self)@),
            forall|i: int|
                0 <= i < old(self)@.entries.len() ==> retagged(
                    old(self)@.entries[i],
                    #[trigger] final(self)@.entries[i],
                    with_activation(tags_at(old(self)@, i), tag@),
                ),
            forall|i: usize|
                final(self)@.modified.contains(i) <==> (old(self)@.modified.contains(i) || (i < old(self)@.entries.len() && tag@.len() > 0 && !tags_at(old(self)@, i as int).contains(
                    tag@,
                ))),
    {
        let total = self.len();
        let mut k: usize = 0;
        while k < total
            invariant
                self.wf(),
                k <= total,
                total == old(self)@.entries.len(),
                same_but_tags(old(self)@, self@),
                forall|i: int|
                    0 <= i < k ==> retagged(
                        old(self)@.entries[i],
                        #[trigger] self@.entries[i],
                        with_activation(tags_at(old(self)@, i), tag@),
                    ),
                forall|i: int| k <= i < total ==> self@.entries[i] == old(self)@.entries[i],
                forall|i: usize|
                    self@.modified.contains(i) <==> (old(self)@.modified.contains(i) || (i < k
                        && tag@.len() > 0 && !tags_at(old(self)@, i as int).contains(tag@))),
            decreases total - k,
        {
            let changed = match self.tags(k) {
                Some(tags) => if tag.as_str().is_empty() || contains_tag(tags, tag) {
                    None
                } else {
                    Some(apply_activation_tag(tags, tag))
                },
                None => None,
            };
            match changed {
                Some(tags) => {
                    self.set_tags(k, tags);
                },
                None => {},
            }
            k = k + 1;
        }
    }

    /// Removes every occurrence of `tag` from every image that holds it; those images
    /// count as modified. The result is their number.
    pub fn remove_tag_from_all(&mut self, tag: &String) -> (count: usize)
        requires
            old(self).wf(),
        ensures
            final(self).wf(),
            same_but_tags(old(self)@, final(self)@),
            count == holders(old(self)@, tag@, old(self)@.entries.len() as int),
            forall|i: int|
                0 <= i < old(self)@.entries.len() ==> retagged(
                    old(self)@.entries[i],
                    #[trigger] final(self)@.entries[i],
                    without(tags_at(old(self)@, i), tag@),
                ),
            forall|i: usize|
                final(self)@.modified.contains(i) <==> (old(self)@.modified.contains(i) || (i < old(self)@.entries.len() && tags_at(old(self)@, i as int).contains(tag@))),
    {
        let total = self.len();
        let mut count: usize = 0;
        let mut k: usize = 0;
        while k < total
            invariant
                self.wf(),
                k <= total,
                total == old(self)@.entries.len(),
                same_but_tags(old(self)@, self@),
                count == holders(old(self)@, tag@, k as int),
                count <= k,
                forall|i: int|
                    0 <= i < k ==> retagged(
                        old(self)@.entries[i],
                        #[trigger] self@.entries[i],
                        without(tags_at(old(self)@, i), tag@),
                    ),
                forall|i: int| k <= i < total ==> self@.entries[i] == old(self)@.entries[i],
                forall|i: usize|
                    self@.modified.contains(i) <==> (old(self)@.modified.contains(i) || (i < k
                        && tags_at(old(self)@, i as int).contains(tag@))),
            decreases total - k,
        {
            let changed = match self.tags(k) {
                Some(tags) => if contains_tag(tags, tag) {
                    Some(remove_tag(tags, tag))
                } else {
                    proof {
                        lemma_without_absent(texts_of(tags@), tag@);
                    }
                    None
                },
                None => None,
            };
            match changed {
                Some(tags) => {
                    self.set_tags(k, tags);
                    count = count + 1;
                },
                None => {},
            }
            k = k + 1;
        }
        count
    }

    /// Drops the repeats among the tags of every image. Every image counts as
    /// modified.
    pub fn remove_duplicates_for_all(&mut self)
        requires
            old(self).wf(),
        ensures
            final(self).wf(),
            same_but_tags(old(self)@, final(self)@),
            forall|i: int|
                0 <= i < old(self)@.entries.len() ==> retagged(
                    old(self)@.entries[i],
                    #[trigger] final(self)@.entries[i],
                    without_repeats(tags_at(old(self)@, i)),
                ),
            forall|i: usize|
                final(self)@.modified.contains(i) <==> (old(self)@.modified.contains(i) || i < old(self)@.entries.len()),
    {
        let total = self.len();
        let mut k: usize = 0;
        while k < total
            invariant
                self.wf(),
                k <= total,
                total == old(self)@.entries.len(),
                same_but_tags(old(self)@, self@),
                forall|i: int|
                    0 <= i < k ==> retagged(
                        old(self)@.entries[i],
                        #[trigger] self@.entries[i],
                        without_repeats(tags_at(old(self)@, i)),
                    ),
                forall|i: int| k <= i < total ==> self@.entries[i] == old(self)@.entries[i],
                forall|i: usize|
                    self@.modified.contains(i) <==> (old(self)@.modified.contains(i) || i < k),
            decreases total - k,
        {
            let changed = match self.tags(k) {
                Some(tags) => Some(remove_duplicates(tags)),
                None => None,
            };
            match changed {
                Some(tags) => {
                    self.set_tags(k, tags);
                },
                None => {},
            }
            k = k + 1;
        }
    }

    /// The indices of the images that count as modified, in order.
    pub fn modified_indices(&self) -> (indices: Vec<usize>)
        requires
            self.wf(),
        ensures
            forall|i: usize| indices@.contains(i) <==> self@.modified.contains(i),
            forall|a: int, b: int| 0 <= a < b < indices.len() ==> indices[a] < indices[b],
    {
        let total = self.len();
        let mut indices: Vec<usize> = Vec::new();
        let mut k: usize = 0;
        while k < total
            invariant
                self.wf(),
                k <= total,
                total == self@.entries.len(),
                forall|i: usize| indices@.contains(i) <==> (self@.modified.contains(i) && i < k),
                forall|a: int| 0 <= a < indices.len() ==> indices[a] < k,
                forall|a: int, b: int| 0 <= a < b < indices.len() ==> indices[a] < indices[b],
            decreases total - k,
        {
            if self.is_modified(k) {
                let ghost before = indices@;
                indices.push(k);
                assert forall|i: usize| indices@.contains(i) <==> (self@.modified.contains(i) && i
                    < k + 1) by {
                    if indices@.contains(i) {
                        let at = choose|at: int| 0 <= at < indices.len() && indices[at] == i;
                        if at < before.len() {
                            assert(before[at] == i);
                            assert(before.contains(i));
                        }
                    }
                    if self@.modified.contains(i) && i < k {
                        assert(before.contains(i));
                        let at = choose|at: int| 0 <= at < before.len() && before[at] == i;
                        assert(indices[at] == i);
                    }
                    if i == k {
                        assert(indices[indices.len() - 1] == k);
                    }
                }
            }
            k = k + 1;
        }
        indices
    }
}

/// The tags of the first `upto` entries, one list after another.
pub open spec fn all_tags<H>(state: EngineState<H>, upto: int) -> Seq<Seq<char>>
    decreases upto,
{
    if upto <= 0 {
        Seq::empty()
    } else {
        all_tags(state, upto - 1) + tags_at(state, upto - 1)
    }
}

impl<H> Engine<H> {
    /// The tags of every image, one list after another.
    pub fn every_tag(&self) -> (tags: Vec<String>)
        ensures
            texts_of(tags@) == all_tags(self@, self@.entries.len() as int),
    {
        let total = self.len();
        let mut tags: Vec<String> = Vec::new();
        let mut k: usize = 0;
        assert(texts_of(tags@) =~= all_tags(self@, 0));
        while k < total
            invariant
                k <= total,
                total == self@.entries.len(),
                texts_of(tags@) == all_tags(self@, k as int),
            decreases total - k,
        {
            let ghost done = texts_of(tags@);
            match self.tags(k) {
                Some(list) => {
                    let mut j: usize = 0;
                    while j < list.len()
                        invariant
                            j <= list.len(),
                            texts_of(tags@) == done + texts_of(list@).take(j as int),
                        decreases list.len() - j,
                    {
                        let ghost before = texts_of(tags@);
                        tags.push(list[j].clone());
                        assert(texts_of(tags@) =~= before.push(list[j as int]@));
                        assert(texts_of(list@).take(j + 1) =~= texts_of(list@).take(j as int).push(
                            list[j as int]@,
                        ));
                        j = j + 1;
                    }
                    assert(texts_of(list@).take(j as int) =~= texts_of(list@));
                },
                None => {},
            }
            k = k + 1;
        }
        tags
    }

    /// How often `tag` occurs among the tags of all images.
    pub fn count_tag_occurrences(&self, tag: &String) -> (count: usize)
        ensures
            count == occurrences(all_tags(self@, self@.entries.len() as int), tag@),
    {
        let tags = self.every_tag();
        count_occurrences(&tags, tag)
    }

    /// The different tags of all images, each with the number of times that it
    /// occurs: by count or by name, up or down. Tags that the order does not tell
    /// apart stay in the order of their first occurrence.
    pub fn get_tag_frequencies(&self, by_frequency: bool, ascending: bool) -> (table: Vec<(String, usize)>)
        ensures
            is_sorted_table(
                rows(table@),
                frequencies_of(all_tags(self@, self@.entries.len() as int)),
                table_kind(by_frequency, ascending),
            ),
    {
        let tags = self.every_tag();
        sorted_frequencies(&tags, table_order(by_frequency, ascending))
    }
}

/// Removing a tag from a list that does not hold it changes nothing.
pub proof fn lemma_without_absent(tags: Seq<Seq<char>>, tag: Seq<char>)
    requires
        !tags.contains(tag),
    ensures
        without(tags, tag) == tags,
    decreases tags.len(),
{
    if tags.len() > 0 {
        assert forall|x: Seq<char>| tags.drop_last().contains(x) implies tags.contains(x) by {
            let at = choose|at: int| 0 <= at < tags.drop_last().len() && tags.drop_last()[at] == x;
            assert(tags[at] == x);
        }
        assert(tags[tags.len() - 1] == tags.last());
        lemma_without_absent(tags.drop_last(), tag);
        assert(tags.drop_last().push(tags.last()) =~= tags);
    }
}

} // verus!
