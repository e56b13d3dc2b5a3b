//! The orders in which the tags of an image can be put: by name, up or down, or by
//! how often a tag occurs in the list, with ties left as they were.

use vstd::prelude::*;
use crate::tags::{count_occurrences, occurrences, remove_duplicates, without_repeats};
use crate::text::{
    chars_of, comes_before, lemma_less_irreflexive, lemma_less_total, lemma_less_transitive,
    lex_less, texts_of,
};

verus! {

/// The orders on offer.
#[derive(Clone, Copy, Debug, PartialEq, Eq, Structural)]
pub enum SortType {
    /// By name, in the order of texts.
    AlphabeticalAsc,
    /// By name, against the order of texts.
    AlphabeticalDesc,
    /// The tags that occur most often first.
    FrequencyHighLow,
    /// The tags that occur least often first.
    FrequencyLowHigh,
}

/// A tag with the number of times that it occurs.
pub type Counted = (Seq<char>, nat);

/// Whether the tag `a` has to stand before the tag `b`.
pub open spec fn sorts_before(kind: SortType, a: Counted, b: Counted) -> bool {
    match kind {
        SortType::AlphabeticalAsc => lex_less(a.0, b.0),
        SortType::AlphabeticalDesc => lex_less(b.0, a.0),
        SortType::FrequencyHighLow => a.1 > b.1,
        SortType::FrequencyLowHigh => a.1 < b.1,
    }
}

/// The tags of `tags`, each with the number of times that it occurs among them.
pub open spec fn counted(tags: Seq<Seq<char>>) -> Seq<Counted> {
    Seq::new(tags.len(), |i: int| (tags[i], occurrences(tags, tags[i])))
}

/// The tags `names` with the counts `counts`.
pub open spec fn paired(names: Seq<Vec<char>>, counts: Seq<usize>) -> Seq<Counted> {
    Seq::new(names.len(), |i: int| (names[i]@, counts[i] as nat))
}

/// Whether `order` puts the first `upto` of `items` in order: it names each of them
/// once; no tag stands behind one that it has to stand before; and of two tags
/// that neither has to stand before the other, the one that came first in `items`
/// comes first.
pub open spec fn orders(order: Seq<usize>, items: Seq<Counted>, kind: SortType, upto: int) -> bool {
    &&& order.len() == upto
    &&& forall|p: int| 0 <= p < order.len() ==> (#[trigger] order[p]) < upto
    &&& forall|p: int, q: int|
        0 <= p < q < order.len() ==> (#[trigger] order[p]) != (#[trigger] order[q])
    &&& forall|p: int, q: int|
        0 <= p < q < order.len() ==> !sorts_before(
            kind,
            items[(#[trigger] order[q]) as int],
            items[(#[trigger] order[p]) as int],
        )
    &&& forall|p: int, q: int|
        0 <= p < q < order.len() && !sorts_before(
            kind,
            items[(#[trigger] order[p]) as int],
            items[(#[trigger] order[q]) as int],
        ) ==> order[p] < order[q]
}

/// The texts of `all` in the arrangement `order`.
pub open spec fn arranged(all: Seq<Seq<char>>, order: Seq<usize>) -> Seq<Seq<char>> {
    Seq::new(order.len(), |p: int| all[order[p] as int])
}

/// Each order on offer is strict, is transitive, and compares by classes: what has
/// to stand before one tag has to stand before every tag that need not stand
/// before that one.
pub proof fn lemma_order_laws(kind: SortType, a: Counted, b: Counted, c: Counted)
    ensures
        !sorts_before(kind, a, a),
        sorts_before(kind, a, b) ==> !sorts_before(kind, b, a),
        sorts_before(kind, a, b) && sorts_before(kind, b, c) ==> sorts_before(kind, a, c),
        sorts_before(kind, a, b) && !sorts_before(kind, c, b) ==> sorts_before(kind, a, c),
{
    lemma_less_irreflexive(a.0, 0);
    match kind {
        SortType::AlphabeticalAsc => {
            if lex_less(a.0, b.0) {
                assert(a.0.take(0) =~= b.0.take(0));
                lemma_less_total(a.0, b.0, 0);
                if lex_less(b.0, c.0) {
                    lemma_less_transitive(a.0, b.0, c.0, 0);
                }
                if !lex_less(c.0, b.0) && c.0 != b.0 {
                    assert(b.0.take(0) =~= c.0.take(0));
                    lemma_less_total(b.0, c.0, 0);
                    lemma_less_transitive(a.0, b.0, c.0, 0);
                }
            }
        },
        SortType::AlphabeticalDesc => {
            if lex_less(b.0, a.0) {
                assert(a.0.take(0) =~= b.0.take(0));
                lemma_less_total(b.0, a.0, 0);
                if lex_less(c.0, b.0) {
                    lemma_less_transitive(c.0, b.0, a.0, 0);
                }
                if !lex_less(b.0, c.0) && c.0 != b.0 {
                    assert(b.0.take(0) =~= c.0.take(0));
                    lemma_less_total(c.0, b.0, 0);
                    lemma_less_transitive(c.0, b.0, a.0, 0);
                }
            }
        },
        SortType::FrequencyHighLow => {},
        SortType::FrequencyLowHigh => {},
    }
}

/// Putting a further position into an arrangement behind everything that it need
/// not stand before gives the arrangement of one more position.
proof fn lemma_insert_orders(order: Seq<usize>, items: Seq<Counted>, kind: SortType, k: int, at: int)
    requires
        orders(order, items, kind, k),
        0 <= k < items.len(),
        k <= usize::MAX,
        0 <= at <= order.len(),
        forall|p: int|
            0 <= p < at ==> !sorts_before(kind, items[k], items[(#[trigger] order[p]) as int]),
        at < order.len() ==> sorts_before(kind, items[k], items[order[at] as int]),
    ensures
        orders(order.insert(at, k as usize), items, kind, k + 1),
{
    let ins = order.insert(at, k as usize);
    assert forall|q: int| at <= q < order.len() implies sorts_before(
        kind,
        items[k],
        items[(#[trigger] order[q]) as int],
    ) by {
        if q > at {
            lemma_order_laws(kind, items[k], items[order[at] as int], items[order[q] as int]);
        }
    }
    assert forall|p: int| 0 <= p < ins.len() implies (#[trigger] ins[p]) < k + 1 by {
        if p < at {
            assert(ins[p] == order[p]);
        } else if p > at {
            assert(ins[p] == order[p - 1]);
        }
    }
    assert forall|p: int, q: int| 0 <= p < q < ins.len() implies {
        &&& (#[trigger] ins[p]) != (#[trigger] ins[q])
        &&& !sorts_before(kind, items[ins[q] as int], items[ins[p] as int])
        &&& (!sorts_before(kind, items[ins[p] as int], items[ins[q] as int]) ==> ins[p] < ins[q])
    } by {
        let a: int = if p < at {
            p
        } else {
            p - 1
        };
        let b: int = if q < at {
            q
        } else {
            q - 1
        };
        if p != at {
            assert(ins[p] == order[a]);
            assert(order[a] < k);
        }
        if q != at {
            assert(ins[q] == order[b]);
            assert(order[b] < k);
        }
        if p == at {
            assert(at <= b < order.len());
            lemma_order_laws(kind, items[k], items[order[b] as int], items[k]);
        } else if q == at {
            assert(0 <= a < at);
        } else {
            assert(0 <= a < b < order.len());
        }
    }
}

fn stands_before(kind: SortType, names: &Vec<Vec<char>>, counts: &Vec<usize>, a: usize, b: usize) -> (before:
    bool)
    requires
        a < names.len(),
        b < names.len(),
        names.len() == counts.len(),
    ensures
        before == sorts_before(
            kind,
            paired(names@, counts@)[a as int],
            paired(names@, counts@)[b as int],
        ),
{
    match kind {
        SortType::AlphabeticalAsc => comes_before(&names[a], &names[b]),
        SortType::AlphabeticalDesc => comes_before(&names[b], &names[a]),
        SortType::FrequencyHighLow => counts[a] > counts[b],
        SortType::FrequencyLowHigh => counts[a] < counts[b],
    }
}

/// The arrangement that puts the tags `names`, which occur `counts` times, in the
/// order `kind`: which position comes first, second and so on.
pub fn order_of(names: &Vec<Vec<char>>, counts: &Vec<usize>, kind: SortType) -> (order: Vec<usize>)
    requires
        names.len() == counts.len(),
    ensures
        orders(order@, paired(names@, counts@), kind, names.len() as int),
{
    let ghost items = paired(names@, counts@);
    let total = names.len();
    let mut order: Vec<usize> = Vec::new();
    let mut k: usize = 0;
    while k < total
        invariant
            k <= total,
            total == names.len(),
            names.len() == counts.len(),
            items == paired(names@, counts@),
            orders(order@, items, kind, k as int),
        decreases total - k,
    {
        let mut at: usize = 0;
        while at < order.len() && !stands_before(kind, names, counts, k, order[at])
            invariant
                at <= order.len(),
                k < total,
                total == names.len(),
                names.len() == counts.len(),
                items == paired(names@, counts@),
                orders(order@, items, kind, k as int),
                forall|p: int|
                    0 <= p < at ==> !sorts_before(
                        kind,
                        items[k as int],
                        items[(#[trigger] order[p]) as int],
                    ),
            decreases order.len() - at,
        {
            at = at + 1;
        }
        proof {
            lemma_insert_orders(order@, items, kind, k as int, at as int);
        }
        order.insert(at, k);
        k = k + 1;
    }
    order
}

/// The arrangement that puts `tags` in the order `kind`, each tag counted by how
/// often it occurs among them.
pub fn sorted_order(tags: &Vec<String>, kind: SortType) -> (order: Vec<usize>)
    ensures
        orders(order@, counted(texts_of(tags@)), kind, tags.len() as int),
{
    let ghost all = texts_of(tags@);
    let total = tags.len();
    let mut names: Vec<Vec<char>> = Vec::new();
    let mut counts: Vec<usize> = Vec::new();
    let mut i: usize = 0;
    while i < total
        invariant
            i <= total,
            total == tags.len(),
            all == texts_of(tags@),
            names.len() == i,
            counts.len() == i,
            forall|j: int| 0 <= j < i ==> (#[trigger] names[j])@ == all[j],
            forall|j: int| 0 <= j < i ==> (#[trigger] counts[j]) == occurrences(all, all[j]),
        decreases total - i,
    {
        names.push(chars_of(tags[i].as_str()));
        counts.push(count_occurrences(tags, &tags[i]));
        i = i + 1;
    }
    assert(paired(names@, counts@) =~= counted(all));
    order_of(&names, &counts, kind)
}

/// Whether `sorted` holds the tags of `tags` in the order `kind`, each tag counted
/// by how often it occurs among them.
pub open spec fn is_sorted_list(sorted: Seq<Seq<char>>, tags: Seq<Seq<char>>, kind: SortType) -> bool {
    exists|order: Seq<usize>|
        #![trigger arranged(tags, order)]
        orders(order, counted(tags), kind, tags.len() as int) && sorted == arranged(tags, order)
}

/// `tags` put in the order `kind`. Tags that neither has to stand before the other
/// stay as they were among themselves.
pub fn sort_tags(tags: &Vec<String>, kind: SortType) -> (sorted: Vec<String>)
    ensures
        sorted.len() == tags.len(),
        is_sorted_list(texts_of(sorted@), texts_of(tags@), kind),
{
    let order = sorted_order(tags, kind);
    let mut sorted: Vec<String> = Vec::new();
    let mut p: usize = 0;
    while p < order.len()
        invariant
            p <= order.len(),
            sorted.len() == p,
            orders(order@, counted(texts_of(tags@)), kind, tags.len() as int),
            forall|j: int| 0 <= j < p ==> (#[trigger] sorted[j])@ == tags[order[j] as int]@,
        decreases order.len() - p,
    {
        assert(order@[p as int] < tags.len());
        sorted.push(tags[order[p]].clone());
        p = p + 1;
    }
    assert(texts_of(sorted@) =~= arranged(texts_of(tags@), order@));
    sorted
}

/// The different tags of `tags`, in the order of their first occurrence, each with
/// the number of times that it occurs.
pub open spec fn frequencies_of(tags: Seq<Seq<char>>) -> Seq<Counted> {
    Seq::new(
        without_repeats(tags).len(),
        |i: int| (without_repeats(tags)[i], occurrences(tags, without_repeats(tags)[i])),
    )
}

/// The rows of a frequency table as contracts see them.
pub open spec fn rows(table: Seq<(String, usize)>) -> Seq<Counted> {
    Seq::new(table.len(), |i: int| (table[i].0@, table[i].1 as nat))
}

/// The order that a frequency table is put in: by count or by name, up or down.
pub open spec fn table_kind(by_frequency: bool, ascending: bool) -> SortType {
    if by_frequency {
        if ascending {
            SortType::FrequencyLowHigh
        } else {
            SortType::FrequencyHighLow
        }
    } else {
        if ascending {
            SortType::AlphabeticalAsc
        } else {
            SortType::AlphabeticalDesc
        }
    }
}

/// The order that a frequency table is put in: by count or by name, up or down.
#[verifier::when_used_as_spec(table_kind)]
pub fn table_order(by_frequency: bool, ascending: bool) -> (kind: SortType)
    ensures
        kind == table_kind(by_frequency, ascending),
{
    if by_frequency {
        if ascending {
            SortType::FrequencyLowHigh
        } else {
            SortType::FrequencyHighLow
        }
    } else {
        if ascending {
            SortType::AlphabeticalAsc
        } else {
            SortType::AlphabeticalDesc
        }
    }
}

/// The different tags of `tags`, in the order of their first occurrence, each with
/// the number of times that it occurs.
pub fn tag_frequencies(tags: &Vec<String>) -> (table: Vec<(String, usize)>)
    ensures
        rows(table@) == frequencies_of(texts_of(tags@)),
{
    let names = remove_duplicates(tags);
    let mut table: Vec<(String, usize)> = Vec::new();
    let mut k: usize = 0;
    while k < names.len()
        invariant
            k <= names.len(),
            table.len() == k,
            texts_of(names@) == without_repeats(texts_of(tags@)),
            forall|j: int|
                0 <= j < k ==> (#[trigger] table[j]).0@ == names[j]@ && table[j].1 == occurrences(
                    texts_of(tags@),
                    names[j]@,
                ),
        decreases names.len() - k,
    {
        let count = count_occurrences(tags, &names[k]);
        table.push((names[k].clone(), count));
        k = k + 1;
    }
    assert forall|j: int| 0 <= j < table.len() implies rows(table@)[j] == frequencies_of(
        texts_of(tags@),
    )[j] by {
        assert(texts_of(names@)[j] == names[j]@);
    }
    assert(rows(table@) =~= frequencies_of(texts_of(tags@)));
    table
}

/// The counted tags of `all` in the arrangement `order`.
pub open spec fn arranged_rows(all: Seq<Counted>, order: Seq<usize>) -> Seq<Counted> {
    Seq::new(order.len(), |p: int| all[order[p] as int])
}

/// Whether `table` holds the rows of `unsorted` in the order `kind`.
pub open spec fn is_sorted_table(table: Seq<Counted>, unsorted: Seq<Counted>, kind: SortType) -> bool {
    exists|order: Seq<usize>|
        #![trigger arranged_rows(unsorted, order)]
        orders(order, unsorted, kind, unsorted.len() as int) && table == arranged_rows(
            unsorted,
            order,
        )
}

/// The frequency table of `tags`, put in the order `kind`.
pub fn sorted_frequencies(tags: &Vec<String>, kind: SortType) -> (table: Vec<(String, usize)>)
    ensures
        is_sorted_table(rows(table@), frequencies_of(texts_of(tags@)), kind),
{
    let unsorted = tag_frequencies(tags);
    let ghost items = frequencies_of(texts_of(tags@));
    let mut names: Vec<Vec<char>> = Vec::new();
    let mut counts: Vec<usize> = Vec::new();
    let mut i: usize = 0;
    while i < unsorted.len()
        invariant
            i <= unsorted.len(),
            names.len() == i,
            counts.len() == i,
            rows(unsorted@) == items,
            forall|j: int| 0 <= j < i ==> (#[trigger] names[j])@ == items[j].0,
            forall|j: int| 0 <= j < i ==> (#[trigger] counts[j]) == items[j].1,
        decreases unsorted.len() - i,
    {
        assert(rows(unsorted@)[i as int] == items[i as int]);
        names.push(chars_of(unsorted[i].0.as_str()));
        counts.push(unsorted[i].1);
        i = i + 1;
    }
    assert(paired(names@, counts@) =~= items);
    let order = order_of(&names, &counts, kind);
    let mut table: Vec<(String, usize)> = Vec::new();
    let mut p: usize = 0;
    while p < order.len()
        invariant
            p <= order.len(),
            table.len() == p,
            order.len() == unsorted.len(),
            rows(unsorted@) == items,
            orders(order@, items, kind, unsorted.len() as int),
            forall|j: int| 0 <= j < p ==> rows(table@)[j] == items[order[j] as int],
        decreases order.len() - p,
    {
        let at = order[p];
        assert(order@[p as int] < unsorted.len());
        assert(rows(unsorted@)[at as int] == items[at as int]);
        let ghost before = rows(table@);
        table.push((unsorted[at].0.clone(), unsorted[at].1));
        assert forall|j: int| 0 <= j < p + 1 implies rows(table@)[j] == items[order[j] as int] by {
            if j < p {
                assert(rows(table@)[j] == before[j]);
            }
        }
        p = p + 1;
    }
    assert(rows(table@) =~= arranged_rows(items, order@));
    table
}

/// Two arrangements of the same tags in the same order are the same arrangement.
pub proof fn lemma_order_is_unique(first: Seq<usize>, second: Seq<usize>, items: Seq<Counted>, kind: SortType)
    requires
        orders(first, items, kind, items.len() as int),
        orders(second, items, kind, items.len() as int),
    ensures
        first == second,
{
    assert forall|p: int| 0 <= p < first.len() implies first[p] == second[p] by {
        lemma_same_rank(first, second, items, kind, p);
    }
    assert(first =~= second);
}

/// Whether position `i` of `items` comes before position `j` in every arrangement:
/// it has to stand before it, or neither has to stand before the other and it came
/// first.
pub open spec fn precedes(items: Seq<Counted>, kind: SortType, i: int, j: int) -> bool {
    sorts_before(kind, items[i], items[j]) || (!sorts_before(kind, items[j], items[i]) && i < j)
}

/// An arrangement puts position `i` before position `j` exactly when `i` precedes
/// `j`.
proof fn lemma_places(order: Seq<usize>, items: Seq<Counted>, kind: SortType, p: int, q: int)
    requires
        orders(order, items, kind, items.len() as int),
        0 <= p < order.len(),
        0 <= q < order.len(),
        p != q,
    ensures
        p < q <==> precedes(items, kind, order[p] as int, order[q] as int),
{
    let i = order[p] as int;
    let j = order[q] as int;
    lemma_order_laws(kind, items[i], items[j], items[i]);
    if p < q {
        assert(order[p] != order[q]);
    } else {
        assert(order[q] != order[p]);
    }
}

/// Whether one of the first `p` places of `order` holds the position `i`.
pub open spec fn placed_before(order: Seq<usize>, p: int, i: int) -> bool {
    exists|x: int| 0 <= x < p && (#[trigger] order[x]) as int == i
}

/// The positions that the first `p` places of `order` hold.
pub open spec fn held(order: Seq<usize>, p: int) -> Set<int> {
    Set::new(|i: int| placed_before(order, p, i))
}

/// The places before `p` in an arrangement hold exactly the positions that precede
/// the one at `p`; so two arrangements hold the same position at `p`.
proof fn lemma_same_rank(first: Seq<usize>, second: Seq<usize>, items: Seq<Counted>, kind: SortType, p: int)
    requires
        orders(first, items, kind, items.len() as int),
        orders(second, items, kind, items.len() as int),
        0 <= p < first.len(),
    ensures
        first[p] == second[p],
{
    let n = items.len() as int;
    lemma_onto(second, n, first[p] as int);
    let q = choose|q: int| 0 <= q < n && (#[trigger] second[q]) as int == first[p] as int;
    assert forall|i: int| held(first, p).contains(i) implies held(second, q).contains(i) by {
        let x = choose|x: int| 0 <= x < p && (#[trigger] first[x]) as int == i;
        lemma_places(first, items, kind, x, p);
        lemma_onto(second, n, i);
        let y = choose|y: int| 0 <= y < n && (#[trigger] second[y]) as int == i;
        if y != q {
            lemma_places(second, items, kind, y, q);
        } else {
            assert(first[x] != first[p]);
        }
        assert(0 <= y < q && second[y] as int == i);
    }
    assert forall|i: int| held(second, q).contains(i) implies held(first, p).contains(i) by {
        let y = choose|y: int| 0 <= y < q && (#[trigger] second[y]) as int == i;
        lemma_places(second, items, kind, y, q);
        lemma_onto(first, n, i);
        let x = choose|x: int| 0 <= x < n && (#[trigger] first[x]) as int == i;
        if x != p {
            lemma_places(first, items, kind, x, p);
        } else {
            assert(second[y] != second[q]);
        }
        assert(0 <= x < p && first[x] as int == i);
    }
    assert(held(first, p) =~= held(second, q));
    lemma_prefix_count(first, p);
    lemma_prefix_count(second, q);
}

/// The first `p` places of a sequence without repeats hold `p` different values.
proof fn lemma_prefix_count(order: Seq<usize>, p: int)
    requires
        0 <= p <= order.len(),
        forall|a: int, b: int|
            0 <= a < b < order.len() ==> (#[trigger] order[a]) != (#[trigger] order[b]),
    ensures
        held(order, p).finite(),
        held(order, p).len() == p,
    decreases p,
{
    if p == 0 {
        assert(held(order, 0) =~= Set::empty());
    } else {
        lemma_prefix_count(order, p - 1);
        let last = order[p - 1] as int;
        assert forall|i: int| held(order, p).contains(i) <==> held(order, p - 1).insert(
            last,
        ).contains(i) by {
            if held(order, p).contains(i) {
                let x = choose|x: int| 0 <= x < p && (#[trigger] order[x]) as int == i;
                if x < p - 1 {
                    assert(placed_before(order, p - 1, i));
                }
            }
            if held(order, p - 1).contains(i) {
                let x = choose|x: int| 0 <= x < p - 1 && (#[trigger] order[x]) as int == i;
                assert(placed_before(order, p, i));
            }
            if i == last {
                assert(order[p - 1] as int == i);
                assert(placed_before(order, p, i));
            }
        }
        assert(held(order, p) =~= held(order, p - 1).insert(last));
        if held(order, p - 1).contains(last) {
            let x = choose|x: int| 0 <= x < p - 1 && (#[trigger] order[x]) as int == last;
            assert(order[x] != order[p - 1]);
        }
    }
}

/// A sequence of `n` different values below `n` holds every value below `n`.
proof fn lemma_onto(order: Seq<usize>, n: int, wanted: int)
    requires
        order.len() == n,
        0 <= wanted < n,
        forall|p: int| 0 <= p < order.len() ==> (#[trigger] order[p]) < n,
        forall|a: int, b: int|
            0 <= a < b < order.len() ==> (#[trigger] order[a]) != (#[trigger] order[b]),
    ensures
        exists|q: int| 0 <= q < n && (#[trigger] order[q]) as int == wanted,
{
    lemma_prefix_count(order, n);
    let all = vstd::set_lib::set_int_range(0, n);
    vstd::set_lib::lemma_int_range(0, n);
    assert forall|i: int| held(order, n).contains(i) implies all.contains(i) by {
        let x = choose|x: int| 0 <= x < n && (#[trigger] order[x]) as int == i;
        assert(order[x] < n);
    }
    vstd::set_lib::lemma_subset_equality(held(order, n), all);
    assert(all.contains(wanted));
    assert(held(order, n).contains(wanted));
}

} // verus!
