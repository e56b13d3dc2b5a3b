//! The booru tag dictionary and the suggestions that it offers while a tag is
//! typed.

use vstd::prelude::*;
use crate::tags::{aliases_in, split_aliases};
use crate::text::{
    chars_of, comes_before, contains, contains_text, lemma_less_irreflexive,
    lemma_less_total, lemma_less_transitive, lex_less, replace_char, replaced, same_text,
    starts_with, starts_with_text, texts_of,
};

verus! {

/// The most suggestions that are offered at once.
pub const MAX_SUGGESTIONS: usize = 10;

/// The colour of the mark that a tag of the dictionary gets in a tag list.
#[derive(Clone, Copy, Debug, PartialEq, Eq, Structural)]
pub enum TagColor {
    Gray,
    Red,
    Green,
    Yellow,
    White,
}

/// The colour for a tag type: gray for 0, red for 1, green for 3, yellow for 4,
/// white for every other.
pub open spec fn color_of(tag_type: i32) -> TagColor {
    if tag_type == 0 {
        TagColor::Gray
    } else if tag_type == 1 {
        TagColor::Red
    } else if tag_type == 3 {
        TagColor::Green
    } else if tag_type == 4 {
        TagColor::Yellow
    } else {
        TagColor::White
    }
}

/// The colour for a tag type.
pub fn tag_color(tag_type: i32) -> (color: TagColor)
    ensures
        color == color_of(tag_type),
{
    match tag_type {
        0 => TagColor::Gray,
        1 => TagColor::Red,
        3 => TagColor::Green,
        4 => TagColor::Yellow,
        _ => TagColor::White,
    }
}

/// One tag of the dictionary.
#[derive(Clone, Debug)]
pub struct BooruTag {
    pub name: String,
    pub tag_type: i32,
    pub aliases: Vec<String>,
}

/// The dictionary, and the state of the field in which a tag is typed.
pub struct BooruTagManager {
    tags: Vec<BooruTag>,
    tag_suggestions: Vec<String>,
    current_input: String,
    selected_suggestion: Option<usize>,
    is_focused: bool,
}

/// The manager as contracts see it.
pub struct ManagerState {
    /// The dictionary: no two tags share a name.
    pub tags: Seq<BooruTag>,
    /// The suggestions on offer, best first.
    pub suggestions: Seq<Seq<char>>,
    /// The text of the input field.
    pub current_input: Seq<char>,
    /// The position of the suggestion that is picked, if one is.
    pub selected: Option<usize>,
    /// Whether the input field has the focus.
    pub is_focused: bool,
}

/// No two tags of `tags` share a name.
pub open spec fn distinct_names(tags: Seq<BooruTag>) -> bool {
    forall|i: int, j: int|
        0 <= i < j < tags.len() ==> (#[trigger] tags[i]).name@ != (#[trigger] tags[j]).name@
}

/// Whether the dictionary has a tag called `name`.
pub open spec fn has_tag(tags: Seq<BooruTag>, name: Seq<char>) -> bool {
    exists|i: int| 0 <= i < tags.len() && (#[trigger] tags[i]).name@ == name
}

/// The tag called `name`. Only meaningful where the dictionary has one.
pub open spec fn tag_named(tags: Seq<BooruTag>, name: Seq<char>) -> BooruTag {
    tags[choose|i: int| 0 <= i < tags.len() && (#[trigger] tags[i]).name@ == name]
}

/// The dictionary after `tag` was put in: in place of the tag of the same name, or
/// at the end where there was none.
pub open spec fn with_tag(tags: Seq<BooruTag>, tag: BooruTag) -> Seq<BooruTag> {
    if has_tag(tags, tag.name@) {
        tags.update(
            choose|i: int| 0 <= i < tags.len() && (#[trigger] tags[i]).name@ == tag.name@,
            tag,
        )
    } else {
        tags.push(tag)
    }
}

impl View for BooruTagManager {
    type V = ManagerState;

    closed spec fn view(&self) -> ManagerState {
        ManagerState {
            tags: self.tags@,
            suggestions: texts_of(self.tag_suggestions@),
            current_input: self.current_input@,
            selected: self.selected_suggestion,
            is_focused: self.is_focused,
        }
    }
}

impl ManagerState {
    /// The state after `select_next_suggestion`: without suggestions nothing changes;
    /// else the pick moves one down, stopping at the last, or to the first where
    /// nothing was picked, and the input shows what is picked.
    pub open spec fn after_select_next(self) -> ManagerState {
        if self.suggestions.len() == 0 {
            self
        } else {
            let picked: int = match self.selected {
                Some(at) => if at + 1 < self.suggestions.len() {
                    at + 1
                } else {
                    self.suggestions.len() - 1
                },
                None => 0,
            };
            ManagerState {
                selected: Some(picked as usize),
                current_input: self.suggestions[picked],
                ..self
            }
        }
    }

    /// The state after `select_previous_suggestion`: without suggestions nothing
    /// changes; else the pick moves one up, stopping at the first, or to the last
    /// where nothing was picked, and the input shows what is picked, where the pick
    /// lies among the suggestions.
    pub open spec fn after_select_previous(self) -> ManagerState {
        if self.suggestions.len() == 0 {
            self
        } else {
            let picked: int = match self.selected {
                Some(at) => if at > 0 {
                    at - 1
                } else {
                    0
                },
                None => self.suggestions.len() - 1,
            };
            ManagerState {
                selected: Some(picked as usize),
                current_input: if picked < self.suggestions.len() {
                    self.suggestions[picked]
                } else {
                    self.current_input
                },
                ..self
            }
        }
    }
}

impl BooruTagManager {
    /// Whether the manager is valid: no two tags of the dictionary share a name.
    pub open spec fn wf(&self) -> bool {
        distinct_names(self@.tags)
    }

    /// A manager with an empty dictionary, an empty input and nothing suggested.
    pub fn new() -> (manager: Self)
        ensures
            manager.wf(),
            manager@.tags.len() == 0,
            manager@.suggestions.len() == 0,
            manager@.current_input.len() == 0,
            manager@.selected is None,
            !manager@.is_focused,
    {
        let manager = BooruTagManager {
            tags: Vec::new(),
            tag_suggestions: Vec::new(),
            current_input: String::new(),
            selected_suggestion: None,
            is_focused: false,
        };
        assert(manager@.suggestions =~= Seq::empty());
        manager
    }

    fn position_of(&self, name: &str) -> (at: Option<usize>)
        requires
            self.wf(),
        ensures
            match at {
                Some(i) => i < self@.tags.len() && self@.tags[i as int].name@ == name@
                    && self@.tags[i as int] == tag_named(self@.tags, name@),
                None => !has_tag(self@.tags, name@),
            },
    {
        let wanted = name.to_owned();
        let mut i: usize = 0;
        while i < self.tags.len()
            invariant
                self.wf(),
                i <= self.tags.len(),
                wanted@ == name@,
                forall|j: int| 0 <= j < i ==> (#[trigger] self.tags[j]).name@ != name@,
            decreases self.tags.len() - i,
        {
            if self.tags[i].name == wanted {
                proof {
                    assert(self@.tags[i as int].name@ == name@);
                    assert(has_tag(self@.tags, name@));
                    let chosen = choose|c: int|
                        0 <= c < self@.tags.len() && (#[trigger] self@.tags[c]).name@ == name@;
                    if chosen < i {
                        assert(self@.tags[chosen].name@ != self@.tags[i as int].name@);
                    } else if chosen > i {
                        assert(self@.tags[i as int].name@ != self@.tags[chosen].name@);
                    }
                }
                return Some(i);
            }
            i = i + 1;
        }
        None
    }

    /// Puts `tag` into the dictionary, in place of the tag of the same name where
    /// there is one.
    pub fn insert(&mut self, tag: BooruTag)
        requires
            old(self).wf(),
        ensures
            final(self).wf(),
            final(self)@ == (ManagerState { tags: with_tag(old(self)@.tags, tag), ..old(self)@ }),
            has_tag(final(self)@.tags, tag.name@),
            tag_named(final(self)@.tags, tag.name@) == tag,
            forall|name: Seq<char>|
                name != tag.name@ ==> has_tag(final(self)@.tags, name) == has_tag(
                    old(self)@.tags,
                    name,
                ),
    {
        let at = self.position_of(tag.name.as_str());
        let ghost before = self@.tags;
        let ghost name = tag.name@;
        match at {
            Some(i) => {
                self.tags[i] = tag;
                proof {
                    let after = self@.tags;
                    assert(after =~= before.update(i as int, tag));
                    assert forall|a: int, b: int| 0 <= a < b < after.len() implies (
                    #[trigger] after[a]).name@ != (#[trigger] after[b]).name@ by {
                        assert(before[a].name@ != before[b].name@);
                    }
                    lemma_with_tag(before, tag, i as int);
                }
            },
            None => {
                self.tags.push(tag);
                proof {
                    let after = self@.tags;
                    assert forall|a: int, b: int| 0 <= a < b < after.len() implies (
                    #[trigger] after[a]).name@ != (#[trigger] after[b]).name@ by {
                        if b < before.len() {
                            assert(before[a].name@ != before[b].name@);
                        } else {
                            assert(before[a].name@ != name);
                        }
                    }
                    lemma_with_tag(before, tag, before.len() as int);
                }
            },
        }
    }

    /// The type of the tag called `tag`.
    pub fn get_tag_type(&self, tag: &str) -> (tag_type: Option<i32>)
        requires
            self.wf(),
        ensures
            has_tag(self@.tags, tag@) ==> tag_type == Some(tag_named(self@.tags, tag@).tag_type),
            !has_tag(self@.tags, tag@) ==> tag_type is None,
    {
        match self.position_of(tag) {
            Some(i) => Some(self.tags[i].tag_type),
            None => None,
        }
    }

    /// The aliases of the tag called `tag`.
    pub fn get_aliases(&self, tag: &str) -> (aliases: Option<&Vec<String>>)
        requires
            self.wf(),
        ensures
            has_tag(self@.tags, tag@) ==> aliases == Some(&tag_named(self@.tags, tag@).aliases),
            !has_tag(self@.tags, tag@) ==> aliases is None,
    {
        match self.position_of(tag) {
            Some(i) => Some(&self.tags[i].aliases),
            None => None,
        }
    }

    /// The number of tags in the dictionary.
    pub fn len(&self) -> (n: usize)
        ensures
            n == self@.tags.len(),
    {
        self.tags.len()
    }

    /// Moves the pick to the next suggestion and shows it in the input.
    pub fn select_next_suggestion(&mut self)
        ensures
            final(self)@ == old(self)@.after_select_next(),
            old(self)@.suggestions.len() <= usize::MAX,
            old(self)@.suggestions.len() > 0 ==> final(self)@.selected is Some,
    {
        let count = self.tag_suggestions.len();
        if count == 0 {
            return ;
        }
        let picked: usize = match self.selected_suggestion {
            Some(at) => if at < count - 1 {
                at + 1
            } else {
                count - 1
            },
            None => 0,
        };
        self.selected_suggestion = Some(picked);
        self.current_input = self.tag_suggestions[picked].clone();
    }

    /// Moves the pick to the previous suggestion and shows it in the input.
    pub fn select_previous_suggestion(&mut self)
        ensures
            final(self)@ == old(self)@.after_select_previous(),
            old(self)@.suggestions.len() <= usize::MAX,
    {
        let count = self.tag_suggestions.len();
        if count == 0 {
            return ;
        }
        let picked: usize = match self.selected_suggestion {
            Some(at) => if at > 0 {
                at - 1
            } else {
                0
            },
            None => count - 1,
        };
        self.selected_suggestion = Some(picked);
        if picked < count {
            self.current_input = self.tag_suggestions[picked].clone();
        }
    }
}

/// What `with_tag` does at the position that holds the name, or at the end.
proof fn lemma_with_tag(tags: Seq<BooruTag>, tag: BooruTag, at: int)
    requires
        distinct_names(tags),
        0 <= at <= tags.len(),
        at < tags.len() ==> tags[at].name@ == tag.name@,
        at == tags.len() ==> !has_tag(tags, tag.name@),
    ensures
        with_tag(tags, tag) == if at < tags.len() {
            tags.update(at, tag)
        } else {
            tags.push(tag)
        },
        has_tag(with_tag(tags, tag), tag.name@),
        distinct_names(with_tag(tags, tag)) ==> tag_named(with_tag(tags, tag), tag.name@) == tag,
        forall|name: Seq<char>|
            name != tag.name@ ==> has_tag(with_tag(tags, tag), name) == has_tag(tags, name),
{
    let after = with_tag(tags, tag);
    if at < tags.len() {
        let chosen = choose|i: int| 0 <= i < tags.len() && (#[trigger] tags[i]).name@ == tag.name@;
        if chosen < at {
            assert(tags[chosen].name@ != tags[at].name@);
        } else if chosen > at {
            assert(tags[at].name@ != tags[chosen].name@);
        }
        assert(after[at].name@ == tag.name@);
    } else {
        assert(after[at].name@ == tag.name@);
    }
    assert(has_tag(after, tag.name@));
    if distinct_names(after) {
        let chosen = choose|i: int|
            0 <= i < after.len() && (#[trigger] after[i]).name@ == tag.name@;
        if chosen < at {
            assert(after[chosen].name@ != after[at].name@);
        } else if chosen > at {
            assert(after[at].name@ != after[chosen].name@);
        }
    }
    assert forall|name: Seq<char>| name != tag.name@ implies has_tag(after, name) == has_tag(
        tags,
        name,
    ) by {
        if has_tag(after, name) {
            let i = choose|i: int| 0 <= i < after.len() && (#[trigger] after[i]).name@ == name;
            assert(i != at);
            assert(tags[i].name@ == name);
        }
        if has_tag(tags, name) {
            let i = choose|i: int| 0 <= i < tags.len() && (#[trigger] tags[i]).name@ == name;
            assert(i != at);
            assert(after[i].name@ == name);
        }
    }
}

/// Whether `tag` is offered for `query`: its name or one of its aliases holds the
/// query.
pub open spec fn tag_matches(tag: BooruTag, query: Seq<char>) -> bool {
    contains_text(tag.name@, query) || exists|a: int|
        0 <= a < tag.aliases@.len() && contains_text((#[trigger] tag.aliases@[a])@, query)
}

/// The rank of a name for `query`: the query itself comes first, then the names
/// that begin with it, then the rest.
pub open spec fn rank(name: Seq<char>, query: Seq<char>) -> int {
    if name == query {
        0
    } else if starts_with_text(name, query) {
        1
    } else {
        2
    }
}

/// Whether the name `a` is suggested before the name `b` for `query`: by rank,
/// and within a rank in the order of texts.
pub open spec fn suggested_before(a: Seq<char>, b: Seq<char>, query: Seq<char>) -> bool {
    rank(a, query) < rank(b, query) || (rank(a, query) == rank(b, query) && lex_less(a, b))
}

/// Whether `list` is what is suggested for `query` out of `tags`: at most
/// `MAX_SUGGESTIONS` names of matching tags, best first, and no matching tag that
/// is left out would come before one that is in.
pub open spec fn is_suggestion_list(list: Seq<Seq<char>>, tags: Seq<BooruTag>, query: Seq<char>) -> bool {
    &&& list.len() <= MAX_SUGGESTIONS
    &&& forall|p: int|
        0 <= p < list.len() ==> has_tag(tags, #[trigger] list[p]) && tag_matches(
            tag_named(tags, list[p]),
            query,
        )
    &&& forall|p: int, r: int|
        0 <= p < r < list.len() ==> suggested_before(#[trigger] list[p], #[trigger] list[r], query)
    &&& forall|t: int|
        0 <= t < tags.len() && tag_matches(#[trigger] tags[t], query) && !list.contains(
            tags[t].name@,
        ) ==> list.len() == MAX_SUGGESTIONS && forall|p: int|
            0 <= p < list.len() ==> suggested_before(#[trigger] list[p], tags[t].name@, query)
}

/// The name of the tag that `best` holds at position `p`.
pub open spec fn name_at(tags: Seq<BooruTag>, best: Seq<usize>, p: int) -> Seq<char> {
    tags[best[p] as int].name@
}

/// Whether `best` holds the positions of the best matches among the first `upto`
/// tags, best first.
pub open spec fn selection_of(best: Seq<usize>, tags: Seq<BooruTag>, query: Seq<char>, upto: int) -> bool {
    &&& best.len() <= MAX_SUGGESTIONS
    &&& forall|p: int|
        0 <= p < best.len() ==> (#[trigger] best[p]) < upto && tag_matches(
            tags[best[p] as int],
            query,
        )
    &&& forall|p: int, r: int|
        0 <= p < r < best.len() ==> suggested_before(
            #[trigger] name_at(tags, best, p),
            #[trigger] name_at(tags, best, r),
            query,
        )
    &&& forall|t: int|
        0 <= t < upto && tag_matches(#[trigger] tags[t], query) && !best.contains(t as usize)
            ==> best.len() == MAX_SUGGESTIONS && forall|p: int|
            0 <= p < best.len() ==> suggested_before(
                #[trigger] name_at(tags, best, p),
                tags[t].name@,
                query,
            )
}

/// Of two names that differ, exactly one is suggested before the other.
pub proof fn lemma_suggested_total(a: Seq<char>, b: Seq<char>, query: Seq<char>)
    requires
        a != b,
    ensures
        suggested_before(a, b, query) != suggested_before(b, a, query),
{
    assert(a.take(0) =~= b.take(0));
    lemma_less_total(a, b, 0);
}

/// The order of suggestions is transitive.
pub proof fn lemma_suggested_transitive(a: Seq<char>, b: Seq<char>, c: Seq<char>, query: Seq<char>)
    requires
        suggested_before(a, b, query),
        suggested_before(b, c, query),
    ensures
        suggested_before(a, c, query),
{
    if rank(a, query) == rank(b, query) && rank(b, query) == rank(c, query) {
        lemma_less_transitive(a, b, c, 0);
    }
}

/// No name is suggested before itself.
pub proof fn lemma_suggested_irreflexive(a: Seq<char>, query: Seq<char>)
    ensures
        !suggested_before(a, a, query),
{
    lemma_less_irreflexive(a, 0);
}

/// The tag called `name` stands in the dictionary that has it.
proof fn lemma_named_is_member(tags: Seq<BooruTag>, name: Seq<char>)
    requires
        has_tag(tags, name),
    ensures
        exists|t: int|
            0 <= t < tags.len() && #[trigger] tags[t] == tag_named(tags, name) && tags[t].name@
                == name,
{
    assert(tag_named(tags, name).name@ == name);
}

/// The names of a list of suggestions differ from one another.
proof fn lemma_list_is_strict(list: Seq<Seq<char>>, tags: Seq<BooruTag>, query: Seq<char>, p: int, r: int)
    requires
        is_suggestion_list(list, tags, query),
        0 <= p < list.len(),
        0 <= r < list.len(),
        p != r,
    ensures
        list[p] != list[r],
{
    lemma_suggested_irreflexive(list[p], query);
}

/// Two lists of suggestions for the same query out of the same dictionary agree at
/// every place that both have.
proof fn lemma_lists_agree(
    a: Seq<Seq<char>>,
    b: Seq<Seq<char>>,
    tags: Seq<BooruTag>,
    query: Seq<char>,
    p: int,
)
    requires
        is_suggestion_list(a, tags, query),
        is_suggestion_list(b, tags, query),
        0 <= p < a.len(),
        p < b.len(),
    ensures
        a[p] == b[p],
    decreases p,
{
    assert forall|k: int| 0 <= k < p implies a[k] == b[k] by {
        lemma_lists_agree(a, b, tags, query, k);
    }
    if a[p] != b[p] {
        lemma_suggested_total(a[p], b[p], query);
        if suggested_before(a[p], b[p], query) {
            lemma_misplaced(a, b, tags, query, p);
        } else {
            lemma_misplaced(b, a, tags, query, p);
        }
    }
}

/// Where two lists of suggestions agree before place `p`, what the first has at `p`
/// is not suggested before what the second has there.
proof fn lemma_misplaced(
    a: Seq<Seq<char>>,
    b: Seq<Seq<char>>,
    tags: Seq<BooruTag>,
    query: Seq<char>,
    p: int,
)
    requires
        is_suggestion_list(a, tags, query),
        is_suggestion_list(b, tags, query),
        0 <= p < a.len(),
        p < b.len(),
        forall|k: int| 0 <= k < p ==> a[k] == b[k],
    ensures
        !suggested_before(a[p], b[p], query),
{
    let name = a[p];
    if suggested_before(a[p], b[p], query) {
        lemma_suggested_irreflexive(name, query);
        lemma_suggested_total(name, b[p], query);
        assert(has_tag(tags, a[p]) && tag_matches(tag_named(tags, a[p]), query));
        lemma_named_is_member(tags, name);
        let t = choose|t: int|
            0 <= t < tags.len() && #[trigger] tags[t] == tag_named(tags, name) && tags[t].name@
                == name;
        if b.contains(name) {
            let j = choose|j: int| 0 <= j < b.len() && b[j] == name;
            if j < p {
                lemma_list_is_strict(a, tags, query, j, p);
            } else if j > p {
                assert(suggested_before(b[p], b[j], query));
            }
        } else {
            assert(suggested_before(b[p], tags[t].name@, query));
        }
    }
}

/// A query has one list of suggestions: two lists that both are what is suggested
/// for it out of the same dictionary are the same list.
pub proof fn lemma_suggestions_are_unique(
    a: Seq<Seq<char>>,
    b: Seq<Seq<char>>,
    tags: Seq<BooruTag>,
    query: Seq<char>,
)
    requires
        is_suggestion_list(a, tags, query),
        is_suggestion_list(b, tags, query),
    ensures
        a == b,
{
    lemma_not_longer(a, b, tags, query);
    lemma_not_longer(b, a, tags, query);
    assert forall|p: int| 0 <= p < a.len() implies a[p] == b[p] by {
        lemma_lists_agree(a, b, tags, query, p);
    }
    assert(a =~= b);
}

/// Of two lists of suggestions none is longer than the other.
proof fn lemma_not_longer(a: Seq<Seq<char>>, b: Seq<Seq<char>>, tags: Seq<BooruTag>, query: Seq<char>)
    requires
        is_suggestion_list(a, tags, query),
        is_suggestion_list(b, tags, query),
    ensures
        b.len() <= a.len(),
{
    if b.len() > a.len() {
        let at = a.len() as int;
        let extra = b[at];
        assert(has_tag(tags, b[at]) && tag_matches(tag_named(tags, b[at]), query));
        lemma_named_is_member(tags, extra);
        let t = choose|t: int|
            0 <= t < tags.len() && #[trigger] tags[t] == tag_named(tags, extra) && tags[t].name@
                == extra;
        if a.contains(extra) {
            let j = choose|j: int| 0 <= j < a.len() && a[j] == extra;
            lemma_lists_agree(a, b, tags, query, j);
            lemma_list_is_strict(b, tags, query, j, at);
        }
    }
}

fn matches(tag: &BooruTag, query: &Vec<char>) -> (matching: bool)
    ensures
        matching == tag_matches(*tag, query@),
{
    let name = chars_of(tag.name.as_str());
    if contains(&name, query) {
        return true;
    }
    let mut a: usize = 0;
    while a < tag.aliases.len()
        invariant
            a <= tag.aliases.len(),
            forall|j: int| 0 <= j < a ==> !contains_text((#[trigger] tag.aliases@[j])@, query@),
        decreases tag.aliases.len() - a,
    {
        let alias = chars_of(tag.aliases[a].as_str());
        if contains(&alias, query) {
            assert(contains_text(tag.aliases@[a as int]@, query@));
            return true;
        }
        a = a + 1;
    }
    false
}

fn ranked_before(a: &Vec<char>, b: &Vec<char>, query: &Vec<char>) -> (before: bool)
    ensures
        before == suggested_before(a@, b@, query@),
{
    let a_rank: u8 = if same_text(a, query) {
        0
    } else if starts_with(a, query) {
        1
    } else {
        2
    };
    let b_rank: u8 = if same_text(b, query) {
        0
    } else if starts_with(b, query) {
        1
    } else {
        2
    };
    if a_rank != b_rank {
        a_rank < b_rank
    } else {
        comes_before(a, b)
    }
}

/// Putting a further matching tag into a selection at its place, and dropping the
/// last where that makes one too many, gives the selection over one more tag.
proof fn lemma_selection_step(
    old: Seq<usize>,
    tags: Seq<BooruTag>,
    query: Seq<char>,
    t: int,
    at: int,
)
    requires
        distinct_names(tags),
        0 <= t < tags.len(),
        t <= usize::MAX,
        selection_of(old, tags, query, t),
        tag_matches(tags[t], query),
        0 <= at <= old.len(),
        forall|p: int|
            0 <= p < at ==> !suggested_before(tags[t].name@, #[trigger] name_at(tags, old, p), query),
        at < old.len() ==> suggested_before(tags[t].name@, name_at(tags, old, at), query),
    ensures
        old.len() < MAX_SUGGESTIONS ==> selection_of(old.insert(at, t as usize), tags, query, t + 1),
        old.len() == MAX_SUGGESTIONS ==> selection_of(
            old.insert(at, t as usize).drop_last(),
            tags,
            query,
            t + 1,
        ),
{
    let name = tags[t].name@;
    let ins = old.insert(at, t as usize);
    assert forall|p: int| 0 <= p < old.len() implies name_at(tags, old, p) != name by {
        assert(old[p] < t);
        assert(tags[old[p] as int].name@ != tags[t].name@);
    }
    assert forall|p: int| 0 <= p < at implies suggested_before(
        #[trigger] name_at(tags, old, p),
        name,
        query,
    ) by {
        lemma_suggested_total(name_at(tags, old, p), name, query);
    }
    assert forall|p: int| at <= p < old.len() implies suggested_before(
        name,
        #[trigger] name_at(tags, old, p),
        query,
    ) by {
        if p > at {
            lemma_suggested_transitive(name, name_at(tags, old, at), name_at(tags, old, p), query);
        }
    }
    assert forall|p: int, r: int| 0 <= p < r < ins.len() implies suggested_before(
        #[trigger] name_at(tags, ins, p),
        #[trigger] name_at(tags, ins, r),
        query,
    ) by {
        if r < at {
            assert(name_at(tags, ins, p) == name_at(tags, old, p));
            assert(name_at(tags, ins, r) == name_at(tags, old, r));
        } else if r == at {
            assert(name_at(tags, ins, p) == name_at(tags, old, p));
            assert(name_at(tags, ins, r) == name);
        } else if p < at {
            assert(name_at(tags, ins, p) == name_at(tags, old, p));
            assert(name_at(tags, ins, r) == name_at(tags, old, r - 1));
        } else if p == at {
            assert(name_at(tags, ins, p) == name);
            assert(name_at(tags, ins, r) == name_at(tags, old, r - 1));
        } else {
            assert(name_at(tags, ins, p) == name_at(tags, old, p - 1));
            assert(name_at(tags, ins, r) == name_at(tags, old, r - 1));
        }
    }
    assert forall|p: int| 0 <= p < ins.len() implies (#[trigger] ins[p]) < t + 1 && tag_matches(
        tags[ins[p] as int],
        query,
    ) by {
        if p < at {
            assert(ins[p] == old[p]);
        } else if p > at {
            assert(ins[p] == old[p - 1]);
        }
    }
    assert(ins[at] == t as usize);
    assert forall|u: usize| old.contains(u) implies ins.contains(u) by {
        let p = choose|p: int| 0 <= p < old.len() && old[p] == u;
        if p < at {
            assert(ins[p] == u);
        } else {
            assert(ins[p + 1] == u);
        }
    }
    if old.len() < MAX_SUGGESTIONS {
        assert forall|u: int|
            0 <= u < t + 1 && tag_matches(#[trigger] tags[u], query) && !ins.contains(
                u as usize,
            ) implies ins.len() == MAX_SUGGESTIONS && forall|p: int|
            0 <= p < ins.len() ==> suggested_before(
                #[trigger] name_at(tags, ins, p),
                tags[u].name@,
                query,
            ) by {
            if u == t {
                assert(ins.contains(t as usize));
            } else {
                assert(!old.contains(u as usize));
            }
        }
    } else {
        let cut = ins.drop_last();
        let dropped = ins[10];
        assert forall|p: int| 0 <= p < cut.len() implies name_at(tags, cut, p) == name_at(
            tags,
            ins,
            p,
        ) by {}
        assert forall|p: int, r: int| 0 <= p < r < cut.len() implies suggested_before(
            #[trigger] name_at(tags, cut, p),
            #[trigger] name_at(tags, cut, r),
            query,
        ) by {
            assert(name_at(tags, cut, p) == name_at(tags, ins, p));
            assert(name_at(tags, cut, r) == name_at(tags, ins, r));
        }
        assert forall|p: int| 0 <= p < cut.len() implies (#[trigger] cut[p]) < t + 1
            && tag_matches(tags[cut[p] as int], query) by {
            assert(cut[p] == ins[p]);
        }
        assert forall|u: int|
            0 <= u < t + 1 && tag_matches(#[trigger] tags[u], query) && !cut.contains(
                u as usize,
            ) implies cut.len() == MAX_SUGGESTIONS && forall|p: int|
            0 <= p < cut.len() ==> suggested_before(
                #[trigger] name_at(tags, cut, p),
                tags[u].name@,
                query,
            ) by {
            assert forall|p: int| 0 <= p < cut.len() implies suggested_before(
                #[trigger] name_at(tags, cut, p),
                tags[u].name@,
                query,
            ) by {
                assert(name_at(tags, cut, p) == name_at(tags, ins, p));
                if u as usize == dropped {
                    assert(name_at(tags, ins, 10) == tags[u].name@);
                } else {
                    if ins.contains(u as usize) {
                        let r = choose|r: int| 0 <= r < ins.len() && ins[r] == u as usize;
                        assert(r < 10);
                        assert(cut[r] == u as usize);
                        assert(cut.contains(u as usize));
                    }
                    assert(!ins.contains(u as usize));
                    assert(u != t);
                    assert(!old.contains(u as usize));
                    if p < at {
                        assert(name_at(tags, ins, p) == name_at(tags, old, p));
                    } else if p == at {
                        assert(name_at(tags, ins, p) == name);
                        assert(at < old.len());
                        lemma_suggested_transitive(
                            name,
                            name_at(tags, old, at),
                            tags[u].name@,
                            query,
                        );
                    } else {
                        assert(name_at(tags, ins, p) == name_at(tags, old, p - 1));
                    }
                }
            }
        }
    }
}

/// The positions of the best matches for `query` among `tags`, best first.
fn best_matches(tags: &Vec<BooruTag>, query: &Vec<char>) -> (best: Vec<usize>)
    requires
        distinct_names(tags@),
    ensures
        selection_of(best@, tags@, query@, tags.len() as int),
{
    let mut best: Vec<usize> = Vec::new();
    let mut names: Vec<Vec<char>> = Vec::new();
    let mut t: usize = 0;
    while t < tags.len()
        invariant
            distinct_names(tags@),
            t <= tags.len(),
            selection_of(best@, tags@, query@, t as int),
            names.len() == best.len(),
            forall|p: int| 0 <= p < best.len() ==> (#[trigger] names[p])@ == name_at(tags@, best@, p),
        decreases tags.len() - t,
    {
        if matches(&tags[t], query) {
            let name = chars_of(tags[t].name.as_str());
            let mut at: usize = 0;
            while at < best.len() && !ranked_before(&name, &names[at], query)
                invariant
                    at <= best.len(),
                    names.len() == best.len(),
                    name@ == tags@[t as int].name@,
                    forall|p: int|
                        0 <= p < best.len() ==> (#[trigger] names[p])@ == name_at(tags@, best@, p),
                    forall|p: int|
                        0 <= p < at ==> !suggested_before(
                            name@,
                            #[trigger] name_at(tags@, best@, p),
                            query@,
                        ),
                decreases best.len() - at,
            {
                assert(names[at as int]@ == name_at(tags@, best@, at as int));
                at = at + 1;
            }
            proof {
                if at < best.len() {
                    assert(names[at as int]@ == name_at(tags@, best@, at as int));
                }
                lemma_selection_step(best@, tags@, query@, t as int, at as int);
            }
            let ghost old_best = best@;
            let ghost old_names = names@;
            best.insert(at, t);
            names.insert(at, name);
            if best.len() > MAX_SUGGESTIONS {
                best.pop();
                names.pop();
            }
            proof {
                assert forall|p: int| 0 <= p < best.len() implies (#[trigger] names[p])@
                    == name_at(tags@, best@, p) by {
                    if p < at {
                        assert(names[p] == old_names[p]);
                        assert(best[p] == old_best[p]);
                        assert(old_names[p]@ == name_at(tags@, old_best, p));
                    } else if p > at {
                        assert(names[p] == old_names[p - 1]);
                        assert(best[p] == old_best[p - 1]);
                        assert(old_names[p - 1]@ == name_at(tags@, old_best, p - 1));
                    }
                }
            }
        } else {
            proof {
                assert forall|u: int|
                    0 <= u < t + 1 && tag_matches(#[trigger] tags@[u], query@) && !best@.contains(
                        u as usize,
                    ) implies best@.len() == MAX_SUGGESTIONS && forall|p: int|
                    0 <= p < best@.len() ==> suggested_before(
                        #[trigger] name_at(tags@, best@, p),
                        tags@[u].name@,
                        query@,
                    ) by {
                    assert(u < t);
                }
            }
        }
        t = t + 1;
    }
    best
}

/// A selection over the whole dictionary, read as names, is the list of
/// suggestions.
proof fn lemma_selection_is_list(
    best: Seq<usize>,
    list: Seq<Seq<char>>,
    tags: Seq<BooruTag>,
    query: Seq<char>,
)
    requires
        distinct_names(tags),
        tags.len() <= usize::MAX,
        selection_of(best, tags, query, tags.len() as int),
        list.len() == best.len(),
        forall|p: int| 0 <= p < best.len() ==> #[trigger] list[p] == name_at(tags, best, p),
    ensures
        is_suggestion_list(list, tags, query),
{
    assert forall|p: int| 0 <= p < list.len() implies has_tag(tags, #[trigger] list[p])
        && tag_matches(tag_named(tags, list[p]), query) by {
        let at = best[p] as int;
        assert(tags[at].name@ == list[p]);
        let chosen = choose|i: int| 0 <= i < tags.len() && (#[trigger] tags[i]).name@ == list[p];
        if chosen < at {
            assert(tags[chosen].name@ != tags[at].name@);
        } else if chosen > at {
            assert(tags[at].name@ != tags[chosen].name@);
        }
    }
    assert forall|p: int, r: int| 0 <= p < r < list.len() implies suggested_before(
        #[trigger] list[p],
        #[trigger] list[r],
        query,
    ) by {
        assert(list[p] == name_at(tags, best, p));
        assert(list[r] == name_at(tags, best, r));
    }
    assert forall|t: int|
        0 <= t < tags.len() && tag_matches(#[trigger] tags[t], query) && !list.contains(
            tags[t].name@,
        ) implies list.len() == MAX_SUGGESTIONS && forall|p: int|
        0 <= p < list.len() ==> suggested_before(#[trigger] list[p], tags[t].name@, query) by {
        if best.contains(t as usize) {
            let p = choose|p: int| 0 <= p < best.len() && best[p] == t as usize;
            assert(list[p] == name_at(tags, best, p));
            assert(best[p] as int == t);
            assert(list[p] == tags[t].name@);
            assert(list.contains(tags[t].name@));
        }
        assert forall|p: int| 0 <= p < list.len() implies suggested_before(
            #[trigger] list[p],
            tags[t].name@,
            query,
        ) by {
            assert(list[p] == name_at(tags, best, p));
        }
    }
}

impl BooruTagManager {
    /// Brings the suggestions up to date with what is typed. For an empty input
    /// there are none. Else the blanks of the input count as underscores, and the
    /// suggestions are the names of the tags whose name or alias holds the input: the
    /// name that is the input first, then the names that begin with it, then the
    /// rest, each group in the order of texts, and of all these the first
    /// `MAX_SUGGESTIONS`. The input field and the pick stay as they are.
    pub fn update_suggestions(&mut self, input: &str)
        requires
            old(self).wf(),
        ensures
            final(self).wf(),
            final(self)@.tags == old(self)@.tags,
            final(self)@.current_input == old(self)@.current_input,
            final(self)@.selected == old(self)@.selected,
            final(self)@.is_focused == old(self)@.is_focused,
            input@.len() == 0 ==> final(self)@.suggestions.len() == 0,
            input@.len() > 0 ==> is_suggestion_list(
                final(self)@.suggestions,
                old(self)@.tags,
                replaced(input@, ' ', '_'),
            ),
    {
        let typed = chars_of(input);
        if typed.len() == 0 {
            self.tag_suggestions.clear();
            return ;
        }
        let query = replace_char(&typed, ' ', '_');
        let best = best_matches(&self.tags, &query);
        let mut suggestions: Vec<String> = Vec::new();
        let mut p: usize = 0;
        while p < best.len()
            invariant
                p <= best.len(),
                suggestions.len() == p,
                selection_of(best@, self.tags@, query@, self.tags.len() as int),
                forall|r: int|
                    0 <= r < p ==> (#[trigger] suggestions[r])@ == name_at(self.tags@, best@, r),
            decreases best.len() - p,
        {
            assert(best@[p as int] < self.tags.len());
            suggestions.push(self.tags[best[p]].name.clone());
            p = p + 1;
        }
        proof {
            let list = texts_of(suggestions@);
            assert forall|r: int| 0 <= r < best.len() implies #[trigger] list[r] == name_at(
                self.tags@,
                best@,
                r,
            ) by {
                assert(suggestions[r]@ == name_at(self.tags@, best@, r));
            }
            lemma_selection_is_list(best@, list, self.tags@, query@);
        }
        self.tag_suggestions = suggestions;
    }

    /// The suggestions on offer, best first.
    pub fn suggestions(&self) -> (list: &Vec<String>)
        ensures
            texts_of(list@) == self@.suggestions,
            self@.suggestions.len() <= usize::MAX,
    {
        let count = self.tag_suggestions.len();
        assert(self@.suggestions.len() == count);
        &self.tag_suggestions
    }

    /// The text of the input field.
    pub fn current_input(&self) -> (text: &String)
        ensures
            text@ == self@.current_input,
    {
        &self.current_input
    }

    /// Replaces the text of the input field.
    pub fn set_current_input(&mut self, text: String)
        ensures
            final(self)@ == (ManagerState { current_input: text@, ..old(self)@ }),
    {
        self.current_input = text;
    }

    /// The position of the suggestion that is picked.
    pub fn selected_suggestion(&self) -> (picked: Option<usize>)
        ensures
            picked == self@.selected,
    {
        self.selected_suggestion
    }

    /// Whether the input field has the focus.
    pub fn is_focused(&self) -> (focused: bool)
        ensures
            focused == self@.is_focused,
    {
        self.is_focused
    }

    /// Records whether the input field has the focus.
    pub fn set_focused(&mut self, focused: bool)
        ensures
            final(self)@ == (ManagerState { is_focused: focused, ..old(self)@ }),
    {
        self.is_focused = focused;
    }

    /// Empties the input field and the suggestions, as after a tag was taken.
    pub fn clear_input(&mut self)
        ensures
            final(self)@ == (ManagerState {
                current_input: Seq::empty(),
                suggestions: Seq::empty(),
                ..old(self)@
            }),
    {
        self.current_input = String::new();
        self.tag_suggestions.clear();
        assert(texts_of(self.tag_suggestions@) =~= Seq::empty());
    }
}

/// The error of the `csv` crate.
#[verifier::external_type_specification]
#[verifier::external_body]
pub struct ExCsvError(csv::Error);

/// What `str::parse::<i32>` makes of `text`, where it makes anything.
pub uninterp spec fn parsed_i32(text: Seq<char>) -> Option<i32>;

/// What the `csv` crate reads out of `contents`, taken without a header row: for
/// each record in order its fields, or nothing where the record cannot be read.
pub uninterp spec fn csv_records(contents: Seq<char>) -> Seq<Option<Seq<Seq<char>>>>;

/// What was read of `rows`: the fields of each record as texts, or nothing for an
/// error.
pub open spec fn rows_read(rows: Seq<Result<Vec<String>, csv::Error>>) -> Seq<Option<Seq<Seq<char>>>> {
    Seq::new(
        rows.len(),
        |i: int|
            match rows[i] {
                Ok(fields) => Some(texts_of(fields@)),
                Err(_) => None,
            },
    )
}

/// The fields of `rows` as texts.
pub open spec fn rows_of(rows: Seq<Vec<String>>) -> Seq<Seq<Seq<char>>> {
    Seq::new(rows.len(), |i: int| texts_of(rows[i]@))
}

/// The records of `rows` before the first that could not be read.
pub open spec fn readable(rows: Seq<Option<Seq<Seq<char>>>>) -> Seq<Seq<Seq<char>>>
    decreases rows.len(),
{
    if rows.len() == 0 {
        Seq::empty()
    } else {
        match rows[0] {
            Some(fields) => seq![fields] + readable(rows.drop_first()),
            None => Seq::empty(),
        }
    }
}

/// Whether one of `rows` could not be read.
pub open spec fn has_unreadable(rows: Seq<Option<Seq<Seq<char>>>>) -> bool {
    exists|i: int| 0 <= i < rows.len() && (#[trigger] rows[i]) is None
}

/// `str::parse::<i32>`: the number that the text spells, if it spells one.
#[verifier::external_body]
fn parse_i32(text: &str) -> (value: Option<i32>)
    ensures
        value == parsed_i32(text@),
{
    text.parse::<i32>().ok()
}

/// `csv::Reader::records` on a reader made by `csv::ReaderBuilder` with
/// `has_headers(false)` over the bytes of `contents`: what the iterator yields, in
/// order, each record as its fields.
#[verifier::external_body]
fn read_records(contents: &str) -> (rows: Vec<Result<Vec<String>, csv::Error>>)
    ensures
        rows_read(rows@) == csv_records(contents@),
{
    let mut reader = csv::ReaderBuilder::new().has_headers(false).from_reader(contents.as_bytes());
    reader
        .records()
        .map(|row| row.map(|record| record.iter().map(|field| field.to_string()).collect()))
        .collect()
}

/// `ToString::to_string` on `csv::Error`: the error as text. Nothing is claimed of
/// the text.
#[verifier::external_body]
fn csv_error_text(error: &csv::Error) -> (text: String) {
    error.to_string()
}

/// The tag type that a field spells: the number, or 0 where it spells none.
pub open spec fn tag_type_in(field: Seq<char>) -> i32 {
    match parsed_i32(field) {
        Some(value) => value,
        None => 0,
    }
}

/// Whether `tag` is what the record `fields` describes: the name in its first
/// field, the type in its second, the aliases in its fourth.
pub open spec fn describes(fields: Seq<Seq<char>>, tag: BooruTag) -> bool {
    &&& fields.len() >= 4
    &&& tag.name@ == fields[0]
    &&& tag.tag_type == tag_type_in(fields[1])
    &&& texts_of(tag.aliases@) == aliases_in(fields[3])
}

/// Whether `after` is the dictionary `before` with the tags of `rows` put in, in
/// order. Records of fewer than four fields are passed over.
pub open spec fn holds_records(before: Seq<BooruTag>, rows: Seq<Seq<Seq<char>>>, after: Seq<BooruTag>) -> bool
    decreases rows.len(),
{
    if rows.len() == 0 {
        after == before
    } else if rows.last().len() < 4 {
        holds_records(before, rows.drop_last(), after)
    } else {
        exists|middle: Seq<BooruTag>, tag: BooruTag|
            #![trigger with_tag(middle, tag)]
            holds_records(before, rows.drop_last(), middle) && describes(rows.last(), tag)
                && after == with_tag(middle, tag)
    }
}

/// The tag that a record of the dictionary file describes; none for a record of
/// fewer than four fields.
pub fn tag_from_record(record: &Vec<String>) -> (tag: Option<BooruTag>)
    ensures
        record.len() < 4 ==> tag is None,
        record.len() >= 4 ==> tag is Some && describes(texts_of(record@), tag->0),
{
    if record.len() < 4 {
        return None;
    }
    let tag_type = match parse_i32(record[1].as_str()) {
        Some(value) => value,
        None => 0,
    };
    Some(
        BooruTag {
            name: record[0].clone(),
            tag_type,
            aliases: split_aliases(record[3].as_str()),
        },
    )
}

impl BooruTagManager {
    /// Puts the tags of `records` into the dictionary, in order, a later one in place
    /// of an earlier one of the same name.
    pub fn load_records(&mut self, records: &Vec<Vec<String>>)
        requires
            old(self).wf(),
        ensures
            final(self).wf(),
            holds_records(old(self)@.tags, rows_of(records@), final(self)@.tags),
            final(self)@.suggestions == old(self)@.suggestions,
            final(self)@.current_input == old(self)@.current_input,
            final(self)@.selected == old(self)@.selected,
            final(self)@.is_focused == old(self)@.is_focused,
    {
        let ghost rows = rows_of(records@);
        let mut k: usize = 0;
        assert(rows.take(0) =~= Seq::empty());
        while k < records.len()
            invariant
                k <= records.len(),
                rows == rows_of(records@),
                self.wf(),
                holds_records(old(self)@.tags, rows.take(k as int), self@.tags),
                self@.suggestions == old(self)@.suggestions,
                self@.current_input == old(self)@.current_input,
                self@.selected == old(self)@.selected,
                self@.is_focused == old(self)@.is_focused,
            decreases records.len() - k,
        {
            let ghost middle = self@.tags;
            assert(rows.take(k + 1).drop_last() =~= rows.take(k as int));
            assert(rows.take(k + 1).last() == texts_of(records[k as int]@));
            match tag_from_record(&records[k]) {
                Some(tag) => {
                    self.insert(tag);
                    assert(self@.tags == with_tag(middle, tag));
                },
                None => {},
            }
            k = k + 1;
        }
        assert(rows.take(k as int) =~= rows);
    }

    /// Puts the tag that `record` describes into the dictionary; a record of fewer
    /// than four fields is passed over.
    pub fn load_record(&mut self, record: &Vec<String>)
        requires
            old(self).wf(),
        ensures
            final(self).wf(),
            holds_records(old(self)@.tags, seq![texts_of(record@)], final(self)@.tags),
            final(self)@.suggestions == old(self)@.suggestions,
            final(self)@.current_input == old(self)@.current_input,
            final(self)@.selected == old(self)@.selected,
            final(self)@.is_focused == old(self)@.is_focused,
    {
        let ghost before = self@.tags;
        let ghost rows = seq![texts_of(record@)];
        assert(rows.drop_last() =~= Seq::empty());
        assert(holds_records(before, rows.drop_last(), before));
        match tag_from_record(record) {
            Some(tag) => {
                self.insert(tag);
                assert(self@.tags == with_tag(before, tag));
            },
            None => {},
        }
    }

    /// Reads the dictionary out of the contents of its file: comma-separated records
    /// without a header row, of which the first, second and fourth field give a
    /// tag's name, type and aliases. The records before the first that cannot be
    /// read are put into the dictionary; one that cannot be read ends the reading
    /// with its error as text.
    pub fn load_from_csv(&mut self, contents: &str) -> (loaded: Result<(), String>)
        requires
            old(self).wf(),
        ensures
            final(self).wf(),
            holds_records(old(self)@.tags, readable(csv_records(contents@)), final(self)@.tags),
            loaded is Err == has_unreadable(csv_records(contents@)),
            final(self)@.suggestions == old(self)@.suggestions,
            final(self)@.current_input == old(self)@.current_input,
            final(self)@.selected == old(self)@.selected,
            final(self)@.is_focused == old(self)@.is_focused,
    {
        let rows = read_records(contents);
        let ghost all = csv_records(contents@);
        let mut k: usize = 0;
        proof {
            lemma_readable_prefix(all, 0);
        }
        while k < rows.len()
            invariant
                k <= rows.len(),
                all == rows_read(rows@),
                all == csv_records(contents@),
                self.wf(),
                forall|j: int| 0 <= j < k ==> (#[trigger] all[j]) is Some,
                holds_records(old(self)@.tags, readable(all.take(k as int)), self@.tags),
                self@.suggestions == old(self)@.suggestions,
                self@.current_input == old(self)@.current_input,
                self@.selected == old(self)@.selected,
                self@.is_focused == old(self)@.is_focused,
            decreases rows.len() - k,
        {
            let ghost middle = self@.tags;
            match &rows[k] {
                Ok(record) => {
                    proof {
                        lemma_readable_prefix(all, k as int + 1);
                        lemma_readable_prefix(all, k as int);
                        assert(all[k as int] == Some(texts_of(record@)));
                    }
                    self.load_record(record);
                    proof {
                        lemma_holds_one_more(
                            old(self)@.tags,
                            readable(all.take(k as int)),
                            middle,
                            texts_of(record@),
                            self@.tags,
                        );
                        let shorter = readable(all.take(k as int));
                        let longer = readable(all.take(k as int + 1));
                        assert forall|j: int| 0 <= j < longer.len() implies longer[j]
                            == shorter.push(texts_of(record@))[j] by {
                            assert(all[j] == Some(longer[j]));
                            if j < k {
                                assert(all[j] == Some(shorter[j]));
                            }
                        }
                        assert(longer =~= shorter.push(texts_of(record@)));
                    }
                },
                Err(error) => {
                    proof {
                        assert(all[k as int] is None);
                        lemma_readable_stops(all, k as int);
                    }
                    return Err(csv_error_text(error));
                },
            }
            k = k + 1;
        }
        proof {
            assert(all.take(k as int) =~= all);
        }
        Ok(())
    }
}

/// While every record so far could be read, what is readable grows by each record.
proof fn lemma_readable_prefix(rows: Seq<Option<Seq<Seq<char>>>>, k: int)
    requires
        0 <= k <= rows.len(),
        forall|j: int| 0 <= j < k ==> (#[trigger] rows[j]) is Some,
    ensures
        readable(rows.take(k)).len() == k,
        forall|j: int| 0 <= j < k ==> rows[j] == Some(#[trigger] readable(rows.take(k))[j]),
    decreases k,
{
    let taken = rows.take(k);
    if k > 0 {
        let rest = rows.drop_first();
        assert forall|j: int| 0 <= j < k - 1 implies (#[trigger] rest[j]) is Some by {
            assert(rows[j + 1] is Some);
        }
        lemma_readable_prefix(rest, k - 1);
        assert(taken.drop_first() =~= rest.take(k - 1));
        assert(taken[0] == rows[0]);
        assert forall|j: int| 0 <= j < k implies rows[j] == Some(
            #[trigger] readable(rows.take(k))[j],
        ) by {
            if j > 0 {
                assert(rest[j - 1] == Some(readable(rest.take(k - 1))[j - 1]));
            }
        }
    }
}

/// What is readable of rows ends before the first that could not be read.
proof fn lemma_readable_stops(rows: Seq<Option<Seq<Seq<char>>>>, k: int)
    requires
        0 <= k < rows.len(),
        forall|j: int| 0 <= j < k ==> (#[trigger] rows[j]) is Some,
        rows[k] is None,
    ensures
        readable(rows) == readable(rows.take(k)),
    decreases k,
{
    if k == 0 {
        assert(rows.take(0) =~= Seq::empty());
    } else {
        let rest = rows.drop_first();
        assert forall|j: int| 0 <= j < k - 1 implies (#[trigger] rest[j]) is Some by {
            assert(rows[j + 1] is Some);
        }
        assert(rows[0] is Some);
        lemma_readable_stops(rest, k - 1);
        assert(rows.take(k).drop_first() =~= rest.take(k - 1));
        assert(rows.take(k)[0] == rows[0]);
    }
}

/// A dictionary that holds some records, with one record more put in, holds them
/// all.
proof fn lemma_holds_one_more(
    before: Seq<BooruTag>,
    rows: Seq<Seq<Seq<char>>>,
    middle: Seq<BooruTag>,
    row: Seq<Seq<char>>,
    after: Seq<BooruTag>,
)
    requires
        holds_records(before, rows, middle),
        holds_records(middle, seq![row], after),
    ensures
        holds_records(before, rows.push(row), after),
{
    reveal_with_fuel(holds_records, 3);
    let one = seq![row];
    assert(one.drop_last() =~= Seq::empty());
    assert(one.last() == row);
    assert(rows.push(row).drop_last() =~= rows);
    assert(rows.push(row).last() == row);
    if row.len() >= 4 {
        let (inner, tag) = choose|inner: Seq<BooruTag>, tag: BooruTag|
            #![trigger with_tag(inner, tag)]
            holds_records(middle, one.drop_last(), inner) && describes(one.last(), tag) && after
                == with_tag(inner, tag);
        assert(inner == middle);
        assert(after == with_tag(middle, tag));
    }
}

} // verus!
