//! The rules of tag lists: how the text of a tag file is read and written, and how
//! a list changes when tags are added, removed or tidied.

use vstd::prelude::*;
use crate::text::{chars_of, string_of, texts_of};

verus! {

/// Whether `c` is white space: a character with the Unicode property `White_Space`,
/// which are the tab, the line feed, the vertical tab, the form feed, the carriage
/// return, the space, the next line, the no-break space, the Ogham space mark, the
/// spaces from the en quad to the hair space, the line and paragraph separators,
/// the narrow no-break space, the medium mathematical space and the ideographic
/// space.
pub open spec fn whitespace(c: char) -> bool {
    let code = c as u32;
    ||| 0x0009 <= code <= 0x000D
    ||| code == 0x0020
    ||| code == 0x0085
    ||| code == 0x00A0
    ||| code == 0x1680
    ||| 0x2000 <= code <= 0x200A
    ||| code == 0x2028
    ||| code == 0x2029
    ||| code == 0x202F
    ||| code == 0x205F
    ||| code == 0x3000
}

/// `char::is_whitespace`: whether the character has the Unicode property
/// `White_Space`.
#[verifier::external_body]
fn is_whitespace(c: char) -> (white: bool)
    ensures
        white == whitespace(c),
{
    c.is_whitespace()
}

/// The texts of `pieces`.
pub open spec fn views(pieces: Seq<Vec<char>>) -> Seq<Seq<char>> {
    Seq::new(pieces.len(), |i: int| pieces[i]@)
}

/// `text` without the white space at its beginning.
pub open spec fn trim_front(text: Seq<char>) -> Seq<char>
    decreases text.len(),
{
    if text.len() > 0 && whitespace(text[0]) {
        trim_front(text.drop_first())
    } else {
        text
    }
}

/// `text` without the white space at its end.
pub open spec fn trim_back(text: Seq<char>) -> Seq<char>
    decreases text.len(),
{
    if text.len() > 0 && whitespace(text.last()) {
        trim_back(text.drop_last())
    } else {
        text
    }
}

/// `text` without the white space at its beginning and end: what `str::trim`
/// gives.
pub open spec fn trimmed(text: Seq<char>) -> Seq<char> {
    trim_back(trim_front(text))
}

/// The pieces of `text` between the occurrences of `separator`: what `str::split`
/// gives. There is always one piece more than there are separators.
pub open spec fn split_on(text: Seq<char>, separator: char) -> Seq<Seq<char>>
    decreases text.len(),
{
    if text.len() == 0 {
        seq![Seq::<char>::empty()]
    } else {
        let front = split_on(text.drop_last(), separator);
        if text.last() == separator {
            front.push(Seq::empty())
        } else {
            front.update(front.len() - 1, front.last().push(text.last()))
        }
    }
}

/// Every piece trimmed.
pub open spec fn all_trimmed(pieces: Seq<Seq<char>>) -> Seq<Seq<char>> {
    Seq::new(pieces.len(), |i: int| trimmed(pieces[i]))
}

/// The pieces that are not empty, in order.
pub open spec fn non_empty(pieces: Seq<Seq<char>>) -> Seq<Seq<char>>
    decreases pieces.len(),
{
    if pieces.len() == 0 {
        Seq::empty()
    } else if pieces.last().len() == 0 {
        non_empty(pieces.drop_last())
    } else {
        non_empty(pieces.drop_last()).push(pieces.last())
    }
}

/// The tags that the text of a tag file holds: its pieces between commas, trimmed,
/// without the empty ones.
pub open spec fn tags_in(text: Seq<char>) -> Seq<Seq<char>> {
    non_empty(all_trimmed(split_on(text, ',')))
}

/// The aliases that a field of the dictionary holds: its pieces between commas,
/// trimmed.
pub open spec fn aliases_in(text: Seq<char>) -> Seq<Seq<char>> {
    all_trimmed(split_on(text, ','))
}

/// The text of a tag file: the tags with a comma and a blank between them.
pub open spec fn joined(tags: Seq<Seq<char>>) -> Seq<char>
    decreases tags.len(),
{
    if tags.len() == 0 {
        Seq::empty()
    } else if tags.len() == 1 {
        tags[0]
    } else {
        joined(tags.drop_last()).push(',').push(' ') + tags.last()
    }
}

/// `tags` with only the first occurrence of each tag.
pub open spec fn without_repeats(tags: Seq<Seq<char>>) -> Seq<Seq<char>>
    decreases tags.len(),
{
    if tags.len() == 0 {
        Seq::empty()
    } else {
        let rest = without_repeats(tags.drop_last());
        if rest.contains(tags.last()) {
            rest
        } else {
            rest.push(tags.last())
        }
    }
}

/// `tags` without any occurrence of `tag`.
pub open spec fn without(tags: Seq<Seq<char>>, tag: Seq<char>) -> Seq<Seq<char>>
    decreases tags.len(),
{
    if tags.len() == 0 {
        Seq::empty()
    } else if tags.last() == tag {
        without(tags.drop_last(), tag)
    } else {
        without(tags.drop_last(), tag).push(tags.last())
    }
}

/// How often `tag` occurs in `tags`.
pub open spec fn occurrences(tags: Seq<Seq<char>>, tag: Seq<char>) -> nat
    decreases tags.len(),
{
    if tags.len() == 0 {
        0
    } else {
        occurrences(tags.drop_last(), tag) + if tags.last() == tag {
            1nat
        } else {
            0nat
        }
    }
}

/// `tags` after `tag` was added: at the front or at the end, and then without
/// repeats, so that a tag added at the front moves there and a tag added at the
/// end that was there already changes nothing.
pub open spec fn with_added(tags: Seq<Seq<char>>, tag: Seq<char>, prepend: bool) -> Seq<Seq<char>> {
    if prepend {
        without_repeats(seq![tag] + tags)
    } else {
        without_repeats(tags.push(tag))
    }
}

/// `tags` with `tag` at the end, unless it is among them.
pub open spec fn with_unique(tags: Seq<Seq<char>>, tag: Seq<char>) -> Seq<Seq<char>> {
    if tags.contains(tag) {
        tags
    } else {
        tags.push(tag)
    }
}

/// `tags` with the activation tag `tag` at the front, unless it is empty or among
/// them.
pub open spec fn with_activation(tags: Seq<Seq<char>>, tag: Seq<char>) -> Seq<Seq<char>> {
    if tag.len() == 0 || tags.contains(tag) {
        tags
    } else {
        seq![tag] + tags
    }
}

/// `text` without the white space at its beginning and end.
pub fn trim(text: &Vec<char>) -> (out: Vec<char>)
    ensures
        out@ == trimmed(text@),
{
    let len = text.len();
    let mut start: usize = 0;
    assert(text@.subrange(0, len as int) =~= text@);
    while start < len && is_whitespace(text[start])
        invariant
            len == text.len(),
            start <= len,
            trim_front(text@) == trim_front(text@.subrange(start as int, len as int)),
        decreases len - start,
    {
        assert(text@.subrange(start as int, len as int).drop_first() =~= text@.subrange(
            start + 1,
            len as int,
        ));
        start = start + 1;
    }
    let mut end: usize = len;
    while end > start && is_whitespace(text[end - 1])
        invariant
            len == text.len(),
            start <= end <= len,
            trimmed(text@) == trim_back(text@.subrange(start as int, end as int)),
        decreases end,
    {
        assert(text@.subrange(start as int, end as int).drop_last() =~= text@.subrange(
            start as int,
            end - 1,
        ));
        end = end - 1;
    }
    let mut out: Vec<char> = Vec::new();
    let mut k: usize = start;
    while k < end
        invariant
            start <= k <= end <= text.len(),
            out@ == text@.subrange(start as int, k as int),
        decreases end - k,
    {
        out.push(text[k]);
        assert(text@.subrange(start as int, k + 1) =~= text@.subrange(start as int, k as int).push(
            text@[k as int],
        ));
        k = k + 1;
    }
    out
}

/// The pieces of `text` between the occurrences of `separator`.
pub fn split(text: &Vec<char>, separator: char) -> (pieces: Vec<Vec<char>>)
    ensures
        views(pieces@) == split_on(text@, separator),
        pieces.len() >= 1,
{
    let mut pieces: Vec<Vec<char>> = Vec::new();
    let mut current: Vec<char> = Vec::new();
    let mut k: usize = 0;
    assert(text@.take(0) =~= Seq::empty());
    assert(views(pieces@).push(current@) =~= split_on(text@.take(0), separator));
    while k < text.len()
        invariant
            k <= text.len(),
            views(pieces@).push(current@) == split_on(text@.take(k as int), separator),
        decreases text.len() - k,
    {
        let ghost before = views(pieces@).push(current@);
        let ghost done = views(pieces@);
        let ghost piece = current@;
        assert(text@.take(k + 1).drop_last() =~= text@.take(k as int));
        assert(text@.take(k + 1).last() == text@[k as int]);
        if text[k] == separator {
            pieces.push(current);
            current = Vec::new();
            assert(views(pieces@) =~= before);
            assert(views(pieces@).push(current@) =~= before.push(Seq::empty()));
        } else {
            current.push(text[k]);
            assert(views(pieces@).push(current@) =~= before.update(
                before.len() - 1,
                before.last().push(text@[k as int]),
            ));
        }
        k = k + 1;
    }
    assert(text@.take(k as int) =~= text@);
    pieces.push(current);
    assert(views(pieces@) =~= split_on(text@, separator));
    pieces
}

/// The tags that the text of a tag file holds.
pub fn process_tags_text(text: &str) -> (tags: Vec<String>)
    ensures
        texts_of(tags@) == tags_in(text@),
{
    let pieces = split(&chars_of(text), ',');
    let ghost all = all_trimmed(views(pieces@));
    let mut tags: Vec<String> = Vec::new();
    let mut k: usize = 0;
    assert(all.take(0) =~= Seq::empty());
    assert(texts_of(tags@) =~= non_empty(all.take(0)));
    while k < pieces.len()
        invariant
            k <= pieces.len(),
            all == all_trimmed(views(pieces@)),
            texts_of(tags@) == non_empty(all.take(k as int)),
        decreases pieces.len() - k,
    {
        let ghost before = texts_of(tags@);
        let tag = trim(&pieces[k]);
        assert(all.take(k + 1).drop_last() =~= all.take(k as int));
        assert(all.take(k + 1).last() == tag@);
        if tag.len() > 0 {
            tags.push(string_of(&tag));
            assert(texts_of(tags@) =~= before.push(tag@));
        }
        k = k + 1;
    }
    assert(all.take(k as int) =~= all);
    tags
}

/// The aliases that a field of the dictionary holds.
pub fn split_aliases(text: &str) -> (aliases: Vec<String>)
    ensures
        texts_of(aliases@) == aliases_in(text@),
{
    let pieces = split(&chars_of(text), ',');
    let mut aliases: Vec<String> = Vec::new();
    let mut k: usize = 0;
    while k < pieces.len()
        invariant
            k <= pieces.len(),
            aliases.len() == k,
            forall|j: int| 0 <= j < k ==> (#[trigger] aliases[j])@ == trimmed(pieces[j]@),
        decreases pieces.len() - k,
    {
        let alias = trim(&pieces[k]);
        aliases.push(string_of(&alias));
        k = k + 1;
    }
    assert(texts_of(aliases@) =~= aliases_in(text@));
    aliases
}

/// The text of a tag file: the tags with a comma and a blank between them.
pub fn join_tags(tags: &Vec<String>) -> (text: String)
    ensures
        text@ == joined(texts_of(tags@)),
{
    let ghost all = texts_of(tags@);
    let mut out: Vec<char> = Vec::new();
    let mut k: usize = 0;
    assert(all.take(0) =~= Seq::empty());
    while k < tags.len()
        invariant
            k <= tags.len(),
            all == texts_of(tags@),
            out@ == joined(all.take(k as int)),
        decreases tags.len() - k,
    {
        let ghost before = out@;
        assert(all.take(k + 1).drop_last() =~= all.take(k as int));
        assert(all.take(k + 1).last() == tags[k as int]@);
        if k > 0 {
            out.push(',');
            out.push(' ');
        }
        let ghost separated = out@;
        let tag = chars_of(tags[k].as_str());
        let mut j: usize = 0;
        while j < tag.len()
            invariant
                j <= tag.len(),
                out@ == separated + tag@.take(j as int),
            decreases tag.len() - j,
        {
            out.push(tag[j]);
            assert(tag@.take(j + 1) =~= tag@.take(j as int).push(tag@[j as int]));
            assert(out@ =~= separated + tag@.take(j + 1));
            j = j + 1;
        }
        assert(tag@.take(j as int) =~= tag@);
        proof {
            if k == 0 {
                assert(all.take(1)[0] == tag@);
                assert(out@ =~= tag@);
            }
        }
        k = k + 1;
    }
    assert(all.take(k as int) =~= all);
    string_of(&out)
}

/// Whether `tag` is among `tags`.
pub fn contains_tag(tags: &Vec<String>, tag: &String) -> (found: bool)
    ensures
        found == texts_of(tags@).contains(tag@),
{
    let mut k: usize = 0;
    while k < tags.len()
        invariant
            k <= tags.len(),
            forall|j: int| 0 <= j < k ==> texts_of(tags@)[j] != tag@,
        decreases tags.len() - k,
    {
        if tags[k] == *tag {
            assert(texts_of(tags@)[k as int] == tag@);
            return true;
        }
        k = k + 1;
    }
    false
}

/// How often `tag` occurs in `tags`.
pub fn count_occurrences(tags: &Vec<String>, tag: &String) -> (count: usize)
    ensures
        count == occurrences(texts_of(tags@), tag@),
{
    let ghost all = texts_of(tags@);
    let mut count: usize = 0;
    let mut k: usize = 0;
    assert(all.take(0) =~= Seq::empty());
    while k < tags.len()
        invariant
            k <= tags.len(),
            all == texts_of(tags@),
            count == occurrences(all.take(k as int), tag@),
            count <= k,
        decreases tags.len() - k,
    {
        assert(all.take(k + 1).drop_last() =~= all.take(k as int));
        assert(all.take(k + 1).last() == tags[k as int]@);
        if tags[k] == *tag {
            count = count + 1;
        }
        k = k + 1;
    }
    assert(all.take(k as int) =~= all);
    count
}

/// `tags` with only the first occurrence of each tag.
pub fn remove_duplicates(tags: &Vec<String>) -> (kept: Vec<String>)
    ensures
        texts_of(kept@) == without_repeats(texts_of(tags@)),
{
    let ghost all = texts_of(tags@);
    let mut kept: Vec<String> = Vec::new();
    let mut k: usize = 0;
    assert(all.take(0) =~= Seq::empty());
    assert(texts_of(kept@) =~= without_repeats(all.take(0)));
    while k < tags.len()
        invariant
            k <= tags.len(),
            all == texts_of(tags@),
            texts_of(kept@) == without_repeats(all.take(k as int)),
        decreases tags.len() - k,
    {
        let ghost before = texts_of(kept@);
        assert(all.take(k + 1).drop_last() =~= all.take(k as int));
        assert(all.take(k + 1).last() == tags[k as int]@);
        if !contains_tag(&kept, &tags[k]) {
            kept.push(tags[k].clone());
            assert(texts_of(kept@) =~= before.push(tags[k as int]@));
        }
        k = k + 1;
    }
    assert(all.take(k as int) =~= all);
    kept
}

/// `tags` without any occurrence of `tag`.
pub fn remove_tag(tags: &Vec<String>, tag: &String) -> (kept: Vec<String>)
    ensures
        texts_of(kept@) == without(texts_of(tags@), tag@),
{
    let ghost all = texts_of(tags@);
    let mut kept: Vec<String> = Vec::new();
    let mut k: usize = 0;
    assert(all.take(0) =~= Seq::empty());
    assert(texts_of(kept@) =~= without(all.take(0), tag@));
    while k < tags.len()
        invariant
            k <= tags.len(),
            all == texts_of(tags@),
            texts_of(kept@) == without(all.take(k as int), tag@),
        decreases tags.len() - k,
    {
        let ghost before = texts_of(kept@);
        assert(all.take(k + 1).drop_last() =~= all.take(k as int));
        assert(all.take(k + 1).last() == tags[k as int]@);
        if !(tags[k] == *tag) {
            kept.push(tags[k].clone());
            assert(texts_of(kept@) =~= before.push(tags[k as int]@));
        }
        k = k + 1;
    }
    assert(all.take(k as int) =~= all);
    kept
}

fn copy_after(first: Option<&String>, tags: &Vec<String>, last: Option<&String>) -> (out: Vec<String>)
    ensures
        texts_of(out@) == (match first {
            Some(f) => seq![f@],
            None => Seq::empty(),
        }) + texts_of(tags@) + (match last {
            Some(l) => seq![l@],
            None => Seq::empty(),
        }),
{
    let mut out: Vec<String> = Vec::new();
    let ghost head: Seq<Seq<char>> = match first {
        Some(f) => seq![f@],
        None => Seq::empty(),
    };
    match first {
        Some(f) => {
            out.push(f.clone());
        },
        None => {},
    }
    assert(texts_of(out@) =~= head);
    let mut k: usize = 0;
    while k < tags.len()
        invariant
            k <= tags.len(),
            texts_of(out@) == head + texts_of(tags@).take(k as int),
        decreases tags.len() - k,
    {
        let ghost before = texts_of(out@);
        out.push(tags[k].clone());
        assert(texts_of(out@) =~= before.push(tags[k as int]@));
        assert(texts_of(tags@).take(k + 1) =~= texts_of(tags@).take(k as int).push(tags[k as int]@));
        k = k + 1;
    }
    assert(texts_of(tags@).take(k as int) =~= texts_of(tags@));
    let ghost body = texts_of(out@);
    match last {
        Some(l) => {
            out.push(l.clone());
            assert(texts_of(out@) =~= body.push(l@));
        },
        None => {},
    }
    assert(texts_of(out@) =~= head + texts_of(tags@) + (match last {
        Some(l) => seq![l@],
        None => Seq::empty(),
    }));
    out
}

/// `tags` after `tag` was added, at the front or at the end, without repeats.
pub fn add_tag(tags: &Vec<String>, tag: &String, prepend: bool) -> (out: Vec<String>)
    ensures
        texts_of(out@) == with_added(texts_of(tags@), tag@, prepend),
{
    let all = if prepend {
        copy_after(Some(tag), tags, None)
    } else {
        copy_after(None, tags, Some(tag))
    };
    proof {
        if prepend {
            assert(texts_of(all@) =~= seq![tag@] + texts_of(tags@));
        } else {
            assert(texts_of(all@) =~= texts_of(tags@).push(tag@));
        }
    }
    remove_duplicates(&all)
}

/// `tags` with `tag` at the end, unless it is among them.
pub fn add_unique(tags: &Vec<String>, tag: &String) -> (out: Vec<String>)
    ensures
        texts_of(out@) == with_unique(texts_of(tags@), tag@),
{
    if contains_tag(tags, tag) {
        let out = copy_after(None, tags, None);
        assert(texts_of(out@) =~= texts_of(tags@));
        out
    } else {
        let out = copy_after(None, tags, Some(tag));
        assert(texts_of(out@) =~= texts_of(tags@).push(tag@));
        out
    }
}

/// `tags` with the activation tag at the front, unless it is empty or among them.
pub fn apply_activation_tag(tags: &Vec<String>, tag: &String) -> (out: Vec<String>)
    ensures
        texts_of(out@) == with_activation(texts_of(tags@), tag@),
{
    if tag.as_str().is_empty() || contains_tag(tags, tag) {
        let out = copy_after(None, tags, None);
        assert(texts_of(out@) =~= texts_of(tags@));
        out
    } else {
        let out = copy_after(Some(tag), tags, None);
        assert(texts_of(out@) =~= seq![tag@] + texts_of(tags@));
        out
    }
}

} // verus!
