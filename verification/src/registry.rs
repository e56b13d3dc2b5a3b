//! The image registry: the ordered entries of one loaded directory. An entry's
//! position is its index, stable until the next load.

use vstd::prelude::*;
use crate::tags::{process_tags_text, tags_in};
use crate::text::{chars_of, same_text, texts_of};

verus! {

/// One image of the loaded directory.
#[derive(Clone, Debug)]
pub struct ImageEntry {
    pub index: usize,
    pub path: String,
    pub tags: Vec<String>,
    pub fingerprint: Option<Vec<u8>>,
}

/// The entries of the loaded directory, each at the position that its `index` names.
pub struct Registry {
    entries: Vec<ImageEntry>,
}

impl View for Registry {
    type V = Seq<ImageEntry>;

    closed spec fn view(&self) -> Seq<ImageEntry> {
        self.entries@
    }
}

/// Whether files with the extension `extension` are images of the directory: `jpg`,
/// `jpeg` and `png`, in small letters.
pub open spec fn image_extension(extension: Seq<char>) -> bool {
    extension == seq!['j', 'p', 'g'] || extension == seq!['j', 'p', 'e', 'g'] || extension
        == seq!['p', 'n', 'g']
}

/// Whether files with the extension `extension` are images of the directory.
pub fn is_image_extension(extension: &str) -> (image: bool)
    ensures
        image == image_extension(extension@),
{
    let given = chars_of(extension);
    let jpg = vec!['j', 'p', 'g'];
    let jpeg = vec!['j', 'p', 'e', 'g'];
    let png = vec!['p', 'n', 'g'];
    assert(jpg@ =~= seq!['j', 'p', 'g']);
    assert(jpeg@ =~= seq!['j', 'p', 'e', 'g']);
    assert(png@ =~= seq!['p', 'n', 'g']);
    same_text(&given, &jpg) || same_text(&given, &jpeg) || same_text(&given, &png)
}

/// One name of a directory listing: where it is, its extension if it has one,
/// whether it is a regular file, and the text of the tag file beside it, where
/// there is one that can be read.
#[derive(Clone, Debug)]
pub struct ListedFile {
    pub path: String,
    pub extension: Option<String>,
    pub is_file: bool,
    pub tag_text: Option<String>,
}

/// Whether `file` becomes an entry: a regular file with the extension of an image.
pub open spec fn is_image_file(file: ListedFile) -> bool {
    file.is_file && match file.extension {
        Some(extension) => image_extension(extension@),
        None => false,
    }
}

/// The tags that `file` comes with: those of its tag file, or none.
pub open spec fn tags_beside(file: ListedFile) -> Seq<Seq<char>> {
    match file.tag_text {
        Some(text) => tags_in(text@),
        None => Seq::empty(),
    }
}

/// The images of a listing, in its order, each as its path and its tags.
pub open spec fn sources_of(listing: Seq<ListedFile>) -> Seq<(Seq<char>, Seq<Seq<char>>)>
    decreases listing.len(),
{
    if listing.len() == 0 {
        Seq::empty()
    } else if is_image_file(listing.last()) {
        sources_of(listing.drop_last()).push((listing.last().path@, tags_beside(listing.last())))
    } else {
        sources_of(listing.drop_last())
    }
}

/// What `sources` hold, as texts.
pub open spec fn source_texts(sources: Seq<(String, Vec<String>)>) -> Seq<(Seq<char>, Seq<Seq<char>>)> {
    Seq::new(sources.len(), |i: int| (sources[i].0@, texts_of(sources[i].1@)))
}

/// The `(path, tags)` pairs that a directory listing gives the registry: in the
/// order of the listing, the regular files with the extension of an image, each
/// with the tags of the tag file beside it, or with none.
pub fn image_sources(listing: &Vec<ListedFile>) -> (sources: Vec<(String, Vec<String>)>)
    ensures
        source_texts(sources@) == sources_of(listing@),
{
    let mut sources: Vec<(String, Vec<String>)> = Vec::new();
    let mut k: usize = 0;
    assert(listing@.take(0) =~= Seq::empty());
    assert(source_texts(sources@) =~= sources_of(listing@.take(0)));
    while k < listing.len()
        invariant
            k <= listing.len(),
            source_texts(sources@) == sources_of(listing@.take(k as int)),
        decreases listing.len() - k,
    {
        let ghost before = source_texts(sources@);
        let file = &listing[k];
        assert(listing@.take(k + 1).drop_last() =~= listing@.take(k as int));
        assert(listing@.take(k + 1).last() == *file);
        let image = file.is_file && match &file.extension {
            Some(extension) => is_image_extension(extension.as_str()),
            None => false,
        };
        if image {
            let tags = match &file.tag_text {
                Some(text) => process_tags_text(text.as_str()),
                None => Vec::new(),
            };
            assert(texts_of(tags@) =~= tags_beside(*file));
            sources.push((file.path.clone(), tags));
            assert(source_texts(sources@) =~= before.push((file.path@, tags_beside(*file))));
        }
        k = k + 1;
    }
    assert(listing@.take(k as int) =~= listing@);
    sources
}

/// Every entry of `entries` stands at the position that its `index` names.
pub open spec fn indexed_in_order(entries: Seq<ImageEntry>) -> bool {
    forall|i: int| 0 <= i < entries.len() ==> (#[trigger] entries[i]).index == i
}

/// Nothing has been decoded for any entry of `entries` yet.
pub open spec fn no_fingerprints(entries: Seq<ImageEntry>) -> bool {
    forall|i: int| 0 <= i < entries.len() ==> (#[trigger] entries[i]).fingerprint is None
}

impl Registry {
    /// Whether each entry stands at its index.
    pub open spec fn wf(&self) -> bool {
        indexed_in_order(self@)
    }

    /// A registry without entries.
    pub fn new() -> (registry: Self)
        ensures
            registry@.len() == 0,
            registry.wf(),
    {
        Registry { entries: Vec::new() }
    }

    /// Replaces the registry by one entry per `(path, tags)` pair, in the order
    /// given, each without a fingerprint.
    pub fn load(&mut self, sources: Vec<(String, Vec<String>)>)
        ensures
            final(self).wf(),
            final(self)@.len() == sources.len(),
            no_fingerprints(final(self)@),
            forall|i: int|
                0 <= i < sources.len() ==> {
                    &&& (#[trigger] final(self)@[i]).path == sources[i].0
                    &&& final(self)@[i].tags == sources[i].1
                },
    {
        let mut sources = sources;
        let ghost given = sources@;
        let total: usize = sources.len();
        // Nothing is copied: the pairs are moved onto a stack, which turns their
        // order round, and from there into the registry, which restores it.
        let mut stack: Vec<(String, Vec<String>)> = Vec::new();
        while sources.len() > 0
            invariant
                total == given.len(),
                sources.len() + stack.len() == total,
                sources@ == given.subrange(0, sources.len() as int),
                forall|j: int| 0 <= j < stack.len() ==> (#[trigger] stack[j]) == given[total - 1 - j],
            decreases sources.len(),
        {
            let source = sources.pop().unwrap();
            stack.push(source);
        }
        let mut entries: Vec<ImageEntry> = Vec::new();
        while stack.len() > 0
            invariant
                total == given.len(),
                entries.len() + stack.len() == total,
                forall|j: int| 0 <= j < stack.len() ==> (#[trigger] stack[j]) == given[total - 1 - j],
                forall|j: int|
                    0 <= j < entries.len() ==> {
                        &&& (#[trigger] entries[j]).index == j
                        &&& entries[j].path == given[j].0
                        &&& entries[j].tags == given[j].1
                        &&& entries[j].fingerprint is None
                    },
            decreases stack.len(),
        {
            let index: usize = entries.len();
            let source = stack.pop().unwrap();
            entries.push(ImageEntry { index, path: source.0, tags: source.1, fingerprint: None });
        }
        self.entries = entries;
    }

    /// The number of entries.
    pub fn len(&self) -> (n: usize)
        ensures
            n == self@.len(),
    {
        self.entries.len()
    }

    /// The entry at `index`, if the registry has one.
    pub fn get(&self, index: usize) -> (entry: Option<&ImageEntry>)
        ensures
            index < self@.len() ==> entry == Some(&self@[index as int]),
            index >= self@.len() ==> entry is None,
    {
        if index < self.entries.len() {
            Some(&self.entries[index])
        } else {
            None
        }
    }

    /// Writes the fingerprint of the entry at `index`. An index outside the registry
    /// changes nothing.
    pub fn set_fingerprint(&mut self, index: usize, fingerprint: Vec<u8>)
        requires
            old(self).wf(),
        ensures
            final(self).wf(),
            final(self)@.len() == old(self)@.len(),
            index < old(self)@.len() ==> final(self)@ == old(self)@.update(
                index as int,
                (ImageEntry { fingerprint: Some(fingerprint), ..old(self)@[index as int] }),
            ),
            index >= old(self)@.len() ==> final(self)@ == old(self)@,
    {
        if index < self.entries.len() {
            self.entries[index].fingerprint = Some(fingerprint);
        }
    }
    /// Replaces the tags of the entry at `index`. An index outside the registry
    /// changes nothing.
    pub fn set_tags(&mut self, index: usize, tags: Vec<String>)
        requires
            old(self).wf(),
        ensures
            final(self).wf(),
            final(self)@.len() == old(self)@.len(),
            index < old(self)@.len() ==> final(self)@ == old(self)@.update(
                index as int,
                (ImageEntry { tags, ..old(self)@[index as int] }),
            ),
            index >= old(self)@.len() ==> final(self)@ == old(self)@,
    {
        if index < self.entries.len() {
            self.entries[index].tags = tags;
        }
    }
}

} // verus!
