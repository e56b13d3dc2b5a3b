//! The messages that workers send to the consumer: one terminal decode result per
//! index, and advisory progress events.

use vstd::prelude::*;

verus! {

/// A decoded image as the cache takes it: dimensions and non-premultiplied RGBA8
/// pixels, row by row.
#[derive(Clone, Debug)]
pub struct CacheEntry {
    pub width: u32,
    pub height: u32,
    pub pixels: Vec<u8>,
}

/// The terminal message for one index. It is consumed exactly once.
#[derive(Clone, Debug)]
pub enum DecodeResult {
    ImageDecoded { index: usize, width: u32, height: u32, pixels: Vec<u8>, fingerprint: Vec<u8> },
    DecodeError { index: usize, message: String },
}

/// A lifecycle event of one index. Advisory: losing one affects feedback only.
#[derive(Clone, Copy, Debug, PartialEq, Eq, Structural)]
pub enum ProgressEvent {
    Started { index: usize },
    Loading { index: usize },
    Resizing { index: usize },
    Completed { index: usize },
    Error { index: usize },
}

impl DecodeResult {
    /// The index that the message is about.
    pub open spec fn spec_index(&self) -> usize {
        match self {
            DecodeResult::ImageDecoded { index, .. } => *index,
            DecodeResult::DecodeError { index, .. } => *index,
        }
    }

    /// The index that the message is about.
    #[verifier::when_used_as_spec(spec_index)]
    pub fn index(&self) -> (index: usize)
        ensures
            index == self.spec_index(),
    {
        match self {
            DecodeResult::ImageDecoded { index, .. } => *index,
            DecodeResult::DecodeError { index, .. } => *index,
        }
    }

    /// Whether the message is the failure of `index` with the text `message`.
    pub open spec fn is_failure(&self, index: usize, message: Seq<char>) -> bool {
        match self {
            DecodeResult::DecodeError { index: i, message: m } => *i == index && m@ == message,
            DecodeResult::ImageDecoded { .. } => false,
        }
    }

    /// Whether the message is the image of `index` with this size, these pixels and
    /// this fingerprint.
    pub open spec fn is_image(
        &self,
        index: usize,
        width: u32,
        height: u32,
        pixels: Seq<u8>,
        fingerprint: Seq<u8>,
    ) -> bool {
        match self {
            DecodeResult::ImageDecoded { index: i, width: w, height: h, pixels: p, fingerprint: f } => {
                *i == index && *w == width && *h == height && p@ == pixels && f@ == fingerprint
            },
            DecodeResult::DecodeError { .. } => false,
        }
    }

    /// Whether the message carries an image.
    pub fn is_decoded(&self) -> (decoded: bool)
        ensures
            decoded == (self is ImageDecoded),
    {
        match self {
            DecodeResult::ImageDecoded { .. } => true,
            DecodeResult::DecodeError { .. } => false,
        }
    }
}

impl ProgressEvent {
    /// The index that the event is about.
    pub open spec fn spec_index(&self) -> usize {
        match self {
            ProgressEvent::Started { index } => *index,
            ProgressEvent::Loading { index } => *index,
            ProgressEvent::Resizing { index } => *index,
            ProgressEvent::Completed { index } => *index,
            ProgressEvent::Error { index } => *index,
        }
    }

    /// The index that the event is about.
    #[verifier::when_used_as_spec(spec_index)]
    pub fn index(&self) -> (index: usize)
        ensures
            index == self.spec_index(),
    {
        match self {
            ProgressEvent::Started { index } => *index,
            ProgressEvent::Loading { index } => *index,
            ProgressEvent::Resizing { index } => *index,
            ProgressEvent::Completed { index } => *index,
            ProgressEvent::Error { index } => *index,
        }
    }

    /// Whether the event ends the life of its index: `Completed` or `Error`.
    pub open spec fn spec_is_terminal(&self) -> bool {
        self is Completed || self is Error
    }

    /// Whether the event ends the life of its index: `Completed` or `Error`.
    #[verifier::when_used_as_spec(spec_is_terminal)]
    pub fn is_terminal(&self) -> (terminal: bool)
        ensures
            terminal == self.spec_is_terminal(),
    {
        match self {
            ProgressEvent::Completed { .. } => true,
            ProgressEvent::Error { .. } => true,
            _ => false,
        }
    }
}

} // verus!
