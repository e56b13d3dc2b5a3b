//! The worker: from the bytes of one image file to its terminal message. Decoding
//! and resampling are the `image` crate's; the sizes, the fingerprint, the messages
//! and their order are decided here.

use vstd::prelude::*;
use vstd::string::StringExecFns;
use crate::fingerprint::{fingerprint, fingerprint_of, THUMBNAIL_PIXELS, THUMBNAIL_SIDE};
use crate::inflight::InFlightSet;
use crate::messages::{CacheEntry, DecodeResult, ProgressEvent};
use crate::registry::ImageEntry;

verus! {

/// The longest edge of an image prepared for display.
pub const DISPLAY_EDGE: u32 = 800;

/// The resampling filters in use: `Nearest` for what workers prepare, `Triangle`
/// for what the consumer decodes itself.
#[derive(Clone, Copy, Debug, PartialEq, Eq, Structural)]
pub enum Resampling {
    Nearest,
    Triangle,
}

/// What `image::ImageReader::decode` makes of `bytes`, read in the format that
/// `image::ImageFormat::from_path` finds for `path`: the width and height of the
/// image, or the error as text. The format goes by the extension that
/// `std::path::Path::extension` finds in the path, read as the target of the build
/// reads paths.
pub uninterp spec fn decoded_size(path: Seq<char>, bytes: Seq<u8>) -> Result<(u32, u32), Seq<char>>;

/// The luminances of the image that `bytes` decode to under `path`, after
/// `image::DynamicImage::resize_exact` to `side` by `side`, `grayscale` and
/// `to_luma8`: one byte for each pixel, row by row.
pub uninterp spec fn thumbnail_luma(path: Seq<char>, bytes: Seq<u8>, side: u32, filter: Resampling) -> Seq<
    u8,
>;

/// The pixels of the image that `bytes` decode to under `path`, after
/// `image::DynamicImage::resize_exact` to `width` by `height` and `to_rgba8`: four
/// bytes for each pixel, row by row, alpha not premultiplied.
pub uninterp spec fn resampled_rgba(
    path: Seq<char>,
    bytes: Seq<u8>,
    width: u32,
    height: u32,
    filter: Resampling,
) -> Seq<u8>;

/// What `image::DynamicImage::resize` makes of the image that `bytes` decode to
/// under `path`: its size, the largest of its own aspect ratio inside `width` by
/// `height`, and its pixels by `to_rgba8`; nothing where the bytes do not decode.
pub uninterp spec fn fitted_rgba(
    path: Seq<char>,
    bytes: Seq<u8>,
    width: u32,
    height: u32,
    filter: Resampling,
) -> Option<((u32, u32), Seq<u8>)>;

/// What was examined, as contracts see it.
pub open spec fn examined_size(examined: Result<((u32, u32), Vec<u8>), String>) -> Result<
    (u32, u32),
    Seq<char>,
> {
    match examined {
        Ok(found) => Ok(found.0),
        Err(text) => Err(text@),
    }
}

/// What was fitted, as contracts see it.
pub open spec fn fitted_view(fitted: Option<((u32, u32), Vec<u8>)>) -> Option<((u32, u32), Seq<u8>)> {
    match fitted {
        Some(found) => Some((found.0, found.1@)),
        None => None,
    }
}

/// `image::ImageReader::decode` on a reader over `bytes`, set to the format that
/// `image::ImageFormat::from_path` finds for `path` or to none; then, of what was
/// decoded, `width` and `height`, and `resize_exact`, `grayscale` and `to_luma8` for
/// a thumbnail of `side` by `side`, of which each pixel is handed out as its one
/// sample. The thumbnail has `side` times `side` pixels whatever the image.
#[verifier::external_body]
fn examine(path: &str, bytes: &[u8], side: u32, filter: Resampling) -> (examined: Result<
    ((u32, u32), Vec<u8>),
    String,
>)
    requires
        side <= DISPLAY_EDGE,
    ensures
        examined_size(examined) == decoded_size(path@, bytes@),
        examined matches Ok(found) ==> found.1@ == thumbnail_luma(path@, bytes@, side, filter)
            && found.1.len() == side * side,
{
    let mut reader = image::ImageReader::new(std::io::Cursor::new(bytes));
    if let Ok(format) = image::ImageFormat::from_path(path) {
        reader.set_format(format);
    }
    let filter = match filter {
        Resampling::Nearest => image::imageops::FilterType::Nearest,
        Resampling::Triangle => image::imageops::FilterType::Triangle,
    };
    let image = reader.decode().map_err(|error| error.to_string())?;
    let small = image.resize_exact(side, side, filter).grayscale().to_luma8();
    Ok(((image.width(), image.height()), small.pixels().flat_map(|pixel| pixel.0).collect()))
}

/// `image::ImageReader::decode` as in `examine`, then `resize_exact` to `width` by
/// `height` and `to_rgba8`, of which each pixel is handed out as its four samples.
/// There are `width` times `height` pixels whatever the image. The bound on the new
/// size keeps the lengths of the buffers that the crate allocates on the way inside
/// `usize` for any image that memory can hold.
#[verifier::external_body]
fn resample(path: &str, bytes: &[u8], width: u32, height: u32, filter: Resampling) -> (pixels: Vec<
    u8,
>)
    requires
        width <= DISPLAY_EDGE,
        height <= DISPLAY_EDGE,
        decoded_size(path@, bytes@) is Ok,
    ensures
        pixels@ == resampled_rgba(path@, bytes@, width, height, filter),
        pixels.len() == 4 * width * height,
{
    let mut reader = image::ImageReader::new(std::io::Cursor::new(bytes));
    if let Ok(format) = image::ImageFormat::from_path(path) {
        reader.set_format(format);
    }
    let filter = match filter {
        Resampling::Nearest => image::imageops::FilterType::Nearest,
        Resampling::Triangle => image::imageops::FilterType::Triangle,
    };
    let resized = reader.decode().map(|image| image.resize_exact(width, height, filter).to_rgba8());
    resized.map(|image| image.pixels().flat_map(|pixel| pixel.0).collect()).unwrap_or_default()
}

/// `image::ImageReader::decode` as in `examine`, then `image::DynamicImage::resize`
/// into `width` by `height` and `to_rgba8`, handed out with its width and height,
/// each pixel as its four samples. Nothing comes back exactly where the bytes do
/// not decode, and there are as many pixels as the size that is handed out says.
#[verifier::external_body]
fn fit(path: &str, bytes: &[u8], width: u32, height: u32, filter: Resampling) -> (fitted: Option<
    ((u32, u32), Vec<u8>),
>)
    requires
        width <= DISPLAY_EDGE,
        height <= DISPLAY_EDGE,
    ensures
        fitted_view(fitted) == fitted_rgba(path@, bytes@, width, height, filter),
        fitted is None == decoded_size(path@, bytes@) is Err,
        fitted matches Some(found) ==> found.1.len() == 4 * found.0.0 * found.0.1,
{
    let mut reader = image::ImageReader::new(std::io::Cursor::new(bytes));
    if let Ok(format) = image::ImageFormat::from_path(path) {
        reader.set_format(format);
    }
    let filter = match filter {
        Resampling::Nearest => image::imageops::FilterType::Nearest,
        Resampling::Triangle => image::imageops::FilterType::Triangle,
    };
    let resized = reader.decode().ok().map(|image| image.resize(width, height, filter).to_rgba8());
    resized.map(|image| (image.dimensions(), image.pixels().flat_map(|pixel| pixel.0).collect()))
}

/// One edge of the display size: `DISPLAY_EDGE` scaled by `this` over `other`,
/// rounded down and clamped to `DISPLAY_EDGE`. Over an edge of 0 the scale is
/// unbounded, and the clamp decides.
pub open spec fn display_extent(this: u32, other: u32) -> int {
    if other == 0 {
        DISPLAY_EDGE as int
    } else if (DISPLAY_EDGE * this) / (other as int) >= DISPLAY_EDGE {
        DISPLAY_EDGE as int
    } else {
        (DISPLAY_EDGE * this) / (other as int)
    }
}

/// The size at which an image of `width` by `height` is kept for display: the
/// longer edge becomes `DISPLAY_EDGE`, the shorter one keeps the proportion.
pub fn display_size(width: u32, height: u32) -> (size: (u32, u32))
    ensures
        size.0 == display_extent(width, height),
        size.1 == display_extent(height, width),
        size.0 <= DISPLAY_EDGE,
        size.1 <= DISPLAY_EDGE,
        width >= height && height > 0 ==> size.0 == DISPLAY_EDGE,
        height >= width && width > 0 ==> size.1 == DISPLAY_EDGE,
{
    proof {
        if width >= height && height > 0 {
            assert((800 * width) / (height as int) >= 800) by (nonlinear_arith)
                requires
                    width >= height,
                    height > 0,
            ;
        }
        if height >= width && width > 0 {
            assert((800 * height) / (width as int) >= 800) by (nonlinear_arith)
                requires
                    height >= width,
                    width > 0,
            ;
        }
    }
    (display_edge(width, height), display_edge(height, width))
}

fn display_edge(this: u32, other: u32) -> (edge: u32)
    ensures
        edge == display_extent(this, other),
        edge <= DISPLAY_EDGE,
{
    if other == 0 {
        return DISPLAY_EDGE;
    }
    let limit: u64 = DISPLAY_EDGE as u64;
    assert(limit == 800);
    let scaled: u64 = (limit * this as u64) / (other as u64);
    if scaled >= DISPLAY_EDGE as u64 {
        DISPLAY_EDGE
    } else {
        scaled as u32
    }
}

/// The number of bytes of an RGBA8 buffer of `width` by `height`.
pub open spec fn rgba_len(width: u32, height: u32) -> int {
    4 * width * height
}

/// Whether `pixels` holds exactly four bytes for each pixel of `width` by `height`.
pub fn fills_rgba(pixels: &Vec<u8>, width: u32, height: u32) -> (fills: bool)
    ensures
        fills == (pixels.len() == rgba_len(width, height)),
{
    assert(width * height <= 0xffff_ffff * 0xffff_ffff) by (nonlinear_arith)
        requires
            width <= 0xffff_ffff,
            height <= 0xffff_ffff,
    ;
    let wanted: u128 = 4 * (width as u128 * height as u128);
    assert(wanted == 4 * width * height) by (nonlinear_arith)
        requires
            wanted == 4 * (width * height),
    ;
    pixels.len() as u128 == wanted
}

/// What one job hands to the channels: its progress events in the order of their
/// emission, and its one terminal message.
#[derive(Clone, Debug)]
pub struct WorkerOutput {
    pub events: Vec<ProgressEvent>,
    pub result: DecodeResult,
}

/// How far a job came.
#[derive(Clone, Copy, Debug, PartialEq, Eq, Structural)]
pub enum Stage {
    /// The file could not be read, or its bytes could not be decoded.
    FailedLoading,
    /// The image was decoded, and what came of resampling it could not be used.
    FailedResizing,
    /// The image is ready.
    Done,
}

/// The progress events of a job for `index` that ended at `stage`: `Started`, then
/// `Loading`, then `Resizing` where the image was decoded, then the terminal event.
pub open spec fn trace_of(index: usize, stage: Stage) -> Seq<ProgressEvent> {
    match stage {
        Stage::FailedLoading => seq![
            ProgressEvent::Started { index },
            ProgressEvent::Loading { index },
            ProgressEvent::Error { index },
        ],
        Stage::FailedResizing => seq![
            ProgressEvent::Started { index },
            ProgressEvent::Loading { index },
            ProgressEvent::Resizing { index },
            ProgressEvent::Error { index },
        ],
        Stage::Done => seq![
            ProgressEvent::Started { index },
            ProgressEvent::Loading { index },
            ProgressEvent::Resizing { index },
            ProgressEvent::Completed { index },
        ],
    }
}

/// The text before the detail of a file that could not be read.
pub open spec fn open_error_prefix() -> Seq<char> {
    "open error: "@
}

/// The text before the detail of bytes that could not be decoded.
pub open spec fn decode_error_prefix() -> Seq<char> {
    "decode error: "@
}

/// The detail reported where resampling hands back buffers of the wrong length.
pub open spec fn bad_buffer_detail() -> Seq<char> {
    "resampled buffers of unexpected length"@
}

/// Whether `output` is what a job for `index` emits: one of the three traces, with
/// the terminal message that belongs to it, both about `index`; an image that is
/// handed on fills its size, fits the display edge and has a whole fingerprint.
pub open spec fn is_job_output(output: WorkerOutput, index: usize) -> bool {
    &&& output.result.index() == index
    &&& match output.result {
        DecodeResult::ImageDecoded { width, height, pixels, fingerprint, .. } => {
            &&& output.events@ == trace_of(index, Stage::Done)
            &&& width <= DISPLAY_EDGE
            &&& height <= DISPLAY_EDGE
            &&& pixels.len() == rgba_len(width, height)
            &&& fingerprint.len() == 8
        },
        DecodeResult::DecodeError { .. } => {
            ||| output.events@ == trace_of(index, Stage::FailedLoading)
            ||| output.events@ == trace_of(index, Stage::FailedResizing)
        },
    }
}

/// Every trace begins with `Started`, ends with its only terminal event, and is
/// about one index throughout.
pub proof fn lemma_trace_shape(index: usize, stage: Stage)
    ensures
        trace_of(index, stage).first() == (ProgressEvent::Started { index }),
        trace_of(index, stage).last().is_terminal(),
        trace_of(index, stage).last() is Completed <==> stage is Done,
        forall|k: int|
            0 <= k < trace_of(index, stage).len() ==> (#[trigger] trace_of(index, stage)[k]).index()
                == index,
        forall|k: int|
            0 <= k < trace_of(index, stage).len() - 1 ==> !(#[trigger] trace_of(
                index,
                stage,
            )[k]).is_terminal(),
{
}

fn trace(index: usize, stage: Stage) -> (events: Vec<ProgressEvent>)
    ensures
        events@ == trace_of(index, stage),
{
    let mut events: Vec<ProgressEvent> = Vec::new();
    events.push(ProgressEvent::Started { index });
    events.push(ProgressEvent::Loading { index });
    match stage {
        Stage::FailedLoading => {
            events.push(ProgressEvent::Error { index });
        },
        Stage::FailedResizing => {
            events.push(ProgressEvent::Resizing { index });
            events.push(ProgressEvent::Error { index });
        },
        Stage::Done => {
            events.push(ProgressEvent::Resizing { index });
            events.push(ProgressEvent::Completed { index });
        },
    }
    assert(events@ =~= trace_of(index, stage));
    events
}

/// The output of a job whose file could not be read: the failure carries `detail`
/// behind "open error: ".
pub fn open_failure(index: usize, detail: &str) -> (output: WorkerOutput)
    ensures
        output.events@ == trace_of(index, Stage::FailedLoading),
        output.result.is_failure(index, open_error_prefix() + detail@),
        is_job_output(output, index),
{
    let message = "open error: ".to_owned().concat(detail);
    WorkerOutput {
        events: trace(index, Stage::FailedLoading),
        result: DecodeResult::DecodeError { index, message },
    }
}

/// The output of a job whose bytes could not be decoded: the failure carries
/// `detail` behind "decode error: ".
pub fn decode_failure(index: usize, detail: &str) -> (output: WorkerOutput)
    ensures
        output.events@ == trace_of(index, Stage::FailedLoading),
        output.result.is_failure(index, decode_error_prefix() + detail@),
        is_job_output(output, index),
{
    let message = "decode error: ".to_owned().concat(detail);
    WorkerOutput {
        events: trace(index, Stage::FailedLoading),
        result: DecodeResult::DecodeError { index, message },
    }
}

/// Whether what resampling handed back can be used: 64 luminances, a size inside
/// the display edge, and four bytes for each of its pixels.
pub open spec fn usable(luma: Seq<u8>, width: u32, height: u32, pixels: Seq<u8>) -> bool {
    &&& luma.len() == THUMBNAIL_PIXELS
    &&& width <= DISPLAY_EDGE
    &&& height <= DISPLAY_EDGE
    &&& pixels.len() == rgba_len(width, height)
}

/// The output of a job whose image was decoded, from what resampling handed back:
/// the luminances of the thumbnail and the pixels at display size. Where both can be
/// used the image is handed on with its fingerprint; else the job fails.
pub fn assemble(index: usize, luma: Vec<u8>, width: u32, height: u32, pixels: Vec<u8>) -> (output:
    WorkerOutput)
    ensures
        is_job_output(output, index),
        usable(luma@, width, height, pixels@) ==> {
            &&& output.events@ == trace_of(index, Stage::Done)
            &&& output.result.is_image(index, width, height, pixels@, fingerprint_of(luma@))
        },
        !usable(luma@, width, height, pixels@) ==> {
            &&& output.events@ == trace_of(index, Stage::FailedResizing)
            &&& output.result.is_failure(index, decode_error_prefix() + bad_buffer_detail())
        },
{
    if luma.len() == THUMBNAIL_PIXELS && width <= DISPLAY_EDGE && height <= DISPLAY_EDGE
        && fills_rgba(&pixels, width, height) {
        let hash = fingerprint(&luma);
        WorkerOutput {
            events: trace(index, Stage::Done),
            result: DecodeResult::ImageDecoded { index, width, height, pixels, fingerprint: hash },
        }
    } else {
        let message = "decode error: ".to_owned().concat("resampled buffers of unexpected length");
        WorkerOutput {
            events: trace(index, Stage::FailedResizing),
            result: DecodeResult::DecodeError { index, message },
        }
    }
}

/// What the job of `entry` emits for `source`, the bytes of its file or the reason
/// why they could not be read. A file that could not be read fails with the reason
/// behind "open error: ". Bytes that do not decode fail with the decoder's error
/// behind "decode error: ". Bytes that decode give the image at its display size,
/// resampled with the nearest filter, and the fingerprint of its 8 by 8 thumbnail.
pub open spec fn is_processed(output: WorkerOutput, entry: ImageEntry, source: Result<
    Vec<u8>,
    String,
>) -> bool {
    match source {
        Err(detail) => {
            &&& output.events@ == trace_of(entry.index, Stage::FailedLoading)
            &&& output.result.is_failure(entry.index, open_error_prefix() + detail@)
        },
        Ok(bytes) => match decoded_size(entry.path@, bytes@) {
            Err(text) => {
                &&& output.events@ == trace_of(entry.index, Stage::FailedLoading)
                &&& output.result.is_failure(entry.index, decode_error_prefix() + text)
            },
            Ok(size) => {
                let width = display_extent(size.0, size.1) as u32;
                let height = display_extent(size.1, size.0) as u32;
                &&& output.events@ == trace_of(entry.index, Stage::Done)
                &&& output.result.is_image(
                    entry.index,
                    width,
                    height,
                    resampled_rgba(entry.path@, bytes@, width, height, Resampling::Nearest),
                    fingerprint_of(
                        thumbnail_luma(entry.path@, bytes@, THUMBNAIL_SIDE, Resampling::Nearest),
                    ),
                )
            },
        },
    }
}

/// Runs the job of one entry: from the bytes of its file, or the reason why they
/// could not be read, to the job's events and terminal message. The image is
/// decoded in the format that the extension of the entry's path stands for, reduced
/// to an 8 by 8 thumbnail of luminances for the fingerprint, and resampled to its
/// display size as RGBA8. There is no retry.
pub fn process(entry: &ImageEntry, source: Result<Vec<u8>, String>) -> (output: WorkerOutput)
    ensures
        is_job_output(output, entry.index),
        is_processed(output, *entry, source),
{
    let index = entry.index;
    match source {
        Err(detail) => open_failure(index, detail.as_str()),
        Ok(bytes) => match examine(
            entry.path.as_str(),
            bytes.as_slice(),
            THUMBNAIL_SIDE,
            Resampling::Nearest,
        ) {
            Err(text) => decode_failure(index, text.as_str()),
            Ok(found) => {
                let size = display_size(found.0.0, found.0.1);
                let pixels = resample(
                    entry.path.as_str(),
                    bytes.as_slice(),
                    size.0,
                    size.1,
                    Resampling::Nearest,
                );
                assert(found.1.len() == THUMBNAIL_PIXELS);
                assemble(index, found.1, size.0, size.1, pixels)
            },
        },
    }
}

/// One message of a job, as it goes out on the channels.
#[derive(Clone, Debug)]
pub enum Sent {
    Progress(ProgressEvent),
    Result(DecodeResult),
}

/// The order in which the messages of a job go out: its progress events but the
/// last, then its terminal message, then its terminal event.
pub open spec fn sent_of(events: Seq<ProgressEvent>, result: DecodeResult) -> Seq<Sent> {
    if events.len() == 0 {
        seq![Sent::Result(result)]
    } else {
        Seq::new((events.len() - 1) as nat, |k: int| Sent::Progress(events[k])) + seq![
            Sent::Result(result),
            Sent::Progress(events.last()),
        ]
    }
}

/// The messages of a job in the order in which they go out.
pub fn sending_order(output: WorkerOutput) -> (messages: Vec<Sent>)
    ensures
        messages@ == sent_of(output.events@, output.result),
{
    let WorkerOutput { events, result } = output;
    let mut messages: Vec<Sent> = Vec::new();
    if events.len() == 0 {
        messages.push(Sent::Result(result));
        assert(messages@ =~= sent_of(events@, result));
        return messages;
    }
    let last = events.len() - 1;
    let mut k: usize = 0;
    while k < last
        invariant
            last == events.len() - 1,
            k <= last,
            messages.len() == k,
            forall|j: int| 0 <= j < k ==> messages[j] == Sent::Progress(events[j]),
        decreases last - k,
    {
        messages.push(Sent::Progress(events[k]));
        k = k + 1;
    }
    messages.push(Sent::Result(result));
    messages.push(Sent::Progress(events[last]));
    assert(messages@ =~= sent_of(events@, result));
    messages
}

/// Whether `sent` is a progress event about `index` that is terminal, or is not, as
/// `terminal` says.
pub open spec fn is_progress_of(sent: Sent, index: usize, terminal: bool) -> bool {
    match sent {
        Sent::Progress(event) => event.index() == index && event.is_terminal() == terminal,
        Sent::Result(_) => false,
    }
}

/// Of what a job sends, exactly one message is its terminal message; every progress
/// event before it is not terminal, and the one event behind it is.
pub proof fn lemma_one_terminal_message(output: WorkerOutput, index: usize)
    requires
        is_job_output(output, index),
    ensures
        sent_of(output.events@, output.result).len() == output.events@.len() + 1,
        sent_of(output.events@, output.result)[output.events@.len() - 1] == Sent::Result(
            output.result,
        ),
        output.result.index() == index,
        forall|k: int|
            0 <= k < output.events@.len() - 1 ==> is_progress_of(
                #[trigger] sent_of(output.events@, output.result)[k],
                index,
                false,
            ),
        is_progress_of(
            sent_of(output.events@, output.result)[output.events@.len() as int],
            index,
            true,
        ),
{
    lemma_trace_shape(index, Stage::FailedLoading);
    lemma_trace_shape(index, Stage::FailedResizing);
    lemma_trace_shape(index, Stage::Done);
}

/// A job in progress: an entry whose index this job holds in the tracker, from
/// `begin` to `end`.
pub struct Job {
    entry: ImageEntry,
}

impl Job {
    /// The entry that the job is about.
    pub closed spec fn entry(&self) -> ImageEntry {
        self.entry
    }

    /// Begins the job of `entry`, if its index can be acquired: there is a job
    /// exactly where no other holds the index, and then this one holds it.
    pub fn begin(tracker: &mut InFlightSet, entry: ImageEntry) -> (job: Option<Job>)
        ensures
            job is Some == !old(tracker)@.contains(entry.index),
            final(tracker)@ == old(tracker)@.insert(entry.index),
            job matches Some(j) ==> j.entry() == entry,
    {
        if tracker.try_acquire(entry.index) {
            Some(Job { entry })
        } else {
            None
        }
    }

    /// The index that the job holds.
    pub fn index(&self) -> (index: usize)
        ensures
            index == self.entry().index,
    {
        self.entry.index
    }

    /// Where the file of the job's entry is.
    pub fn path(&self) -> (path: &String)
        ensures
            *path == self.entry().path,
    {
        &self.entry.path
    }

    /// Runs the job on the bytes of its file, or on the reason why they could not be
    /// read: the messages to send, in order.
    pub fn run(&self, source: Result<Vec<u8>, String>) -> (messages: Vec<Sent>)
        ensures
            exists|output: WorkerOutput|
                is_job_output(output, self.entry().index) && is_processed(
                    output,
                    self.entry(),
                    source,
                ) && messages@ == #[trigger] sent_of(output.events@, output.result),
    {
        let output = process(&self.entry, source);
        let ghost sent = sent_of(output.events@, output.result);
        let ghost kept = output;
        let messages = sending_order(output);
        assert(messages@ == sent_of(kept.events@, kept.result));
        messages
    }

    /// Ends the job, on the error path too: its index is released.
    pub fn end(self, tracker: &mut InFlightSet)
        ensures
            final(tracker)@ == old(tracker)@.remove(self.entry().index),
    {
        tracker.release(self.entry.index);
    }
}

/// What the consumer keeps of an image that it decoded itself, from what
/// resampling handed back: the entry where the pixels fill a size inside the
/// display edge, else nothing.
pub fn accept_for_display(width: u32, height: u32, pixels: Vec<u8>) -> (entry: Option<CacheEntry>)
    ensures
        (width <= DISPLAY_EDGE && height <= DISPLAY_EDGE && pixels.len() == rgba_len(width, height))
            ==> entry == Some(CacheEntry { width, height, pixels }),
        !(width <= DISPLAY_EDGE && height <= DISPLAY_EDGE && pixels.len() == rgba_len(
            width,
            height,
        )) ==> entry is None,
{
    if width <= DISPLAY_EDGE && height <= DISPLAY_EDGE && fills_rgba(&pixels, width, height) {
        Some(CacheEntry { width, height, pixels })
    } else {
        None
    }
}

/// What is displayed of the bytes of the image file at `path`: the image fitted
/// into the display edge with the triangle filter, where the bytes decode and what
/// was fitted lies inside the edge; else nothing.
pub open spec fn is_displayed(entry: Option<CacheEntry>, path: Seq<char>, bytes: Seq<u8>) -> bool {
    match fitted_rgba(path, bytes, DISPLAY_EDGE, DISPLAY_EDGE, Resampling::Triangle) {
        None => entry is None,
        Some(found) => if found.0.0 <= DISPLAY_EDGE && found.0.1 <= DISPLAY_EDGE && found.1.len()
            == rgba_len(found.0.0, found.0.1) {
            entry matches Some(e) && e.width == found.0.0 && e.height == found.0.1 && e.pixels@
                == found.1
        } else {
            entry is None
        },
    }
}

/// Decodes the bytes of the image file at `path` for immediate display: resampled
/// with the triangle filter to the largest size of its own aspect ratio inside the
/// display edge, as RGBA8. Nothing is handed back where the bytes cannot be decoded
/// in the format that the extension of the path stands for, or where what was
/// fitted does not lie inside the display edge.
pub fn prepare_for_display(path: &str, bytes: &Vec<u8>) -> (entry: Option<CacheEntry>)
    ensures
        is_displayed(entry, path@, bytes@),
        decoded_size(path@, bytes@) is Err ==> entry is None,
        entry matches Some(e) ==> e.width <= DISPLAY_EDGE && e.height <= DISPLAY_EDGE
            && e.pixels.len() == rgba_len(e.width, e.height),
{
    match fit(path, bytes.as_slice(), DISPLAY_EDGE, DISPLAY_EDGE, Resampling::Triangle) {
        None => None,
        Some(found) => accept_for_display(found.0.0, found.0.1, found.1),
    }
}

} // verus!
