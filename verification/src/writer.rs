//! From a payload to the frames of a video: the header frame, then the data
//! frames, split among workers in runs of whole frames.
use crate::arith::{lemma_div_bounds, lemma_mul_bounds, lemma_mul_succ};
use crate::blocks::{
    bit_colors, byte_colors, etch_bw, etch_color, lemma_blank_frame, lemma_paint_capacity, taken,
    written, EtchStatus,
};
use crate::embedsource::{EmbedSource, EmbedSourceView, Rgb, blank_frame, lemma_frame_geometry};
use crate::error::EtchError;
use crate::instructions::{etch_instructions, instruction_frame, instruction_words};
use crate::layout::{frame_count, lemma_frame_count, lemma_frame_count_split};
use crate::settings::{Data, DataView, OutputMode, Settings};
use vstd::arithmetic::mul::{
    lemma_mul_inequality, lemma_mul_is_associative, lemma_mul_is_commutative,
    lemma_mul_is_distributive_add_other_way, lemma_mul_nonnegative,
};
use vstd::prelude::*;

verus! {

/// The views of a sequence of frames.
pub open spec fn frames_view(frames: Seq<EmbedSource>) -> Seq<EmbedSourceView> {
    Seq::new(frames.len(), |i: int| frames[i]@)
}

/// Every frame of the sequence is well-formed.
pub open spec fn all_wf(frames: Seq<EmbedSource>) -> bool {
    forall|i: int| 0 <= i < frames.len() ==> (#[trigger] frames[i]).wf()
}

/// The colours of the blocks that a payload is written to, in the order of
/// the payload.
pub open spec fn payload_colors(data: DataView) -> Seq<Rgb> {
    match data.out_mode {
        OutputMode::Binary => bit_colors(data.binary, 0),
        OutputMode::Color => byte_colors(data.bytes, 0),
    }
}

/// The data frame of the given number, the first being number 0: a blank
/// frame whose blocks hold the colours from `f` times the frame's capacity
/// on.
pub open spec fn data_frame(settings: Settings, colors: Seq<Rgb>, f: int) -> EmbedSourceView {
    written(
        blank_frame(settings.size, settings.width, settings.height),
        colors.skip(f * settings.capacity()),
    )
}

/// The data frames for a sequence of colours: as many as the colours need,
/// each but the last one full.
pub open spec fn data_frames(settings: Settings, colors: Seq<Rgb>) -> Seq<EmbedSourceView> {
    Seq::new(
        frame_count(colors.len() as int, settings.capacity()) as nat,
        |f: int| data_frame(settings, colors, f),
    )
}

/// The frames of the video for a payload: the header frame, then the data
/// frames.
pub open spec fn etched(settings: Settings, data: DataView) -> Seq<EmbedSourceView> {
    seq![instruction_frame(instruction_words(settings, data), settings.width, settings.height)]
        + data_frames(settings, payload_colors(data))
}

/// Two runs of colours that agree as far as a frame takes them give the same
/// frame.
pub proof fn lemma_written_prefix(v: EmbedSourceView, first: Seq<Rgb>, second: Seq<Rgb>)
    requires
        v.wf(),
        taken(v.capacity(), first.len() as int) == taken(v.capacity(), second.len() as int),
        forall|k: int|
            0 <= k < taken(v.capacity(), first.len() as int) ==> first[k] == second[k],
    ensures
        written(v, first) == written(v, second),
{
    lemma_frame_geometry(v);
    let n = taken(v.capacity(), first.len() as int);
    lemma_paint_capacity(v, first, n);
    lemma_paint_capacity(v, second, n);
    assert(first.take(n) =~= second.take(n));
}

/// The data frames of a run of whole frames, or of the last run, out of a
/// longer sequence of colours are the data frames of the sequence at the
/// place of the run.
pub proof fn lemma_chunk_frames(
    settings: Settings,
    colors: Seq<Rgb>,
    done: int,
    n: int,
    whole: int,
)
    requires
        settings.valid(),
        0 <= done,
        0 <= n,
        done * settings.capacity() + n <= colors.len(),
        n == whole * settings.capacity() && 0 <= whole || done * settings.capacity() + n
            == colors.len(),
    ensures
        done + frame_count(n, settings.capacity()) <= frame_count(
            colors.len() as int,
            settings.capacity(),
        ),
        data_frames(
            settings,
            colors.subrange(done * settings.capacity(), done * settings.capacity() + n),
        ) == data_frames(settings, colors).subrange(
            done,
            done + frame_count(n, settings.capacity()),
        ),
{
    settings.lemma_capacity();
    let cap = settings.capacity();
    let from = done * cap;
    lemma_mul_nonnegative(done, cap);
    let chunk = colors.subrange(from, from + n);
    let count = frame_count(n, cap);
    let blank = blank_frame(settings.size, settings.width, settings.height);
    lemma_blank_frame(settings.size, settings.width, settings.height);
    lemma_frame_count_split(done, n, cap);
    lemma_frame_count(n, cap, 0);
    if from + n < colors.len() {
        lemma_frame_count(colors.len() as int, cap, done + count);
        lemma_frame_count_split(whole, 0, cap);
        lemma_mul_is_distributive_add_other_way(cap, done, whole);
    }
    assert forall|j: int| 0 <= j < count implies #[trigger] data_frame(settings, chunk, j)
        == data_frame(settings, colors, done + j) by {
        lemma_mul_is_distributive_add_other_way(cap, done, j);
        lemma_mul_nonnegative(j, cap);
        let first = chunk.skip(j * cap);
        let second = colors.skip((done + j) * cap);
        if n > 0 {
            lemma_div_bounds(n - 1, cap);
            lemma_mul_inequality(j, (n - 1) / cap, cap);
        }
        if from + n < colors.len() {
            lemma_mul_inequality(j + 1, whole, cap);
            lemma_mul_succ(j, cap);
        }
        lemma_written_prefix(blank, first, second);
    }
    assert(data_frames(settings, chunk) =~= data_frames(settings, colors).subrange(
        done,
        done + count,
    ));
}

/// The data frames for a run of bits, the work of one worker: frame after
/// frame as long as bits are left, the last frame as far as the bits go.
pub fn etch_chunk_bw(chunk: &[bool], settings: &Settings) -> (frames: Vec<EmbedSource>)
    requires
        settings.valid(),
    ensures
        all_wf(frames@),
        frames_view(frames@) == data_frames(*settings, bit_colors(chunk@, 0)),
{
    let ghost colors = bit_colors(chunk@, 0);
    let ghost cap = settings.capacity();
    let ghost blank = blank_frame(settings.size, settings.width, settings.height);
    proof {
        settings.lemma_capacity();
        lemma_blank_frame(settings.size, settings.width, settings.height);
        assert(0 * cap == 0);
    }
    let mut frames: Vec<EmbedSource> = Vec::new();
    let mut index: usize = 0;
    let mut more = chunk.len() > 0;
    assert(frames_view(frames@) =~= data_frames(*settings, colors).take(0));
    while more
        invariant
            settings.valid(),
            cap == settings.capacity(),
            1 <= cap,
            colors == bit_colors(chunk@, 0),
            blank == blank_frame(settings.size, settings.width, settings.height),
            blank.wf(),
            blank.capacity() == cap,
            all_wf(frames@),
            index <= chunk@.len(),
            more ==> index < chunk@.len() && index == frames@.len() * cap,
            !more ==> frames@.len() == frame_count(colors.len() as int, cap),
            frames@.len() <= frame_count(colors.len() as int, cap),
            frames_view(frames@) == data_frames(*settings, colors).take(frames@.len() as int),
        decreases chunk@.len() - index,
    {
        let ghost n = frames@.len() as int;
        let ghost before = frames@;
        let mut source = EmbedSource::new(settings.size, settings.width, settings.height);
        let status = etch_bw(&mut source, chunk, &mut index);
        proof {
            lemma_frame_count(colors.len() as int, cap, n);
            lemma_mul_succ(n, cap);
            assert(bit_colors(chunk@, n * cap) =~= colors.skip(n * cap));
            assert(source@ == data_frame(*settings, colors, n));
        }
        frames.push(source);
        more = match status {
            EtchStatus::Filled => index < chunk.len(),
            EtchStatus::EndOfData => false,
        };
        proof {
            assert forall|i: int| 0 <= i < frames@.len() implies (#[trigger] frames@[i]).wf() by {
                if i < n {
                    assert(before[i].wf());
                }
            }
            assert forall|i: int| 0 <= i < n + 1 implies #[trigger] frames_view(frames@)[i]
                == data_frames(*settings, colors)[i] by {
                if i < n {
                    assert(frames_view(before)[i] == data_frames(*settings, colors).take(n)[i]);
                }
            }
            assert(frames_view(frames@) =~= data_frames(*settings, colors).take(n + 1));
        }
    }
    proof {
        if chunk@.len() == 0 {
            assert(frames@.len() == 0);
        }
        assert(data_frames(*settings, colors).take(frames@.len() as int) =~= data_frames(
            *settings,
            colors,
        ));
    }
    frames
}

/// The data frames for a run of bytes, the work of one worker: frame after
/// frame as long as three bytes are left, the last frame as far as the
/// whole triples of bytes go.
pub fn etch_chunk_color(chunk: &[u8], settings: &Settings) -> (frames: Vec<EmbedSource>)
    requires
        settings.valid(),
    ensures
        all_wf(frames@),
        frames_view(frames@) == data_frames(*settings, byte_colors(chunk@, 0)),
{
    let ghost colors = byte_colors(chunk@, 0);
    let ghost cap = settings.capacity();
    let ghost blank = blank_frame(settings.size, settings.width, settings.height);
    proof {
        settings.lemma_capacity();
        lemma_blank_frame(settings.size, settings.width, settings.height);
        assert(0 * cap == 0);
    }
    let mut frames: Vec<EmbedSource> = Vec::new();
    let mut index: usize = 0;
    let mut more = chunk.len() >= 3;
    assert(frames_view(frames@) =~= data_frames(*settings, colors).take(0));
    while more
        invariant
            settings.valid(),
            cap == settings.capacity(),
            1 <= cap,
            colors == byte_colors(chunk@, 0),
            blank == blank_frame(settings.size, settings.width, settings.height),
            blank.wf(),
            blank.capacity() == cap,
            all_wf(frames@),
            index <= chunk@.len(),
            more ==> index + 3 <= chunk@.len() && index == 3 * (frames@.len() * cap),
            !more ==> frames@.len() == frame_count(colors.len() as int, cap),
            frames@.len() <= frame_count(colors.len() as int, cap),
            frames_view(frames@) == data_frames(*settings, colors).take(frames@.len() as int),
        decreases chunk@.len() - index,
    {
        let ghost n = frames@.len() as int;
        let ghost before = frames@;
        let mut source = EmbedSource::new(settings.size, settings.width, settings.height);
        let status = etch_color(&mut source, chunk, &mut index);
        proof {
            lemma_frame_count(colors.len() as int, cap, n);
            lemma_mul_succ(n, cap);
            assert(byte_colors(chunk@, 3 * (n * cap)) =~= colors.skip(n * cap));
            assert(source@ == data_frame(*settings, colors, n));
        }
        frames.push(source);
        more = match status {
            EtchStatus::Filled => chunk.len() - index >= 3,
            EtchStatus::EndOfData => false,
        };
        proof {
            assert forall|i: int| 0 <= i < frames@.len() implies (#[trigger] frames@[i]).wf() by {
                if i < n {
                    assert(before[i].wf());
                }
            }
            assert forall|i: int| 0 <= i < n + 1 implies #[trigger] frames_view(frames@)[i]
                == data_frames(*settings, colors)[i] by {
                if i < n {
                    assert(frames_view(before)[i] == data_frames(*settings, colors).take(n)[i]);
                }
            }
            assert(frames_view(frames@) =~= data_frames(*settings, colors).take(n + 1));
        }
    }
    proof {
        if chunk@.len() < 3 {
            assert(frames@.len() == 0);
        }
        assert(data_frames(*settings, colors).take(frames@.len() as int) =~= data_frames(
            *settings,
            colors,
        ));
    }
    frames
}

/// The payload elements that one worker gets: the frames that the payload
/// fills, divided by the number of workers and rounded down, and one more,
/// times the elements of a frame.
pub open spec fn chunk_size(length: int, frame_data_size: int, threads: int) -> int {
    (length / frame_data_size / threads + 1) * frame_data_size
}

/// The payload elements that one worker gets (see `chunk_size`), or the
/// largest `usize` where that number is larger still.
pub fn chunk_data_size(length: usize, frame_data_size: usize, threads: usize) -> (size: usize)
    requires
        1 <= frame_data_size,
        1 <= threads,
    ensures
        size == if chunk_size(length as int, frame_data_size as int, threads as int)
            <= usize::MAX {
            chunk_size(length as int, frame_data_size as int, threads as int)
        } else {
            usize::MAX as int
        },
        1 <= size,
{
    let frame_length = length / frame_data_size;
    let quota = frame_length / threads;
    proof {
        lemma_div_bounds(length as int, frame_data_size as int);
        lemma_div_bounds(frame_length as int, threads as int);
        lemma_mul_bounds(1, quota + 1, 1, frame_data_size as int);
    }
    match quota.checked_add(1) {
        Some(chunk_frame_size) => match chunk_frame_size.checked_mul(frame_data_size) {
            Some(size) => size,
            None => usize::MAX,
        },
        None => {
            proof {
                lemma_mul_bounds(
                    usize::MAX as int,
                    quota + 1,
                    1,
                    frame_data_size as int,
                );
            }
            usize::MAX
        },
    }
}

/// The views of two runs of frames, one after the other.
pub proof fn lemma_frames_append(first: Seq<EmbedSource>, second: Seq<EmbedSource>)
    ensures
        frames_view(first + second) == frames_view(first) + frames_view(second),
        all_wf(first) && all_wf(second) ==> all_wf(first + second),
{
    assert(frames_view(first + second) =~= frames_view(first) + frames_view(second));
    if all_wf(first) && all_wf(second) {
        assert forall|i: int| 0 <= i < (first + second).len() implies (#[trigger] (first
            + second)[i]).wf() by {
            if i < first.len() {
                assert(first[i].wf());
            } else {
                assert(second[i - first.len()].wf());
            }
        }
    }
}

/// The data frames for a payload of bits, made run by run as the workers
/// would make them, in the order of the runs.
fn etch_data_bw(bits: &[bool], settings: &Settings) -> (frames: Vec<EmbedSource>)
    requires
        settings.valid(),
    ensures
        all_wf(frames@),
        frames_view(frames@) == data_frames(*settings, bit_colors(bits@, 0)),
{
    let ghost colors = bit_colors(bits@, 0);
    let ghost cap = settings.capacity();
    let length = bits.len();
    let frame_data_size = settings.frame_capacity();
    let chunk_size = chunk_data_size(length, frame_data_size, settings.threads);
    let ghost whole = length as int / cap / (settings.threads as int) + 1;
    let mut frames: Vec<EmbedSource> = Vec::new();
    let mut start: usize = 0;
    let ghost mut done: int = 0;
    proof {
        lemma_div_bounds(length as int, cap);
        lemma_div_bounds(length as int / cap, settings.threads as int);
        assert(0 * cap == 0);
        assert(frames_view(frames@) =~= data_frames(*settings, colors).take(0));
    }
    while start < length
        invariant
            settings.valid(),
            cap == settings.capacity(),
            1 <= cap,
            colors == bit_colors(bits@, 0),
            length == bits@.len(),
            1 <= chunk_size,
            1 <= whole,
            chunk_size >= length || chunk_size == whole * cap,
            start <= length,
            0 <= done <= frame_count(length as int, cap),
            start < length ==> start == done * cap,
            start == length ==> done == frame_count(length as int, cap),
            all_wf(frames@),
            frames_view(frames@) == data_frames(*settings, colors).take(done),
        decreases length - start,
    {
        let end = if length - start > chunk_size {
            start + chunk_size
        } else {
            length
        };
        let chunk = &bits[start..end];
        let mut chunk_frames = etch_chunk_bw(chunk, settings);
        proof {
            let n = end - start;
            assert(bit_colors(chunk@, 0) =~= colors.subrange(done * cap, done * cap + n));
            lemma_chunk_frames(*settings, colors, done, n, whole);
            lemma_frame_count_split(done, n, cap);
            lemma_frame_count_split(whole, 0, cap);
            lemma_mul_is_distributive_add_other_way(cap, done, whole);
            lemma_frames_append(frames@, chunk_frames@);
            assert(data_frames(*settings, colors).take(done) + data_frames(
                *settings,
                colors,
            ).subrange(done, done + frame_count(n, cap)) =~= data_frames(*settings, colors).take(
                done + frame_count(n, cap),
            ));
            done = done + frame_count(n, cap);
        }
        frames.append(&mut chunk_frames);
        start = end;
    }
    proof {
        assert(data_frames(*settings, colors).take(done) =~= data_frames(*settings, colors));
    }
    frames
}

/// The data frames for a payload of bytes, made run by run as the workers
/// would make them, in the order of the runs.
fn etch_data_color(bytes: &[u8], settings: &Settings) -> (frames: Vec<EmbedSource>)
    requires
        settings.valid(),
    ensures
        all_wf(frames@),
        frames_view(frames@) == data_frames(*settings, byte_colors(bytes@, 0)),
{
    let ghost colors = byte_colors(bytes@, 0);
    let ghost cap = settings.capacity();
    let length = bytes.len();
    let blocks = settings.frame_capacity();
    let frame_data_size = match blocks.checked_mul(3) {
        Some(size) => size,
        None => usize::MAX,
    };
    let chunk_size = chunk_data_size(length, frame_data_size, settings.threads);
    let ghost whole = length as int / (frame_data_size as int) / (settings.threads as int) + 1;
    let mut frames: Vec<EmbedSource> = Vec::new();
    let mut start: usize = 0;
    let ghost mut done: int = 0;
    proof {
        lemma_div_bounds(length as int, frame_data_size as int);
        lemma_div_bounds(length as int / (frame_data_size as int), settings.threads as int);
        if frame_data_size == usize::MAX {
            lemma_mul_bounds(1, whole, usize::MAX as int, frame_data_size as int);
        }
        lemma_mul_is_associative(whole, cap, 3);
        lemma_mul_is_commutative(cap, 3);
        lemma_mul_is_commutative(whole * cap, 3);
        assert(0 * cap == 0);
        assert(frames_view(frames@) =~= data_frames(*settings, colors).take(0));
    }
    while start < length
        invariant
            settings.valid(),
            cap == settings.capacity(),
            1 <= cap,
            colors == byte_colors(bytes@, 0),
            length == bytes@.len(),
            1 <= chunk_size,
            1 <= whole,
            chunk_size >= length || chunk_size == 3 * (whole * cap),
            start <= length,
            0 <= done <= frame_count(colors.len() as int, cap),
            start < length ==> start == 3 * (done * cap),
            start == length ==> done == frame_count(colors.len() as int, cap),
            all_wf(frames@),
            frames_view(frames@) == data_frames(*settings, colors).take(done),
        decreases length - start,
    {
        let end = if length - start > chunk_size {
            start + chunk_size
        } else {
            length
        };
        let chunk = &bytes[start..end];
        let mut chunk_frames = etch_chunk_color(chunk, settings);
        proof {
            let n = (end - start) / 3;
            lemma_mul_nonnegative(done, cap);
            lemma_mul_nonnegative(whole, cap);
            assert(byte_colors(chunk@, 0) =~= colors.subrange(done * cap, done * cap + n));
            lemma_chunk_frames(*settings, colors, done, n, whole);
            lemma_frame_count_split(done, n, cap);
            lemma_frame_count_split(whole, 0, cap);
            lemma_mul_is_distributive_add_other_way(cap, done, whole);
            lemma_frames_append(frames@, chunk_frames@);
            assert(data_frames(*settings, colors).take(done) + data_frames(
                *settings,
                colors,
            ).subrange(done, done + frame_count(n, cap)) =~= data_frames(*settings, colors).take(
                done + frame_count(n, cap),
            ));
            done = done + frame_count(n, cap);
        }
        frames.append(&mut chunk_frames);
        start = end;
    }
    proof {
        assert(data_frames(*settings, colors).take(done) =~= data_frames(*settings, colors));
    }
    frames
}

/// The frames of the video for a payload: the header frame, then the data
/// frames. The payload is cut into the runs of whole frames that
/// `settings.threads` workers get, the frames of each run are made as a worker
/// makes them, one run after the other, and they stand in the order of the
/// runs; they are the same for every number of workers. Never fails.
pub fn etch(data: Data, settings: Settings) -> (result: Result<Vec<EmbedSource>, EtchError>)
    requires
        settings.valid(),
    ensures
        result is Ok,
        all_wf(result->Ok_0@),
        frames_view(result->Ok_0@) == etched(settings, data@),
        result->Ok_0@.len() == 1 + frame_count(data@.elements(), settings.capacity()),
{
    let mut spool = match data.out_mode {
        OutputMode::Color => etch_data_color(data.bytes.as_slice(), &settings),
        OutputMode::Binary => etch_data_bw(data.binary.as_slice(), &settings),
    };
    let mut complete_frames: Vec<EmbedSource> = Vec::new();
    let instructional_frame = match etch_instructions(&settings, &data) {
        Ok(frame) => frame,
        Err(error) => { return Err(error); },
    };
    complete_frames.push(instructional_frame);
    proof {
        lemma_frames_append(complete_frames@, spool@);
        assert(frames_view(complete_frames@) =~= seq![
            instruction_frame(instruction_words(settings, data@), settings.width, settings.height),
        ]);
    }
    complete_frames.append(&mut spool);
    proof {
        settings.lemma_capacity();
        lemma_frame_count(data@.elements(), settings.capacity(), 0);
        assert(frames_view(complete_frames@).len() == complete_frames@.len());
    }
    Ok(complete_frames)
}

/// The data frames that workers make of a payload of bits, each worker of a
/// run of `run` bits and the last one of what is left, in the order of the
/// runs.
pub open spec fn spooled_bw(settings: Settings, bits: Seq<bool>, run: int) -> Seq<EmbedSourceView>
    decreases bits.len(),
{
    if bits.len() == 0 {
        Seq::empty()
    } else if run <= 0 || bits.len() <= run {
        data_frames(settings, bit_colors(bits, 0))
    } else {
        data_frames(settings, bit_colors(bits.take(run), 0)) + spooled_bw(
            settings,
            bits.skip(run),
            run,
        )
    }
}

/// The data frames that workers make of a payload of bytes, each worker of a
/// run of `run` bytes and the last one of what is left, in the order of the
/// runs.
pub open spec fn spooled_color(settings: Settings, bytes: Seq<u8>, run: int) -> Seq<
    EmbedSourceView,
>
    decreases bytes.len(),
{
    if bytes.len() == 0 {
        Seq::empty()
    } else if run <= 0 || bytes.len() <= run {
        data_frames(settings, byte_colors(bytes, 0))
    } else {
        data_frames(settings, byte_colors(bytes.take(run), 0)) + spooled_color(
            settings,
            bytes.skip(run),
            run,
        )
    }
}

/// Workers with runs of whole frames of bits make, one after the other, the
/// data frames of the whole payload.
pub proof fn lemma_spooled_runs_bw(settings: Settings, bits: Seq<bool>, whole: int)
    requires
        settings.valid(),
        1 <= whole,
    ensures
        spooled_bw(settings, bits, whole * settings.capacity()) == data_frames(
            settings,
            bit_colors(bits, 0),
        ),
    decreases bits.len(),
{
    settings.lemma_capacity();
    let cap = settings.capacity();
    let run = whole * cap;
    let colors = bit_colors(bits, 0);
    lemma_mul_bounds(1, whole, 1, cap);
    if bits.len() == 0 {
        assert(data_frames(settings, colors) =~= Seq::empty());
    } else if bits.len() > run {
        let first = bits.take(run);
        let rest = bits.skip(run);
        lemma_spooled_runs_bw(settings, rest, whole);
        assert(0 * cap == 0);
        assert(bit_colors(first, 0) =~= colors.subrange(0 * cap, 0 * cap + run));
        assert(bit_colors(rest, 0) =~= colors.subrange(
            whole * cap,
            whole * cap + (bits.len() - run),
        ));
        lemma_chunk_frames(settings, colors, 0, run, whole);
        lemma_chunk_frames(settings, colors, whole, bits.len() - run, whole);
        lemma_frame_count_split(whole, 0, cap);
        lemma_frame_count_split(whole, bits.len() - run, cap);
        assert(data_frames(settings, colors).subrange(0, whole) + data_frames(
            settings,
            colors,
        ).subrange(whole, whole + frame_count(bits.len() - run, cap)) =~= data_frames(
            settings,
            colors,
        ));
    }
}

/// Workers with runs of whole frames of bytes make, one after the other, the
/// data frames of the whole payload.
pub proof fn lemma_spooled_runs_color(settings: Settings, bytes: Seq<u8>, whole: int)
    requires
        settings.valid(),
        1 <= whole,
    ensures
        spooled_color(settings, bytes, 3 * (whole * settings.capacity())) == data_frames(
            settings,
            byte_colors(bytes, 0),
        ),
    decreases bytes.len(),
{
    settings.lemma_capacity();
    let cap = settings.capacity();
    let run = 3 * (whole * cap);
    let colors = byte_colors(bytes, 0);
    lemma_mul_bounds(1, whole, 1, cap);
    if bytes.len() == 0 {
        assert(data_frames(settings, colors) =~= Seq::empty());
    } else if bytes.len() > run {
        let first = bytes.take(run);
        let rest = bytes.skip(run);
        let left = (bytes.len() - run) / 3;
        lemma_spooled_runs_color(settings, rest, whole);
        assert(0 * cap == 0);
        assert(byte_colors(first, 0) =~= colors.subrange(0 * cap, 0 * cap + whole * cap));
        assert(byte_colors(rest, 0) =~= colors.subrange(whole * cap, whole * cap + left));
        lemma_chunk_frames(settings, colors, 0, whole * cap, whole);
        lemma_chunk_frames(settings, colors, whole, left, whole);
        lemma_frame_count_split(whole, 0, cap);
        lemma_frame_count_split(whole, left, cap);
        assert(data_frames(settings, colors).subrange(0, whole) + data_frames(
            settings,
            colors,
        ).subrange(whole, whole + frame_count(left, cap)) =~= data_frames(settings, colors));
    }
}

/// The data frames that the workers make of a payload, each of the run that
/// `chunk_size` gives it, are the same for every number of workers: they are
/// the data frames that one worker makes of the whole payload.
pub proof fn lemma_workers_agree(settings: Settings, data: DataView, threads: int)
    requires
        settings.valid(),
        1 <= threads,
    ensures
        data.out_mode == OutputMode::Binary ==> spooled_bw(
            settings,
            data.binary,
            chunk_size(data.binary.len() as int, settings.capacity(), threads),
        ) == data_frames(settings, payload_colors(data)),
        data.out_mode == OutputMode::Color ==> spooled_color(
            settings,
            data.bytes,
            chunk_size(data.bytes.len() as int, 3 * settings.capacity(), threads),
        ) == data_frames(settings, payload_colors(data)),
{
    settings.lemma_capacity();
    let cap = settings.capacity();
    match data.out_mode {
        OutputMode::Binary => {
            let length = data.binary.len() as int;
            let whole = length / cap / threads + 1;
            lemma_div_bounds(length, cap);
            lemma_div_bounds(length / cap, threads);
            lemma_spooled_runs_bw(settings, data.binary, whole);
        },
        OutputMode::Color => {
            let length = data.bytes.len() as int;
            let whole = length / (3 * cap) / threads + 1;
            lemma_div_bounds(length, 3 * cap);
            lemma_div_bounds(length / (3 * cap), threads);
            lemma_mul_is_associative(whole, 3, cap);
            lemma_mul_is_associative(3, whole, cap);
            lemma_mul_is_commutative(whole, 3);
            lemma_spooled_runs_color(settings, data.bytes, whole);
        },
    }
}

/// The frames of the video for a payload do not depend on the number of
/// workers in the settings.
pub proof fn lemma_etched_for_any_threads(settings: Settings, threads: usize, data: DataView)
    ensures
        etched(Settings { threads, ..settings }, data) == etched(settings, data),
{
}

} // verus!
