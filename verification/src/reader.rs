//! From the frames of a video back to the payload: the header frame first,
//! then the data frames one by one in the order in which they come.
use crate::bits::{bits_to_bytes, translate_u8};
use crate::blocks::{decoded_bits, decoded_bytes, read_bw, read_color};
use crate::embedsource::{frame_of, EmbedSource, EmbedSourceView, Image};
use crate::error::EtchError;
use crate::instructions::{parsed_instructions, read_instructions, INSTRUCTION_SIZE};
use crate::settings::OutputMode;
use vstd::prelude::*;

verus! {

/// The first `keep` elements where there are that many, else all of them.
pub open spec fn trimmed<T>(elements: Seq<T>, keep: int) -> Seq<T> {
    if 0 <= keep <= elements.len() {
        elements.take(keep)
    } else {
        elements
    }
}

/// The payload bytes that one data frame holds. The frame whose number is
/// `final_frame` counts only as far as its first `final_byte` blocks; every
/// other frame counts whole. The bits of a `Binary` frame must make whole
/// bytes.
pub open spec fn frame_payload(
    v: EmbedSourceView,
    out_mode: OutputMode,
    current_frame: int,
    final_frame: u32,
    final_byte: u32,
) -> Result<Seq<u8>, EtchError> {
    match out_mode {
        OutputMode::Color => {
            let bytes = decoded_bytes(v);
            Ok(
                if current_frame == final_frame {
                    trimmed(bytes, 3 * final_byte)
                } else {
                    bytes
                },
            )
        },
        OutputMode::Binary => {
            let bits = if current_frame == final_frame {
                trimmed(decoded_bits(v), final_byte as int)
            } else {
                decoded_bits(v)
            };
            if bits.len() % 8 != 0 {
                Err(EtchError::IncompleteByte)
            } else {
                Ok(bits_to_bytes(bits))
            }
        },
    }
}

/// A result over a vector as a result over its view.
pub open spec fn result_view(result: Result<Vec<u8>, EtchError>) -> Result<Seq<u8>, EtchError> {
    match result {
        Ok(bytes) => Ok(bytes@),
        Err(error) => Err(error),
    }
}

/// The payload bytes of one data frame, whose number is `current_frame`, the
/// first data frame being number 1. Fails with `IncompleteByte` exactly when
/// the mode is `Binary` and the bits that count are not a multiple of eight.
pub fn read_frame(
    source: &EmbedSource,
    out_mode: OutputMode,
    current_frame: usize,
    final_frame: u32,
    final_byte: u32,
) -> (result: Result<Vec<u8>, EtchError>)
    requires
        source.wf(),
    ensures
        result_view(result) == frame_payload(
            source@,
            out_mode,
            current_frame as int,
            final_frame,
            final_byte,
        ),
{
    let is_final = current_frame == final_frame as usize;
    let keep = final_byte as usize;
    match out_mode {
        OutputMode::Color => {
            let mut byte_data = read_color(source);
            if is_final && keep <= byte_data.len() / 3 {
                byte_data.truncate(keep * 3);
            }
            Ok(byte_data)
        },
        OutputMode::Binary => {
            let mut binary_data = read_bw(source);
            if is_final {
                binary_data.truncate(keep);
            }
            translate_u8(binary_data)
        },
    }
}

/// The picture of a frame, to be read in blocks of `size` pixels.
pub open spec fn reframe(v: EmbedSourceView, size: usize) -> EmbedSourceView {
    frame_of(v.image, v.frame_size.width, v.frame_size.height, size)
}

/// The payload bytes of the first `n` data frames of a video, whose frame 0
/// is the header; or the reason why the first of them that fails does.
pub open spec fn payload_of(
    frames: Seq<EmbedSourceView>,
    out_mode: OutputMode,
    final_frame: u32,
    final_byte: u32,
    size: usize,
    n: nat,
) -> Result<Seq<u8>, EtchError>
    decreases n,
{
    if n == 0 {
        Ok(Seq::empty())
    } else {
        match payload_of(frames, out_mode, final_frame, final_byte, size, (n - 1) as nat) {
            Err(error) => Err(error),
            Ok(before) => match frame_payload(
                reframe(frames[n as int], size),
                out_mode,
                n as int,
                final_frame,
                final_byte,
            ) {
                Err(error) => Err(error),
                Ok(bytes) => Ok(before + bytes),
            },
        }
    }
}

/// The payload that the frames of a video hold: what the header says of the
/// data frames, and then their payload bytes in the order of the frames; or
/// the reason why the header, or the first data frame that fails, does. A
/// video without a frame has no header.
pub open spec fn read_result(frames: Seq<EmbedSourceView>, threads: usize) -> Result<
    Seq<u8>,
    EtchError,
> {
    if frames.len() == 0 {
        Err(EtchError::TruncatedInstructions)
    } else {
        match parsed_instructions(reframe(frames[0], INSTRUCTION_SIZE), threads) {
            Err(error) => Err(error),
            Ok((out_mode, final_frame, final_byte, settings)) => payload_of(
                frames,
                out_mode,
                final_frame,
                final_byte,
                settings.size,
                (frames.len() - 1) as nat,
            ),
        }
    }
}

/// The pictures of a video as frames.
pub open spec fn image_frames(images: Seq<Image>) -> Seq<EmbedSourceView> {
    Seq::new(
        images.len(),
        |i: int|
            frame_of(images[i]@, images[i].spec_width(), images[i].spec_height(), INSTRUCTION_SIZE),
    )
}

/// Once a data frame has failed, the payload of every longer run of frames
/// fails in the same way.
proof fn lemma_payload_fails(
    frames: Seq<EmbedSourceView>,
    out_mode: OutputMode,
    final_frame: u32,
    final_byte: u32,
    size: usize,
    k: nat,
    n: nat,
)
    requires
        k <= n,
        payload_of(frames, out_mode, final_frame, final_byte, size, k) is Err,
    ensures
        payload_of(frames, out_mode, final_frame, final_byte, size, n) == payload_of(
            frames,
            out_mode,
            final_frame,
            final_byte,
            size,
            k,
        ),
    decreases n,
{
    if k < n {
        lemma_payload_fails(frames, out_mode, final_frame, final_byte, size, k, (n - 1) as nat);
    }
}

/// The payload that the pictures of a video hold, the first picture being the
/// header frame. `threads` has no effect on the result. Fails as
/// `read_instructions` does on the header (with `TruncatedInstructions` also
/// where there is no picture at all), else as `read_frame` does on the first
/// data frame that fails.
pub fn read(images: Vec<Image>, threads: usize) -> (result: Result<Vec<u8>, EtchError>)
    requires
        forall|i: int| 0 <= i < images@.len() ==> (#[trigger] images@[i]).wf(),
    ensures
        result_view(result) == read_result(image_frames(images@), threads),
{
    let ghost frames = image_frames(images@);
    let ghost all = images@;
    let mut pictures = images;
    if pictures.len() == 0 {
        return Err(EtchError::TruncatedInstructions);
    }
    let frame = pictures.remove(0);
    let instruction_source = EmbedSource::from(frame, INSTRUCTION_SIZE);
    assert(instruction_source@ == reframe(frames[0], INSTRUCTION_SIZE));
    let (out_mode, final_frame, final_byte, settings) = match read_instructions(
        &instruction_source,
        threads,
    ) {
        Ok(instructions) => instructions,
        Err(error) => { return Err(error); },
    };
    let mut byte_data: Vec<u8> = Vec::new();
    let ghost rest = pictures@;
    let mut current_frame: usize = 1;
    for frame in it: pictures
        invariant
            it.seq() == rest,
            all == images@,
            parsed_instructions(reframe(frames[0], INSTRUCTION_SIZE), threads) == Ok::<
                (OutputMode, u32, u32, crate::settings::Settings),
                EtchError,
            >((out_mode, final_frame, final_byte, settings)),
            current_frame == it.index() + 1,
            1 <= all.len() <= usize::MAX,
            rest == all.skip(1),
            frames == image_frames(all),
            forall|i: int| 0 <= i < all.len() ==> (#[trigger] all[i]).wf(),
            1 <= settings.size,
            payload_of(
                frames,
                out_mode,
                final_frame,
                final_byte,
                settings.size,
                it.index() as nat,
            ) == Ok::<Seq<u8>, EtchError>(byte_data@),
    {
        let ghost n = it.index() + 1;
        assert(frame == all[n]);
        let source = EmbedSource::from(frame, settings.size);
        assert(source@ == reframe(frames[n], settings.size));
        let mut frame_data = match read_frame(
            &source,
            out_mode,
            current_frame,
            final_frame,
            final_byte,
        ) {
            Ok(bytes) => bytes,
            Err(error) => {
                proof {
                    lemma_payload_fails(
                        frames,
                        out_mode,
                        final_frame,
                        final_byte,
                        settings.size,
                        n as nat,
                        (all.len() - 1) as nat,
                    );
                }
                return Err(error);
            },
        };
        byte_data.append(&mut frame_data);
        current_frame += 1;
    }
    Ok(byte_data)
}

/// What a reader finds in the frames of a video does not depend on the
/// number of workers that it is given.
pub proof fn lemma_read_for_any_threads(frames: Seq<EmbedSourceView>, first: usize, second: usize)
    ensures
        read_result(frames, first) == read_result(frames, second),
{
}

} // verus!
