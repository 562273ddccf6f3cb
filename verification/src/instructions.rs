//! The header frame: five 32-bit words, written one bit per block in blocks
//! of five pixels, that tell a reader how the data frames are to be read.
use crate::arith::lemma_div_bounds;
use crate::bits::{
    bits_of, bits_to_words, lemma_bits_of_len, lemma_value_of_bits_of, rip_binary_u32,
    translate_u32, words_to_bits,
};
use crate::blocks::{
    bit_colors, decoded_bits, etch_bw, lemma_blank_frame, lemma_decode_written_bits,
    lemma_written_wf, read_bw, written,
};
use crate::embedsource::{blank_frame, EmbedSource, EmbedSourceView};
use crate::layout::{final_count, frame_count};
use crate::error::EtchError;
use crate::settings::{Data, DataView, OutputMode, Settings};
use vstd::arithmetic::power2::lemma2_to64;
use vstd::prelude::*;

verus! {

/// Edge length of the blocks of the header frame, whatever the block size of
/// the data frames.
pub const INSTRUCTION_SIZE: usize = 5;

/// Frame rate of the settings that a reader gets; it has no meaning there.
pub const READER_FPS: i32 = 1337;

/// The first word of the header for a mode.
pub open spec fn mode_word(mode: OutputMode) -> u32 {
    match mode {
        OutputMode::Color => u32::MAX,
        OutputMode::Binary => 0,
    }
}

/// The mode that a first word of the header stands for: `Color` for the
/// largest word, `Binary` for every other.
pub open spec fn mode_of(word: u32) -> OutputMode {
    if word == u32::MAX {
        OutputMode::Color
    } else {
        OutputMode::Binary
    }
}

/// The five words of a header: the mode, the number of the last data frame
/// (the frame after the header being number 1), the number of block payloads
/// in that frame, the block size of the data frames, and a closing word.
pub open spec fn record_words(
    mode: OutputMode,
    final_frame: u32,
    final_byte: u32,
    size: u32,
) -> Seq<u32> {
    seq![mode_word(mode), final_frame, final_byte, size, u32::MAX]
}

/// The words of the header for a payload and its settings.
pub open spec fn instruction_words(settings: Settings, data: DataView) -> Seq<u32> {
    record_words(
        data.out_mode,
        frame_count(data.elements(), settings.capacity()) as u32,
        final_count(data.elements(), settings.capacity()) as u32,
        settings.size as u32,
    )
}

/// The header frame that holds the given words.
pub open spec fn instruction_frame(
    words: Seq<u32>,
    width: usize,
    height: usize,
) -> EmbedSourceView {
    written(blank_frame(INSTRUCTION_SIZE, width, height), bit_colors(words_to_bits(words), 0))
}

/// What a reader makes of a header frame: the mode, the number of the last
/// data frame, the number of block payloads in it, and the settings by which
/// the data frames are read; or why the frame is no header.
pub open spec fn parsed_instructions(v: EmbedSourceView, threads: usize) -> Result<
    (OutputMode, u32, u32, Settings),
    EtchError,
> {
    let bits = decoded_bits(v);
    let words = bits_to_words(bits);
    if bits.len() % 32 != 0 {
        Err(EtchError::IncompleteWord)
    } else if words.len() < 4 {
        Err(EtchError::TruncatedInstructions)
    } else if words[3] == 0 {
        Err(EtchError::ZeroBlockSize)
    } else {
        Ok(
            (
                mode_of(words[0]),
                words[1],
                words[2],
                Settings {
                    size: words[3] as usize,
                    threads,
                    fps: READER_FPS,
                    width: v.frame_size.width,
                    height: v.frame_size.height,
                },
            ),
        )
    }
}

/// A reader recovers from a header frame the mode, the number of the last
/// data frame, the number of block payloads in it and the block size that
/// were written to it, whenever the frame has room for the first four words
/// and its number of blocks of five pixels is a multiple of 32.
pub proof fn lemma_instructions_round_trip(
    mode: OutputMode,
    final_frame: u32,
    final_byte: u32,
    size: u32,
    width: usize,
    height: usize,
    threads: usize,
)
    requires
        1 <= size,
        width * height <= usize::MAX,
        (width as int / 5) * (height as int / 5) >= 128,
        ((width as int / 5) * (height as int / 5)) % 32 == 0,
    ensures
        parsed_instructions(
            instruction_frame(record_words(mode, final_frame, final_byte, size), width, height),
            threads,
        ) == Ok::<(OutputMode, u32, u32, Settings), EtchError>(
            (
                mode,
                final_frame,
                final_byte,
                Settings { size: size as usize, threads, fps: READER_FPS, width, height },
            ),
        ),
{
    let words = record_words(mode, final_frame, final_byte, size);
    let sent = words_to_bits(words);
    let blank = blank_frame(INSTRUCTION_SIZE, width, height);
    let frame = instruction_frame(words, width, height);
    lemma_blank_frame(INSTRUCTION_SIZE, width, height);
    lemma_written_wf(blank, bit_colors(sent, 0));
    lemma_decode_written_bits(blank, sent, 0);
    let bits = decoded_bits(frame);
    let read = bits_to_words(bits);
    assert(bits.len() == blank.capacity());
    assert forall|j: int| 0 <= j < 4 implies #[trigger] read[j] == words[j] by {
        lemma_bits_of_len(words[j] as nat, 32);
        assert(bits.subrange(32 * j, 32 * j + 32) =~= bits_of(words[j] as nat, 32)) by {
            assert forall|i: int| 0 <= i < 32 implies bits[32 * j + i] == bits_of(
                words[j] as nat,
                32,
            )[i] by {
                assert(sent[32 * j + i] == bits_of(words[(32 * j + i) / 32] as nat, 32)[(32 * j
                    + i) % 32]);
            }
        }
        lemma2_to64();
        lemma_value_of_bits_of(words[j] as nat, 32);
    }
    assert(read[0] == mode_word(mode));
    assert(read[1] == final_frame);
    assert(read[2] == final_byte);
    assert(read[3] == size);
}

/// The header frame for a payload and its settings: a blank frame in whose
/// blocks of five pixels the bits of the five words of the header stand, as
/// far as the blocks go. A number that is too large for a word is cut to its
/// low 32 bits. Never fails.
pub fn etch_instructions(settings: &Settings, data: &Data) -> (result: Result<
    EmbedSource,
    EtchError,
>)
    requires
        settings.valid(),
    ensures
        result is Ok,
        result->Ok_0.wf(),
        result->Ok_0@ == instruction_frame(
            instruction_words(*settings, data@),
            settings.width,
            settings.height,
        ),
{
    let instruction_size = INSTRUCTION_SIZE;
    let mut u32_instructions: Vec<u32> = Vec::new();
    let frame_data_size = settings.frame_capacity();
    let elements = match data.out_mode {
        OutputMode::Color => {
            u32_instructions.push(u32::MAX);
            data.bytes.len() / 3
        },
        OutputMode::Binary => {
            u32_instructions.push(u32::MIN);
            data.binary.len()
        },
    };
    let mut final_frame: usize = 0;
    let mut final_byte: usize = 0;
    if elements > 0 {
        proof {
            lemma_div_bounds(elements - 1, frame_data_size as int);
            assert((elements - 1) / (frame_data_size as int) <= elements - 1) by (nonlinear_arith)
                requires
                    ((elements - 1) / (frame_data_size as int)) * frame_data_size <= elements - 1,
                    1 <= frame_data_size,
                    0 <= (elements - 1) / (frame_data_size as int),
            ;
        }
        final_frame = (elements - 1) / frame_data_size + 1;
        final_byte = elements - (final_frame - 1) * frame_data_size;
    }
    u32_instructions.push(#[verifier::truncate] (final_frame as u32));
    u32_instructions.push(#[verifier::truncate] (final_byte as u32));
    u32_instructions.push(#[verifier::truncate] (settings.size as u32));
    u32_instructions.push(u32::MAX);
    assert(u32_instructions@ =~= instruction_words(*settings, data@));
    let instruction_data = match rip_binary_u32(u32_instructions) {
        Ok(bits) => bits,
        Err(error) => { return Err(error); },
    };
    let mut source = EmbedSource::new(instruction_size, settings.width, settings.height);
    let mut index: usize = 0;
    let _status = etch_bw(&mut source, instruction_data.as_slice(), &mut index);
    Ok(source)
}

/// Reads a header frame: the mode, the number of the last data frame, the
/// number of block payloads in it, and the settings by which the data frames
/// are read. Fails with `IncompleteWord` when the number of blocks is not a
/// multiple of 32, else with `TruncatedInstructions` when the frame holds
/// fewer than four words, else with `ZeroBlockSize` when the fourth word is 0.
pub fn read_instructions(source: &EmbedSource, threads: usize) -> (result: Result<
    (OutputMode, u32, u32, Settings),
    EtchError,
>)
    requires
        source.wf(),
    ensures
        result == parsed_instructions(source@, threads),
{
    let binary_data = read_bw(source);
    let u32_data = match translate_u32(binary_data) {
        Ok(words) => words,
        Err(error) => { return Err(error); },
    };
    if u32_data.len() < 4 {
        return Err(EtchError::TruncatedInstructions);
    }
    let out_mode = if u32_data[0] == u32::MAX {
        OutputMode::Color
    } else {
        OutputMode::Binary
    };
    let final_frame = u32_data[1];
    let final_byte = u32_data[2];
    if u32_data[3] == 0 {
        return Err(EtchError::ZeroBlockSize);
    }
    let size = u32_data[3] as usize;
    let height = source.frame_size.height;
    let width = source.frame_size.width;
    let settings = Settings::new(size, threads, READER_FPS, width, height);
    Ok((out_mode, final_frame, final_byte, settings))
}

} // verus!
