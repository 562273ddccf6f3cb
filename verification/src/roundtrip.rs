//! What is written can be read: the payload that a reader finds in the frames
//! that a writer made.
use crate::arith::{lemma_mul_bounds, lemma_multiple_of};
use crate::bits::{
    bits_to_bytes, bytes_to_bits, lemma_bits_to_bytes_add, lemma_bytes_round_trip,
};
use crate::blocks::{
    bit_colors, byte_colors, decoded_bits, decoded_bytes, lemma_blank_frame,
    lemma_decode_written_bits, lemma_decode_written_bytes,
};
use crate::embedsource::blank_frame;
use crate::error::EtchError;
use crate::instructions::{
    instruction_frame, lemma_instructions_round_trip, record_words, INSTRUCTION_SIZE,
};
use crate::layout::{final_count, frame_count, lemma_frame_bounds, lemma_frame_count};
use crate::reader::{payload_of, read_result, reframe, trimmed};
use crate::settings::{DataView, OutputMode, Settings};
use crate::writer::{data_frame, data_frames, etched};
use vstd::prelude::*;

verus! {

/// The header frame of these settings can be read, and the numbers that the
/// header holds for this payload fit into its words.
pub open spec fn header_fits(settings: Settings, data: DataView) -> bool {
    let blocks = (settings.width as int / 5) * (settings.height as int / 5);
    &&& blocks >= 128
    &&& blocks % 32 == 0
    &&& frame_count(data.elements(), settings.capacity()) <= u32::MAX
    &&& final_count(data.elements(), settings.capacity()) <= u32::MAX
}

/// The payload comes in units that the mode can write and read: whole
/// triples of bytes for `Color`; whole bytes for `Binary`, in frames that
/// hold whole bytes wherever there is more than one frame.
pub open spec fn payload_fits(settings: Settings, data: DataView) -> bool {
    match data.out_mode {
        OutputMode::Color => data.bytes.len() % 3 == 0,
        OutputMode::Binary => {
            &&& data.binary.len() % 8 == 0
            &&& (frame_count(data.elements(), settings.capacity()) <= 1 || settings.capacity() % 8
                == 0)
        },
    }
}

/// The bytes that a payload stands for.
pub open spec fn payload_bytes(data: DataView) -> Seq<u8> {
    match data.out_mode {
        OutputMode::Color => data.bytes,
        OutputMode::Binary => bits_to_bytes(data.binary),
    }
}

/// The block edge of valid settings fits into a word of the header.
pub proof fn lemma_size_fits(settings: Settings)
    requires
        settings.valid(),
    ensures
        settings.size <= u32::MAX,
{
    let s = settings.size as int;
    lemma_mul_bounds(s, settings.width as int, s, settings.height as int);
    if s > u32::MAX {
        assert(s * s > 0xffff_ffff_ffff_ffff) by (nonlinear_arith)
            requires
                s >= 0x1_0000_0000,
        ;
    }
}

/// The payload of the first `n` data frames of a `Binary` video: the bytes of
/// the bits that these frames hold.
proof fn lemma_payload_of_bits(settings: Settings, data: DataView, n: nat)
    requires
        settings.valid(),
        data.out_mode == OutputMode::Binary,
        header_fits(settings, data),
        payload_fits(settings, data),
        n <= frame_count(data.elements(), settings.capacity()),
    ensures
        payload_of(
            etched(settings, data),
            OutputMode::Binary,
            frame_count(data.elements(), settings.capacity()) as u32,
            final_count(data.elements(), settings.capacity()) as u32,
            settings.size,
            n,
        ) == Ok::<Seq<u8>, EtchError>(
            bits_to_bytes(
                data.binary.take(
                    if n * settings.capacity() <= data.binary.len() {
                        n * settings.capacity()
                    } else {
                        data.binary.len() as int
                    },
                ),
            ),
        ),
    decreases n,
{
    let cap = settings.capacity();
    let bits = data.binary;
    let total = bits.len() as int;
    let count = frame_count(total, cap);
    let last = final_count(total, cap);
    settings.lemma_capacity();
    if n == 0 {
        assert(0 * cap == 0);
        assert(bits.take(0) =~= Seq::empty());
        assert(bits_to_bytes(Seq::<bool>::empty()) =~= Seq::<u8>::empty());
    } else {
        lemma_payload_of_bits(settings, data, (n - 1) as nat);
        lemma_frame_bounds(total, cap, n as int);
        let from = (n - 1) * cap;
        let to = if n * cap <= total {
            n * cap
        } else {
            total
        };
        let frames = etched(settings, data);
        let colors = bit_colors(bits, 0);
        let blank = blank_frame(settings.size, settings.width, settings.height);
        lemma_blank_frame(settings.size, settings.width, settings.height);
        assert(frames[n as int] == data_frames(settings, colors)[n - 1]);
        let frame = data_frame(settings, colors, n - 1);
        assert(reframe(frame, settings.size) == frame);
        assert(colors.skip(from) =~= bit_colors(bits, from));
        lemma_decode_written_bits(blank, bits, from);
        let read = decoded_bits(frame);
        let kept = if n == count {
            trimmed(read, last)
        } else {
            read
        };
        assert(kept =~= bits.subrange(from, to));
        if count > 1 {
            lemma_multiple_of(n - 1, cap, 8);
        }
        assert(bits.take(to) =~= bits.take(from) + bits.subrange(from, to));
        lemma_bits_to_bytes_add(bits.take(from), bits.subrange(from, to));
    }
}

/// The payload of the first `n` data frames of a `Color` video: the bytes
/// that these frames hold.
proof fn lemma_payload_of_bytes(settings: Settings, data: DataView, n: nat)
    requires
        settings.valid(),
        data.out_mode == OutputMode::Color,
        header_fits(settings, data),
        n <= frame_count(data.elements(), settings.capacity()),
    ensures
        payload_of(
            etched(settings, data),
            OutputMode::Color,
            frame_count(data.elements(), settings.capacity()) as u32,
            final_count(data.elements(), settings.capacity()) as u32,
            settings.size,
            n,
        ) == Ok::<Seq<u8>, EtchError>(
            data.bytes.take(
                3 * if n * settings.capacity() <= data.elements() {
                    n * settings.capacity()
                } else {
                    data.elements()
                },
            ),
        ),
    decreases n,
{
    let cap = settings.capacity();
    let bytes = data.bytes;
    let total = data.elements();
    let count = frame_count(total, cap);
    let last = final_count(total, cap);
    settings.lemma_capacity();
    if n == 0 {
        assert(0 * cap == 0);
        assert(bytes.take(0) =~= Seq::empty());
    } else {
        lemma_payload_of_bytes(settings, data, (n - 1) as nat);
        lemma_frame_bounds(total, cap, n as int);
        let from = (n - 1) * cap;
        let to = if n * cap <= total {
            n * cap
        } else {
            total
        };
        let frames = etched(settings, data);
        let colors = byte_colors(bytes, 0);
        let blank = blank_frame(settings.size, settings.width, settings.height);
        lemma_blank_frame(settings.size, settings.width, settings.height);
        assert(frames[n as int] == data_frames(settings, colors)[n - 1]);
        let frame = data_frame(settings, colors, n - 1);
        assert(reframe(frame, settings.size) == frame);
        assert(colors.skip(from) =~= byte_colors(bytes, 3 * from));
        lemma_decode_written_bytes(blank, bytes, 3 * from);
        let read = decoded_bytes(frame);
        let kept = if n == count {
            trimmed(read, 3 * last)
        } else {
            read
        };
        assert(kept =~= bytes.subrange(3 * from, 3 * to));
        assert(bytes.take(3 * to) =~= bytes.take(3 * from) + bytes.subrange(3 * from, 3 * to));
    }
}

/// A reader finds in the frames of a payload the bytes of the payload, for
/// every number of workers on either side, whenever the header can be read
/// and holds the numbers of the payload, and the payload comes in units that
/// the mode can write and read.
pub proof fn lemma_round_trip(settings: Settings, data: DataView, threads: usize)
    requires
        settings.valid(),
        header_fits(settings, data),
        payload_fits(settings, data),
    ensures
        read_result(etched(settings, data), threads) == Ok::<Seq<u8>, EtchError>(
            payload_bytes(data),
        ),
{
    let cap = settings.capacity();
    let total = data.elements();
    let count = frame_count(total, cap);
    let last = final_count(total, cap);
    let frames = etched(settings, data);
    settings.lemma_capacity();
    lemma_size_fits(settings);
    lemma_frame_count(total, cap, 0);
    assert(frames.len() == count + 1);
    let header = frames[0];
    assert(reframe(header, INSTRUCTION_SIZE) == header);
    assert(header == instruction_frame(
        record_words(
            data.out_mode,
            count as u32,
            last as u32,
            settings.size as u32,
        ),
        settings.width,
        settings.height,
    ));
    lemma_instructions_round_trip(
        data.out_mode,
        count as u32,
        last as u32,
        settings.size as u32,
        settings.width,
        settings.height,
        threads,
    );
    if total > 0 {
        lemma_frame_bounds(total, cap, count);
    }
    match data.out_mode {
        OutputMode::Binary => {
            lemma_payload_of_bits(settings, data, count as nat);
            assert(data.binary.take(data.binary.len() as int) =~= data.binary);
        },
        OutputMode::Color => {
            lemma_payload_of_bytes(settings, data, count as nat);
            assert(data.bytes.take(data.bytes.len() as int) =~= data.bytes);
        },
    }
}

/// A reader finds in the `Binary` frames of a sequence of bytes these bytes.
pub proof fn lemma_round_trip_binary(settings: Settings, bytes: Seq<u8>, threads: usize)
    requires
        settings.valid(),
        header_fits(
            settings,
            DataView {
                bytes: Seq::empty(),
                binary: bytes_to_bits(bytes),
                out_mode: OutputMode::Binary,
            },
        ),
        8 * bytes.len() <= settings.capacity() || settings.capacity() % 8 == 0,
    ensures
        read_result(
            etched(
                settings,
                DataView {
                    bytes: Seq::empty(),
                    binary: bytes_to_bits(bytes),
                    out_mode: OutputMode::Binary,
                },
            ),
            threads,
        ) == Ok::<Seq<u8>, EtchError>(bytes),
{
    let data = DataView {
        bytes: Seq::empty(),
        binary: bytes_to_bits(bytes),
        out_mode: OutputMode::Binary,
    };
    settings.lemma_capacity();
    assert(1 * settings.capacity() == settings.capacity());
    lemma_frame_count(data.elements(), settings.capacity(), 1);
    lemma_round_trip(settings, data, threads);
    lemma_bytes_round_trip(bytes);
}

} // verus!
