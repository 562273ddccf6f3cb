use etcher::blocks::EtchStatus;
use etcher::embedsource::{EmbedSource, Image, Rgb};
use etcher::error::EtchError;
use etcher::settings::{Data, OutputMode, Settings};
use etcher::{
    chunk_data_size, etch, etch_bw, etch_chunk_bw, etch_chunk_color, etch_instructions, read,
    read_frame, read_instructions, rip_binary, rip_binary_u32,
};

const WIDTH: usize = 80;
const HEIGHT: usize = 40;

fn settings(size: usize, threads: usize) -> Settings {
    Settings::new(size, threads, 30, WIDTH, HEIGHT)
}

fn payload(length: usize) -> Vec<u8> {
    (0..length).map(|i| ((i * 37 + 11) % 251) as u8 ^ (i / 251) as u8).collect()
}

fn binary(bytes: &[u8]) -> Data {
    Data::from_binary(rip_binary(bytes.to_vec()).unwrap())
}

fn color(bytes: &[u8]) -> Data {
    Data::from_color(bytes.to_vec())
}

fn pictures(frames: Vec<EmbedSource>) -> Vec<Image> {
    frames.into_iter().map(|frame| frame.image).collect()
}

fn pixels(frame: &EmbedSource) -> Vec<Rgb> {
    let mut all = Vec::new();
    for y in 0..frame.image.height() {
        for x in 0..frame.image.width() {
            all.push(frame.image.get(x, y));
        }
    }
    all
}

fn same_frames(first: &[EmbedSource], second: &[EmbedSource]) -> bool {
    first.len() == second.len()
        && first.iter().zip(second).all(|(a, b)| {
            a.size == b.size
                && a.frame_size == b.frame_size
                && a.actual_size == b.actual_size
                && pixels(a) == pixels(b)
        })
}

#[test]
fn a_new_payload_is_empty() {
    let data = Data::new_out_mode(OutputMode::Color);
    assert!(data.bytes.is_empty());
    assert!(data.binary.is_empty());
    assert_eq!(data.out_mode, OutputMode::Color);
    assert_eq!(Data::from_binary(vec![true]).out_mode, OutputMode::Binary);
    assert_eq!(Data::from_color(vec![1, 2]).bytes, vec![1, 2]);
}

#[test]
fn settings_count_their_blocks() {
    assert_eq!(settings(4, 1).frame_capacity(), 200);
    assert_eq!(settings(3, 1).frame_capacity(), 26 * 13);
    assert_eq!(settings(40, 1).frame_capacity(), 2);
    assert_eq!(
        Settings::new(1, 2, 3, 4, 5),
        Settings { size: 1, threads: 2, fps: 3, width: 4, height: 5 }
    );
}

#[test]
fn a_worker_gets_whole_frames() {
    assert_eq!(chunk_data_size(1000, 200, 1), 1200);
    assert_eq!(chunk_data_size(1000, 200, 2), 600);
    assert_eq!(chunk_data_size(1000, 200, 8), 200);
    assert_eq!(chunk_data_size(0, 200, 3), 200);
    assert_eq!(chunk_data_size(199, 200, 1), 200);
    assert_eq!(chunk_data_size(usize::MAX, 1, 1), usize::MAX);
    assert_eq!(chunk_data_size(usize::MAX, 2, 1), usize::MAX);
}

#[test]
fn the_header_is_read_back_in_binary_mode() {
    let header = etch_instructions(&settings(4, 2), &binary(&payload(26))).unwrap();
    assert_eq!(header.size, 5);
    let (mode, final_frame, final_byte, read) = read_instructions(&header, 7).unwrap();
    assert_eq!(mode, OutputMode::Binary);
    assert_eq!(final_frame, 2);
    assert_eq!(final_byte, 8);
    assert_eq!(read, Settings { size: 4, threads: 7, fps: 1337, width: WIDTH, height: HEIGHT });
}

#[test]
fn the_header_is_read_back_in_color_mode() {
    let header = etch_instructions(&settings(8, 1), &color(&payload(400))).unwrap();
    let (mode, final_frame, final_byte, read) = read_instructions(&header, 1).unwrap();
    assert_eq!(mode, OutputMode::Color);
    assert_eq!(final_frame, 3);
    assert_eq!(final_byte, 33);
    assert_eq!(read.size, 8);
}

#[test]
fn the_header_counts_a_full_last_frame_whole() {
    let header = etch_instructions(&settings(4, 1), &binary(&payload(50))).unwrap();
    let (_, final_frame, final_byte, _) = read_instructions(&header, 1).unwrap();
    assert_eq!((final_frame, final_byte), (2, 200));
    let header = etch_instructions(&settings(4, 1), &color(&payload(600))).unwrap();
    let (_, final_frame, final_byte, _) = read_instructions(&header, 1).unwrap();
    assert_eq!((final_frame, final_byte), (1, 200));
}

#[test]
fn the_header_of_an_empty_payload_names_no_frame() {
    for data in [binary(&[]), color(&[]), color(&[1, 2])] {
        let header = etch_instructions(&settings(4, 1), &data).unwrap();
        let (_, final_frame, final_byte, _) = read_instructions(&header, 1).unwrap();
        assert_eq!((final_frame, final_byte), (0, 0));
    }
}

#[test]
fn the_header_holds_five_words() {
    let header = etch_instructions(&settings(2, 1), &color(&payload(9))).unwrap();
    let bits = etcher::read_bw(&header);
    assert_eq!(bits.len(), 128);
    let words = etcher::translate_u32(bits).unwrap();
    assert_eq!(words, vec![u32::MAX, 1, 3, 2]);
    let wide = Settings::new(2, 1, 30, 160, 40);
    let header = etch_instructions(&wide, &binary(&payload(1))).unwrap();
    let words = etcher::translate_u32(etcher::read_bw(&header)).unwrap();
    assert_eq!(words, vec![0, 1, 8, 2, u32::MAX, 0, 0, 0]);
}

#[test]
fn a_header_with_a_broken_word_is_refused() {
    let header = etch_instructions(&Settings::new(4, 1, 30, 100, 100), &binary(&[1])).unwrap();
    assert_eq!(read_instructions(&header, 1), Err(EtchError::IncompleteWord));
}

#[test]
fn a_header_that_is_too_small_is_refused() {
    let header = etch_instructions(&Settings::new(4, 1, 30, 40, 40), &binary(&[1])).unwrap();
    assert_eq!(read_instructions(&header, 1), Err(EtchError::TruncatedInstructions));
    assert_eq!(read(Vec::new(), 1), Err(EtchError::TruncatedInstructions));
    assert_eq!(read(vec![Image::new(0, 0)], 1), Err(EtchError::TruncatedInstructions));
}

#[test]
fn a_header_with_block_size_zero_is_refused() {
    let bits = rip_binary_u32(vec![0, 1, 1, 0, u32::MAX]).unwrap();
    let mut header = EmbedSource::new(5, WIDTH, HEIGHT);
    let mut index = 0;
    assert_eq!(etch_bw(&mut header, &bits, &mut index), EtchStatus::Filled);
    assert_eq!(read_instructions(&header, 1), Err(EtchError::ZeroBlockSize));
    assert_eq!(read(vec![header.image], 1), Err(EtchError::ZeroBlockSize));
}

#[test]
fn one_worker_makes_the_frames_of_its_run() {
    let bits = rip_binary(payload(60)).unwrap();
    let frames = etch_chunk_bw(&bits, &settings(4, 1));
    assert_eq!(frames.len(), 3);
    assert_eq!(etcher::read_bw(&frames[0]), bits[..200].to_vec());
    assert_eq!(etcher::read_bw(&frames[1]), bits[200..400].to_vec());
    let mut last = bits[400..].to_vec();
    last.resize(200, false);
    assert_eq!(etcher::read_bw(&frames[2]), last);
    assert_eq!(etch_chunk_bw(&bits[..400], &settings(4, 1)).len(), 2);
    assert_eq!(etch_chunk_bw(&[], &settings(4, 1)).len(), 0);
    let bytes = payload(1201);
    let frames = etch_chunk_color(&bytes, &settings(4, 1));
    assert_eq!(frames.len(), 2);
    assert_eq!(etcher::read_color(&frames[1]), bytes[600..1200].to_vec());
    assert_eq!(etch_chunk_color(&bytes[..2], &settings(4, 1)).len(), 0);
    assert_eq!(etch_chunk_color(&bytes[..3], &settings(4, 1)).len(), 1);
}

#[test]
fn a_data_frame_is_read_whole_or_as_far_as_it_counts() {
    let bits = rip_binary(payload(25)).unwrap();
    let frames = etch_chunk_bw(&bits, &settings(4, 1));
    assert_eq!(read_frame(&frames[0], OutputMode::Binary, 1, 2, 8).unwrap(), payload(25));
    assert_eq!(read_frame(&frames[0], OutputMode::Binary, 2, 2, 8).unwrap(), payload(1));
    assert_eq!(read_frame(&frames[0], OutputMode::Binary, 2, 2, 0).unwrap(), payload(0));
    assert_eq!(read_frame(&frames[0], OutputMode::Binary, 2, 2, 201).unwrap(), payload(25));
    assert_eq!(read_frame(&frames[0], OutputMode::Binary, 2, 2, 9), Err(EtchError::IncompleteByte));
    let frames = etch_chunk_color(&payload(600), &settings(4, 1));
    assert_eq!(read_frame(&frames[0], OutputMode::Color, 1, 2, 8).unwrap(), payload(600));
    assert_eq!(read_frame(&frames[0], OutputMode::Color, 2, 2, 8).unwrap(), payload(24));
    assert_eq!(read_frame(&frames[0], OutputMode::Color, 2, 2, 201).unwrap(), payload(600));
}

#[test]
fn binary_payloads_survive_the_round_trip() {
    for length in [0usize, 1, 24, 25, 26, 75, 112, 400] {
        for threads in [1usize, 2, 8] {
            let sent = payload(length);
            let frames = etch(binary(&sent), settings(4, threads)).unwrap();
            assert_eq!(frames.len(), 1 + (length * 8 + 199) / 200);
            assert_eq!(read(pictures(frames), threads).unwrap(), sent);
        }
    }
}

#[test]
fn color_payloads_survive_the_round_trip() {
    for length in [0usize, 3, 597, 600, 603, 1800, 2700, 6003] {
        for threads in [1usize, 2, 8] {
            let sent = payload(length);
            let frames = etch(color(&sent), settings(4, threads)).unwrap();
            assert_eq!(frames.len(), 1 + (length + 599) / 600);
            assert_eq!(read(pictures(frames), threads).unwrap(), sent);
        }
    }
}

#[test]
fn four_bytes_survive_the_round_trip_in_blocks_of_one_pixel() {
    let sent = vec![0x00, 0xFF, 0x10, 0x80];
    let frames = etch(binary(&sent), settings(1, 1)).unwrap();
    assert_eq!(frames.len(), 2);
    assert_eq!(etcher::read_bw(&frames[1])[..32].to_vec(), rip_binary(sent.clone()).unwrap());
    assert_eq!(read(pictures(frames), 1).unwrap(), vec![0x00, 0xFF, 0x10, 0x80]);
}

#[test]
fn blocks_that_do_not_divide_the_frame_work_too() {
    let sent = payload(300);
    let odd = Settings::new(7, 3, 30, 163, 43);
    let frames = etch(color(&sent), odd).unwrap();
    assert_eq!(frames.len(), 1 + (100 + 23 * 6 - 1) / (23 * 6));
    assert_eq!(read(pictures(frames), 3).unwrap(), sent);
}

#[test]
fn the_frames_do_not_depend_on_the_number_of_workers() {
    for length in [0usize, 1, 25, 26, 75, 112, 400] {
        let sent = payload(length);
        let alone = etch(binary(&sent), settings(4, 1)).unwrap();
        for threads in [2usize, 3, 8, 100] {
            let shared = etch(binary(&sent), settings(4, threads)).unwrap();
            assert!(same_frames(&alone, &shared));
        }
    }
    for length in [0usize, 1, 2, 3, 600, 601, 1201, 2700] {
        let sent = payload(length);
        let alone = etch(color(&sent), settings(4, 1)).unwrap();
        for threads in [2usize, 3, 8, 100] {
            let shared = etch(color(&sent), settings(4, threads)).unwrap();
            assert!(same_frames(&alone, &shared));
        }
    }
}

#[test]
fn the_frames_are_the_runs_of_the_workers_in_order() {
    let bits = rip_binary(payload(112)).unwrap();
    let whole = etch(Data::from_binary(bits.clone()), settings(4, 2)).unwrap();
    let size = chunk_data_size(bits.len(), 200, 2);
    assert_eq!(size, 600);
    let header = etch_instructions(&settings(4, 2), &Data::from_binary(bits.clone())).unwrap();
    let mut joined = vec![header];
    for chunk in bits.chunks(size) {
        joined.extend(etch_chunk_bw(chunk, &settings(4, 2)));
    }
    assert!(same_frames(&whole, &joined));
}

#[test]
fn bytes_after_the_last_whole_triple_are_not_written() {
    for (length, kept) in [(1usize, 0usize), (2, 0), (4, 3), (601, 600), (1202, 1200)] {
        let sent = payload(length);
        let frames = etch(color(&sent), settings(4, 2)).unwrap();
        assert_eq!(read(pictures(frames), 2).unwrap(), sent[..kept].to_vec());
    }
}

#[test]
fn frames_of_broken_bytes_are_refused() {
    let frames = etch(binary(&payload(43)), settings(3, 1)).unwrap();
    assert_eq!(frames.len(), 3);
    assert_eq!(read(pictures(frames), 1), Err(EtchError::IncompleteByte));
    let frames = etch(binary(&payload(42)), settings(3, 1)).unwrap();
    assert_eq!(frames.len(), 2);
    assert_eq!(read(pictures(frames), 1).unwrap(), payload(42));
}
