use etcher::blocks::EtchStatus;
use etcher::embedsource::{EmbedSource, Image, Rgb, Size};
use etcher::error::EtchError;
use etcher::{etch_bw, etch_color, etch_pixel, get_pixel, read_bw, read_color, translate_u8};

fn rgb(r: u8, g: u8, b: u8) -> Rgb {
    Rgb { r, g, b }
}

fn gray(v: u8) -> Rgb {
    rgb(v, v, v)
}

#[test]
fn a_new_image_is_blank() {
    let image = Image::new(4, 3);
    assert_eq!(image.width(), 4);
    assert_eq!(image.height(), 3);
    for y in 0..3 {
        for x in 0..4 {
            assert_eq!(image.get(x, y), rgb(0, 0, 0));
        }
    }
}

#[test]
fn a_pixel_that_was_set_is_got() {
    let mut image = Image::new(4, 3);
    image.set(3, 1, rgb(1, 2, 3));
    assert_eq!(image.get(3, 1), rgb(1, 2, 3));
    assert_eq!(image.get(1, 3 - 1), rgb(0, 0, 0));
    assert_eq!(image.get(2, 1), rgb(0, 0, 0));
}

#[test]
fn a_frame_knows_its_blocks() {
    let source = EmbedSource::new(3, 10, 8);
    assert_eq!(source.size, 3);
    assert_eq!(source.frame_size, Size { width: 10, height: 8 });
    assert_eq!(source.actual_size, Size { width: 9, height: 6 });
    assert_eq!(source.block_cols(), 3);
    assert_eq!(source.block_rows(), 2);
    assert_eq!(source.capacity(), 6);
    let read = EmbedSource::from(Image::new(7, 5), 5);
    assert_eq!(read.actual_size, Size { width: 5, height: 5 });
    assert_eq!(read.capacity(), 1);
}

#[test]
fn a_written_block_is_read_back_exactly() {
    let mut image = Image::new(8, 8);
    for color in [rgb(0, 0, 0), rgb(255, 255, 255), rgb(1, 200, 77), rgb(254, 0, 128)] {
        assert_eq!(etch_pixel(&mut image, color, 2, 4, 3), Ok(()));
        assert_eq!(get_pixel(&image, 2, 4, 3), Some(color));
    }
}

#[test]
fn writing_a_block_touches_that_block_only() {
    let mut image = Image::new(6, 5);
    assert_eq!(etch_pixel(&mut image, rgb(9, 8, 7), 1, 2, 2), Ok(()));
    for y in 0..5 {
        for x in 0..6 {
            let inside = (1..3).contains(&x) && (2..4).contains(&y);
            assert_eq!(image.get(x, y), if inside { rgb(9, 8, 7) } else { rgb(0, 0, 0) });
        }
    }
}

#[test]
fn a_block_outside_the_image_is_refused() {
    let mut image = Image::new(6, 5);
    assert_eq!(etch_pixel(&mut image, rgb(1, 1, 1), 5, 0, 2), Err(EtchError::OutOfFrame));
    assert_eq!(etch_pixel(&mut image, rgb(1, 1, 1), 0, 4, 2), Err(EtchError::OutOfFrame));
    assert_eq!(etch_pixel(&mut image, rgb(1, 1, 1), 0, 0, 7), Err(EtchError::OutOfFrame));
    assert_eq!(etch_pixel(&mut image, rgb(1, 1, 1), usize::MAX, 0, 2), Err(EtchError::OutOfFrame));
    for y in 0..5 {
        for x in 0..6 {
            assert_eq!(image.get(x, y), rgb(0, 0, 0));
        }
    }
    assert_eq!(etch_pixel(&mut image, rgb(1, 1, 1), 4, 3, 2), Ok(()));
}

#[test]
fn a_block_without_pixels_has_no_colour() {
    let image = Image::new(4, 4);
    assert_eq!(get_pixel(&image, 1, 1, 0), None);
}

#[test]
fn the_mean_of_a_block_is_rounded_down() {
    let mut image = Image::new(2, 2);
    image.set(0, 0, rgb(1, 10, 255));
    image.set(1, 0, rgb(2, 10, 255));
    image.set(0, 1, rgb(2, 10, 255));
    image.set(1, 1, rgb(2, 11, 254));
    assert_eq!(get_pixel(&image, 0, 0, 2), Some(rgb(1, 10, 254)));
    assert_eq!(get_pixel(&image, 1, 1, 1), Some(rgb(2, 11, 254)));
}

#[test]
fn brightness_decides_the_bit_at_127() {
    for (brightness, bit) in [(255u8, true), (0, false), (127, true), (126, false), (128, true)] {
        let mut source = EmbedSource::new(4, 4, 4);
        assert_eq!(etch_pixel(&mut source.image, gray(brightness), 0, 0, 4), Ok(()));
        assert_eq!(read_bw(&source), vec![bit]);
    }
}

#[test]
fn only_the_red_channel_decides_the_bit() {
    let mut source = EmbedSource::new(2, 2, 2);
    assert_eq!(etch_pixel(&mut source.image, rgb(127, 0, 0), 0, 0, 2), Ok(()));
    assert_eq!(read_bw(&source), vec![true]);
    assert_eq!(etch_pixel(&mut source.image, rgb(126, 255, 255), 0, 0, 2), Ok(()));
    assert_eq!(read_bw(&source), vec![false]);
}

#[test]
fn bits_fill_a_frame_in_row_major_order() {
    let mut source = EmbedSource::new(2, 6, 4);
    let data = [true, false, true, false, true, true, true];
    let mut index = 0;
    assert_eq!(etch_bw(&mut source, &data, &mut index), EtchStatus::Filled);
    assert_eq!(index, 6);
    assert_eq!(source.image.get(0, 0), gray(255));
    assert_eq!(source.image.get(1, 1), gray(255));
    assert_eq!(source.image.get(2, 0), gray(0));
    assert_eq!(source.image.get(4, 1), gray(255));
    assert_eq!(source.image.get(0, 2), gray(0));
    assert_eq!(source.image.get(3, 3), gray(255));
    assert_eq!(source.image.get(5, 3), gray(255));
    assert_eq!(read_bw(&source), vec![true, false, true, false, true, true]);
}

#[test]
fn the_data_may_end_inside_a_frame() {
    let mut source = EmbedSource::new(2, 6, 4);
    let data = [true, true, true, true];
    let mut index = 1;
    assert_eq!(etch_bw(&mut source, &data, &mut index), EtchStatus::EndOfData);
    assert_eq!(index, 4);
    assert_eq!(read_bw(&source), vec![true, true, true, false, false, false]);
}

#[test]
fn the_data_may_end_with_the_last_block() {
    let mut source = EmbedSource::new(2, 6, 4);
    let data = [true; 6];
    let mut index = 0;
    assert_eq!(etch_bw(&mut source, &data, &mut index), EtchStatus::Filled);
    assert_eq!(index, 6);
    assert_eq!(read_bw(&source), vec![true; 6]);
}

#[test]
fn no_data_leaves_the_frame_as_it_is() {
    let mut source = EmbedSource::new(2, 6, 4);
    let mut index = 0;
    assert_eq!(etch_bw(&mut source, &[], &mut index), EtchStatus::EndOfData);
    assert_eq!(index, 0);
    let mut beyond = 9;
    assert_eq!(etch_bw(&mut source, &[true, true], &mut beyond), EtchStatus::EndOfData);
    assert_eq!(beyond, 9);
    assert_eq!(read_bw(&source), vec![false; 6]);
    let mut far = 9;
    assert_eq!(etch_color(&mut source, &[1, 2, 3], &mut far), EtchStatus::EndOfData);
    assert_eq!(far, 9);
    assert_eq!(read_color(&source), vec![0; 18]);
}

#[test]
fn bytes_fill_a_frame_three_to_a_block() {
    let mut source = EmbedSource::new(3, 7, 6);
    let data: Vec<u8> = (1..=14).collect();
    let mut index = 0;
    assert_eq!(etch_color(&mut source, &data, &mut index), EtchStatus::Filled);
    assert_eq!(index, 12);
    assert_eq!(source.image.get(0, 0), rgb(1, 2, 3));
    assert_eq!(source.image.get(5, 2), rgb(4, 5, 6));
    assert_eq!(source.image.get(2, 3), rgb(7, 8, 9));
    assert_eq!(source.image.get(3, 5), rgb(10, 11, 12));
    assert_eq!(source.image.get(6, 0), rgb(0, 0, 0));
    assert_eq!(read_color(&source), (1..=12).collect::<Vec<u8>>());
}

#[test]
fn bytes_go_on_in_the_next_frame() {
    let data: Vec<u8> = (0..30).collect();
    let mut index = 0;
    let mut first = EmbedSource::new(1, 2, 2);
    assert_eq!(etch_color(&mut first, &data, &mut index), EtchStatus::Filled);
    assert_eq!(index, 12);
    let mut second = EmbedSource::new(1, 2, 2);
    assert_eq!(etch_color(&mut second, &data, &mut index), EtchStatus::Filled);
    assert_eq!(index, 24);
    let mut third = EmbedSource::new(1, 2, 2);
    assert_eq!(etch_color(&mut third, &data, &mut index), EtchStatus::EndOfData);
    assert_eq!(index, 30);
    assert_eq!(read_color(&second), (12..24).collect::<Vec<u8>>());
    assert_eq!(read_color(&third), vec![24, 25, 26, 27, 28, 29, 0, 0, 0, 0, 0, 0]);
}

#[test]
fn pixels_outside_all_blocks_stay() {
    let mut source = EmbedSource::new(2, 5, 3);
    let mut index = 0;
    assert_eq!(etch_bw(&mut source, &[true, true, true], &mut index), EtchStatus::Filled);
    assert_eq!(index, 2);
    for x in 0..5 {
        assert_eq!(source.image.get(x, 2), gray(0));
    }
    assert_eq!(source.image.get(4, 0), gray(0));
    assert_eq!(source.image.get(3, 1), gray(255));
}

#[test]
fn four_bytes_in_a_frame_of_thirty_two_blocks() {
    let payload = vec![0x00, 0xFF, 0x10, 0x80];
    let bits = etcher::rip_binary(payload.clone()).unwrap();
    let mut source = EmbedSource::new(1, 8, 4);
    let mut index = 0;
    assert_eq!(etch_bw(&mut source, &bits, &mut index), EtchStatus::Filled);
    assert_eq!(index, 32);
    assert_eq!(translate_u8(read_bw(&source)).unwrap(), payload);
}

#[test]
fn a_stored_pixel_keeps_blue_first() {
    assert_eq!(Rgb::from_bgr([1, 2, 3]), rgb(3, 2, 1));
    assert_eq!(rgb(3, 2, 1).to_bgr(), [1, 2, 3]);
    assert_eq!(Rgb::from_bgr(rgb(9, 8, 7).to_bgr()), rgb(9, 8, 7));
}
