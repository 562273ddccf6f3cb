//! One block of pixels for one bit or one RGB triple, and one frame for a run
//! of them, block after block in row-major order.
use crate::arith::{
    lemma_div_bounds, lemma_div_of_range, lemma_grid_bound, lemma_grid_cell, lemma_grid_index,
    lemma_mul_bounds, lemma_mul_succ,
};
use crate::embedsource::{
    blank_frame, lemma_frame_geometry, shaped, unfilled, EmbedSource, EmbedSourceView, Image, Rgb,
};
use crate::error::EtchError;
use vstd::arithmetic::div_mod::{lemma_div_by_multiple, lemma_div_is_ordered};
use vstd::arithmetic::mul::{
    lemma_mul_inequality, lemma_mul_is_associative, lemma_mul_is_commutative,
};
use vstd::prelude::*;

verus! {

/// How a frame came out of writing.
#[derive(Clone, Copy, Debug, PartialEq, Eq, Structural)]
pub enum EtchStatus {
    /// Every block was written.
    Filled,
    /// The data ended before the last block was written.
    EndOfData,
}

/// The image `p` with the pixels of a rectangle set to `c`: `w` columns from
/// `x` on, `h` rows from `y` on.
pub open spec fn paint_rect(p: Seq<Seq<Rgb>>, x: int, y: int, w: int, h: int, c: Rgb) -> Seq<
    Seq<Rgb>,
> {
    Seq::new(
        p.len(),
        |r: int|
            Seq::new(
                p[r].len(),
                |q: int|
                    if y <= r < y + h && x <= q < x + w {
                        c
                    } else {
                        p[r][q]
                    },
            ),
    )
}

/// The image `p` with the block of edge `size` at `(x, y)` set to `c`.
pub open spec fn paint_block(p: Seq<Seq<Rgb>>, x: int, y: int, size: int, c: Rgb) -> Seq<
    Seq<Rgb>,
> {
    paint_rect(p, x, y, size, size, c)
}

/// One channel of a colour: 0 is red, 1 is green, anything else is blue.
pub open spec fn channel(c: Rgb, ch: int) -> int {
    if ch == 0 {
        c.r as int
    } else if ch == 1 {
        c.g as int
    } else {
        c.b as int
    }
}

/// The sum of one channel over `n` pixels of a row, from column `x` on.
pub open spec fn row_sum(row: Seq<Rgb>, x: int, n: nat, ch: int) -> int
    decreases n,
{
    if n == 0 {
        0
    } else {
        row_sum(row, x, (n - 1) as nat, ch) + channel(row[x + n - 1], ch)
    }
}

/// The sum of one channel over `n` rows of `size` pixels, from `(x, y)` on.
pub open spec fn block_sum(p: Seq<Seq<Rgb>>, x: int, y: int, size: nat, n: nat, ch: int) -> int
    decreases n,
{
    if n == 0 {
        0
    } else {
        block_sum(p, x, y, size, (n - 1) as nat, ch) + row_sum(p[y + n - 1], x, size, ch)
    }
}

/// The mean of one channel over the block of edge `size` at `(x, y)`, rounded
/// down.
pub open spec fn channel_average(p: Seq<Seq<Rgb>>, x: int, y: int, size: nat, ch: int) -> int {
    block_sum(p, x, y, size, size, ch) / ((size * size) as int)
}

/// The colour of the block of edge `size` at `(x, y)`: channel by channel the
/// mean over its pixels, rounded down.
pub open spec fn block_average(p: Seq<Seq<Rgb>>, x: int, y: int, size: nat) -> Rgb {
    Rgb {
        r: channel_average(p, x, y, size, 0) as u8,
        g: channel_average(p, x, y, size, 1) as u8,
        b: channel_average(p, x, y, size, 2) as u8,
    }
}

/// The bit that a block of the given colour stands for.
pub open spec fn bit_of(c: Rgb) -> bool {
    c.r >= 127
}

/// Every pixel of the block of edge `size` at `(x, y)` has the colour `c`.
pub open spec fn uniform(p: Seq<Seq<Rgb>>, x: int, y: int, size: int, c: Rgb) -> bool {
    forall|r: int, q: int| y <= r < y + size && x <= q < x + size ==> #[trigger] p[r][q] == c
}

/// The sum of one channel over `n` pixels is at most `255 * n`.
proof fn lemma_row_sum_bounds(row: Seq<Rgb>, x: int, n: nat, ch: int)
    ensures
        0 <= row_sum(row, x, n, ch) <= 255 * n,
    decreases n,
{
    if n > 0 {
        lemma_row_sum_bounds(row, x, (n - 1) as nat, ch);
    }
}

/// The sum of one channel over `n` rows of `size` pixels is at most
/// `255 * n * size`.
proof fn lemma_block_sum_bounds(p: Seq<Seq<Rgb>>, x: int, y: int, size: nat, n: nat, ch: int)
    ensures
        0 <= block_sum(p, x, y, size, n, ch) <= 255 * (n * size),
    decreases n,
{
    if n > 0 {
        lemma_block_sum_bounds(p, x, y, size, (n - 1) as nat, ch);
        lemma_row_sum_bounds(p[y + n - 1], x, size, ch);
        lemma_mul_succ(n - 1, size as int);
    } else {
        assert(0 * size == 0);
    }
}

/// A channel of a block's mean is a byte.
pub proof fn lemma_channel_average_bounds(p: Seq<Seq<Rgb>>, x: int, y: int, size: nat, ch: int)
    requires
        0 < size,
    ensures
        0 <= channel_average(p, x, y, size, ch) <= 255,
{
    let n = (size * size) as int;
    lemma_mul_bounds(1, size as int, 1, size as int);
    lemma_block_sum_bounds(p, x, y, size, size, ch);
    let sum = block_sum(p, x, y, size, size, ch);
    lemma_div_bounds(sum, n);
    lemma_div_is_ordered(sum, 255 * n, n);
    lemma_div_by_multiple(255, n);
}

/// The sum of one channel over `n` pixels of one colour.
proof fn lemma_uniform_row_sum(row: Seq<Rgb>, x: int, n: nat, ch: int, c: Rgb)
    requires
        forall|q: int| x <= q < x + n ==> row[q] == c,
    ensures
        row_sum(row, x, n, ch) == n * channel(c, ch),
    decreases n,
{
    if n > 0 {
        lemma_uniform_row_sum(row, x, (n - 1) as nat, ch, c);
        lemma_mul_succ(n - 1, channel(c, ch));
    } else {
        assert(0 * channel(c, ch) == 0);
    }
}

/// The sum of one channel over `n` rows of a block of one colour.
proof fn lemma_uniform_block_sum(
    p: Seq<Seq<Rgb>>,
    x: int,
    y: int,
    size: nat,
    n: nat,
    ch: int,
    c: Rgb,
)
    requires
        n <= size,
        uniform(p, x, y, size as int, c),
    ensures
        block_sum(p, x, y, size, n, ch) == n * (size * channel(c, ch)),
    decreases n,
{
    if n > 0 {
        lemma_uniform_block_sum(p, x, y, size, (n - 1) as nat, ch, c);
        let row = p[y + n - 1];
        assert forall|q: int| x <= q < x + size implies row[q] == c by {
            assert(p[y + n - 1][q] == c);
        }
        lemma_uniform_row_sum(row, x, size, ch, c);
        lemma_mul_succ(n - 1, size * channel(c, ch));
    } else {
        assert(0 * (size * channel(c, ch)) == 0);
    }
}

/// A block whose pixels all have one colour has that colour as its mean.
pub proof fn lemma_uniform_block_average(p: Seq<Seq<Rgb>>, x: int, y: int, size: nat, c: Rgb)
    requires
        0 < size,
        uniform(p, x, y, size as int, c),
    ensures
        block_average(p, x, y, size) == c,
{
    lemma_mul_bounds(1, size as int, 1, size as int);
    assert forall|ch: int| channel_average(p, x, y, size, ch) == channel(c, ch) by {
        let v = channel(c, ch);
        lemma_uniform_block_sum(p, x, y, size, size, ch, c);
        lemma_mul_is_associative(size as int, size as int, v);
        lemma_mul_is_commutative((size * size) as int, v);
        lemma_div_by_multiple(v, (size * size) as int);
    }
    assert(channel_average(p, x, y, size, 0) == c.r);
    assert(channel_average(p, x, y, size, 1) == c.g);
    assert(channel_average(p, x, y, size, 2) == c.b);
}

/// A block that was written with one colour is read back with exactly that
/// colour, wherever in the image it lies.
pub proof fn lemma_read_back_block(
    p: Seq<Seq<Rgb>>,
    width: int,
    height: int,
    x: int,
    y: int,
    size: nat,
    c: Rgb,
)
    requires
        shaped(p, width, height),
        0 < size,
        0 <= x,
        0 <= y,
        x + size <= width,
        y + size <= height,
    ensures
        block_average(paint_block(p, x, y, size as int, c), x, y, size) == c,
{
    lemma_uniform_block_average(paint_block(p, x, y, size as int, c), x, y, size, c);
}

/// A block that was written with one brightness on all three channels is
/// read back as the bit 1 exactly when the brightness is 127 or more.
pub proof fn lemma_read_back_brightness(
    p: Seq<Seq<Rgb>>,
    width: int,
    height: int,
    x: int,
    y: int,
    size: nat,
    brightness: u8,
)
    requires
        shaped(p, width, height),
        0 < size,
        0 <= x,
        0 <= y,
        x + size <= width,
        y + size <= height,
    ensures
        bit_of(
            block_average(
                paint_block(
                    p,
                    x,
                    y,
                    size as int,
                    Rgb { r: brightness, g: brightness, b: brightness },
                ),
                x,
                y,
                size,
            ),
        ) == (brightness >= 127),
{
    lemma_read_back_block(
        p,
        width,
        height,
        x,
        y,
        size,
        Rgb { r: brightness, g: brightness, b: brightness },
    );
}

/// The colour of the block of edge `size` at `(x, y)`: channel by channel the
/// mean over its pixels, rounded down. `None` for a block without pixels.
pub fn get_pixel(image: &Image, x: usize, y: usize, size: usize) -> (rgb: Option<Rgb>)
    requires
        image.wf(),
        x + size <= image.spec_width(),
        y + size <= image.spec_height(),
    ensures
        size == 0 ==> rgb is None,
        size > 0 ==> rgb == Some(block_average(image@, x as int, y as int, size as nat)),
{
    if size == 0 {
        return None;
    }
    proof {
        lemma_mul_bounds(
            size as int,
            image.spec_width() as int,
            size as int,
            image.spec_height() as int,
        );
    }
    let mut r_sum: u128 = 0;
    let mut g_sum: u128 = 0;
    let mut b_sum: u128 = 0;
    let mut i: usize = 0;
    while i < size
        invariant
            image.wf(),
            x + size <= image.spec_width(),
            y + size <= image.spec_height(),
            size * size <= usize::MAX,
            i <= size,
            r_sum == block_sum(image@, x as int, y as int, size as nat, i as nat, 0),
            g_sum == block_sum(image@, x as int, y as int, size as nat, i as nat, 1),
            b_sum == block_sum(image@, x as int, y as int, size as nat, i as nat, 2),
        decreases size - i,
    {
        let mut j: usize = 0;
        let ghost row = image@[y + i];
        proof {
            lemma_block_sum_bounds(image@, x as int, y as int, size as nat, i as nat, 0);
            lemma_block_sum_bounds(image@, x as int, y as int, size as nat, i as nat, 1);
            lemma_block_sum_bounds(image@, x as int, y as int, size as nat, i as nat, 2);
            lemma_mul_bounds(i as int, size as int, size as int, size as int);
        }
        let r_before = r_sum;
        let g_before = g_sum;
        let b_before = b_sum;
        while j < size
            invariant
                image.wf(),
                x + size <= image.spec_width(),
                y + size <= image.spec_height(),
                i < size,
                j <= size,
                row == image@[y + i],
                0 <= r_before <= 255 * usize::MAX,
                0 <= g_before <= 255 * usize::MAX,
                0 <= b_before <= 255 * usize::MAX,
                r_sum == r_before + row_sum(row, x as int, j as nat, 0),
                g_sum == g_before + row_sum(row, x as int, j as nat, 1),
                b_sum == b_before + row_sum(row, x as int, j as nat, 2),
            decreases size - j,
        {
            proof {
                lemma_row_sum_bounds(row, x as int, j as nat, 0);
                lemma_row_sum_bounds(row, x as int, j as nat, 1);
                lemma_row_sum_bounds(row, x as int, j as nat, 2);
            }
            let pixel = image.get(x + j, y + i);
            r_sum += pixel.r as u128;
            g_sum += pixel.g as u128;
            b_sum += pixel.b as u128;
            j += 1;
        }
        i += 1;
    }
    let pixel_count = (size * size) as u128;
    proof {
        lemma_channel_average_bounds(image@, x as int, y as int, size as nat, 0);
        lemma_channel_average_bounds(image@, x as int, y as int, size as nat, 1);
        lemma_channel_average_bounds(image@, x as int, y as int, size as nat, 2);
        lemma_mul_bounds(1, size as int, 1, size as int);
    }
    let r_average = (r_sum / pixel_count) as u8;
    let g_average = (g_sum / pixel_count) as u8;
    let b_average = (b_sum / pixel_count) as u8;
    Some(Rgb { r: r_average, g: g_average, b: b_average })
}

/// Sets every pixel of the block of edge `size` at `(x, y)` to `rgb`. Fails
/// with `OutOfFrame`, and leaves the image as it is, exactly when the block
/// does not lie inside the image.
pub fn etch_pixel(image: &mut Image, rgb: Rgb, x: usize, y: usize, size: usize) -> (result: Result<
    (),
    EtchError,
>)
    requires
        old(image).wf(),
    ensures
        final(image).wf(),
        final(image).spec_width() == old(image).spec_width(),
        final(image).spec_height() == old(image).spec_height(),
        x + size <= old(image).spec_width() && y + size <= old(image).spec_height() ==> result
            == Ok::<(), EtchError>(()) && final(image)@ == paint_block(
            old(image)@,
            x as int,
            y as int,
            size as int,
            rgb,
        ),
        !(x + size <= old(image).spec_width() && y + size <= old(image).spec_height())
            ==> result == Err::<(), EtchError>(EtchError::OutOfFrame) && final(image)@ == old(
            image,
        )@,
{
    let width = image.width();
    let height = image.height();
    if size > width || x > width - size || size > height || y > height - size {
        return Err(EtchError::OutOfFrame);
    }
    let mut i: usize = 0;
    assert(image@ =~~= paint_rect(old(image)@, x as int, y as int, size as int, 0, rgb));
    while i < size
        invariant
            image.wf(),
            image.spec_width() == width,
            image.spec_height() == height,
            old(image).wf(),
            old(image).spec_width() == width,
            old(image).spec_height() == height,
            x + size <= width,
            y + size <= height,
            i <= size,
            image@ == paint_rect(old(image)@, x as int, y as int, size as int, i as int, rgb),
        decreases size - i,
    {
        let mut j: usize = 0;
        let ghost before = image@;
        assert(image@ =~~= paint_rect(before, x as int, y + i, 0, 1, rgb));
        while j < size
            invariant
                image.wf(),
                image.spec_width() == width,
                image.spec_height() == height,
                shaped(before, width as int, height as int),
                x + size <= width,
                y + size <= height,
                i < size,
                j <= size,
                image@ == paint_rect(before, x as int, y + i, j as int, 1, rgb),
            decreases size - j,
        {
            image.set(x + j, y + i, rgb);
            assert(image@ =~~= paint_rect(before, x as int, y + i, j + 1, 1, rgb));
            j += 1;
        }
        assert(image@ =~~= paint_rect(
            old(image)@,
            x as int,
            y as int,
            size as int,
            i + 1,
            rgb,
        ));
        i += 1;
    }
    Ok(())
}

/// The colour that stands for a bit: white for 1, black for 0.
pub open spec fn gray(bit: bool) -> Rgb {
    if bit {
        Rgb { r: 255, g: 255, b: 255 }
    } else {
        Rgb { r: 0, g: 0, b: 0 }
    }
}

/// The colours that stand for the bits from `cursor` on, one for each bit.
pub open spec fn bit_colors(data: Seq<bool>, cursor: int) -> Seq<Rgb> {
    Seq::new(
        if 0 <= cursor <= data.len() {
            (data.len() - cursor) as nat
        } else {
            0
        },
        |i: int| gray(data[cursor + i]),
    )
}

/// The colours that stand for the bytes from `cursor` on, one for each three
/// bytes; one or two bytes after the last whole triple do not count.
pub open spec fn byte_colors(data: Seq<u8>, cursor: int) -> Seq<Rgb> {
    Seq::new(
        if 0 <= cursor <= data.len() {
            ((data.len() - cursor) / 3) as nat
        } else {
            0
        },
        |i: int|
            Rgb {
                r: data[cursor + 3 * i],
                g: data[cursor + 3 * i + 1],
                b: data[cursor + 3 * i + 2],
            },
    )
}

/// The image of the frame `v` after its blocks were written with `colors`:
/// block after block in row-major order, as far as the colours and the blocks
/// go. Pixels of other blocks, and pixels outside all blocks, stay.
pub open spec fn paint_blocks(v: EmbedSourceView, colors: Seq<Rgb>) -> Seq<Seq<Rgb>> {
    Seq::new(
        v.image.len(),
        |r: int|
            Seq::new(
                v.image[r].len(),
                |q: int|
                    {
                        let row = r / (v.size as int);
                        let col = q / (v.size as int);
                        let k = row * v.block_cols() + col;
                        if row < v.block_rows() && col < v.block_cols() && k < colors.len() {
                            colors[k]
                        } else {
                            v.image[r][q]
                        }
                    },
            ),
    )
}

/// The frame `v` after its blocks were written with `colors`.
pub open spec fn written(v: EmbedSourceView, colors: Seq<Rgb>) -> EmbedSourceView {
    EmbedSourceView { image: paint_blocks(v, colors), ..v }
}

/// How many of `n` colours a frame of `capacity` blocks takes.
pub open spec fn taken(capacity: int, n: int) -> int {
    if n < capacity {
        n
    } else {
        capacity
    }
}

/// The colour of the `k`-th block of a frame, in row-major order.
pub open spec fn block_color(v: EmbedSourceView, k: int) -> Rgb {
    block_average(
        v.image,
        (k % v.block_cols()) * v.size,
        (k / v.block_cols()) * v.size,
        v.size as nat,
    )
}

/// The bits that a frame holds: one for each block, in row-major order.
pub open spec fn decoded_bits(v: EmbedSourceView) -> Seq<bool> {
    Seq::new(v.capacity() as nat, |k: int| bit_of(block_color(v, k)))
}

/// The bytes that a frame holds: red, green and blue of each block, in
/// row-major order.
pub open spec fn decoded_bytes(v: EmbedSourceView) -> Seq<u8> {
    Seq::new((3 * v.capacity()) as nat, |i: int| channel(block_color(v, i / 3), i % 3) as u8)
}

/// A pixel lies in the block in row `by` and column `bx` of the grid exactly
/// when its coordinates divided by the block size are `by` and `bx`.
proof fn lemma_pixel_block(r: int, q: int, size: int, bx: int, by: int)
    requires
        0 < size,
        0 <= r,
        0 <= q,
    ensures
        (by * size <= r < by * size + size && bx * size <= q < bx * size + size) <==> (r / size
            == by && q / size == bx),
{
    lemma_div_bounds(r, size);
    lemma_div_bounds(q, size);
    if by * size <= r < by * size + size {
        lemma_div_of_range(r, size, by);
    }
    if bx * size <= q < bx * size + size {
        lemma_div_of_range(q, size, bx);
    }
}

/// Where the block in row `by` and column `bx` of the grid lies: inside the
/// image, at the place in the row-major order that its row and column give.
pub proof fn lemma_block_place(v: EmbedSourceView, bx: int, by: int)
    requires
        v.wf(),
        0 <= by < v.block_rows(),
        0 <= bx < v.block_cols(),
    ensures
        0 <= bx * v.size,
        0 <= by * v.size,
        bx * v.size + v.size <= v.frame_size.width,
        by * v.size + v.size <= v.frame_size.height,
        0 <= by * v.block_cols() + bx < v.capacity(),
        (by * v.block_cols() + bx) / v.block_cols() == by,
        (by * v.block_cols() + bx) % v.block_cols() == bx,
        (by + 1) * v.block_cols() == by * v.block_cols() + v.block_cols(),
{
    let size = v.size as int;
    let cols = v.block_cols();
    let rows = v.block_rows();
    lemma_frame_geometry(v);
    lemma_grid_bound(by, bx, rows, cols);
    lemma_mul_is_commutative(rows, cols);
    lemma_grid_index(by * cols + bx, cols, by, bx);
    lemma_mul_succ(bx, size);
    lemma_mul_succ(by, size);
    lemma_mul_succ(by, cols);
    lemma_mul_inequality(bx + 1, cols, size);
    lemma_mul_inequality(by + 1, rows, size);
    lemma_mul_bounds(0, bx, size, size);
    lemma_mul_bounds(0, by, size, size);
}

/// Writing nothing leaves the image as it is.
pub proof fn lemma_paint_nothing(v: EmbedSourceView)
    requires
        v.wf(),
    ensures
        paint_blocks(v, Seq::empty()) == v.image,
        written(v, Seq::empty()) == v,
{
    assert(paint_blocks(v, Seq::empty()) =~~= v.image);
}

/// Colours beyond the number of blocks are not written.
pub proof fn lemma_paint_capacity(v: EmbedSourceView, colors: Seq<Rgb>, n: int)
    requires
        v.wf(),
        taken(v.capacity(), colors.len() as int) <= n <= colors.len(),
    ensures
        paint_blocks(v, colors.take(n)) == paint_blocks(v, colors),
{
    lemma_frame_geometry(v);
    let size = v.size as int;
    assert forall|r: int, q: int|
        0 <= r < v.image.len() && 0 <= q < v.image[r].len() implies #[trigger] paint_blocks(
        v,
        colors.take(n),
    )[r][q] == paint_blocks(v, colors)[r][q] by {
        lemma_div_bounds(r, size);
        lemma_div_bounds(q, size);
        if r / size < v.block_rows() && q / size < v.block_cols() {
            lemma_grid_bound(r / size, q / size, v.block_rows(), v.block_cols());
            lemma_mul_is_commutative(v.block_rows(), v.block_cols());
        }
    }
    assert(paint_blocks(v, colors.take(n)) =~~= paint_blocks(v, colors));
}

/// Writing the `k`-th block after the `k` blocks before it.
proof fn lemma_paint_next(v: EmbedSourceView, colors: Seq<Rgb>, k: int, bx: int, by: int)
    requires
        v.wf(),
        0 <= by < v.block_rows(),
        0 <= bx < v.block_cols(),
        k == by * v.block_cols() + bx,
        k < colors.len(),
    ensures
        paint_block(
            paint_blocks(v, colors.take(k)),
            bx * v.size,
            by * v.size,
            v.size as int,
            colors[k],
        ) == paint_blocks(v, colors.take(k + 1)),
{
    lemma_frame_geometry(v);
    let size = v.size as int;
    let cols = v.block_cols();
    let before = paint_blocks(v, colors.take(k));
    let after = paint_block(before, bx * size, by * size, size, colors[k]);
    let goal = paint_blocks(v, colors.take(k + 1));
    lemma_grid_bound(by, bx, v.block_rows(), cols);
    assert forall|r: int, q: int|
        0 <= r < v.image.len() && 0 <= q < v.image[r].len() implies #[trigger] after[r][q]
        == goal[r][q] by {
        lemma_pixel_block(r, q, size, bx, by);
        lemma_div_bounds(r, size);
        lemma_div_bounds(q, size);
        let row = r / size;
        let col = q / size;
        if row < v.block_rows() && col < cols {
            lemma_grid_bound(row, col, v.block_rows(), cols);
            lemma_grid_index(row * cols + col, cols, row, col);
            lemma_grid_index(k, cols, by, bx);
        }
    }
    assert(after =~~= goal);
}

/// A block that was written holds the colour that was written to it.
pub proof fn lemma_written_block(v: EmbedSourceView, colors: Seq<Rgb>, k: int)
    requires
        v.wf(),
        0 <= k < v.capacity(),
        k < colors.len(),
    ensures
        block_color(written(v, colors), k) == colors[k],
{
    lemma_frame_geometry(v);
    let size = v.size as int;
    let cols = v.block_cols();
    let rows = v.block_rows();
    lemma_mul_is_commutative(rows, cols);
    lemma_grid_cell(k, rows, cols);
    let bx = k % cols;
    let by = k / cols;
    let w = written(v, colors);
    lemma_block_place(v, bx, by);
    assert forall|r: int, q: int|
        by * size <= r < by * size + size && bx * size <= q < bx * size + size implies
        #[trigger] w.image[r][q]
        == colors[k] by {
        lemma_pixel_block(r, q, size, bx, by);
    }
    lemma_uniform_block_average(w.image, bx * size, by * size, size as nat, colors[k]);
}

/// A block of a frame that was uniformly `c` before keeps that colour when
/// the colours that were written ended before it.
pub proof fn lemma_unwritten_block(v: EmbedSourceView, colors: Seq<Rgb>, k: int, c: Rgb)
    requires
        v.wf(),
        0 <= k < v.capacity(),
        colors.len() <= k,
        forall|r: int, q: int|
            0 <= r < v.image.len() && 0 <= q < v.image[r].len() ==> #[trigger] v.image[r][q] == c,
    ensures
        block_color(written(v, colors), k) == c,
{
    lemma_frame_geometry(v);
    let size = v.size as int;
    let cols = v.block_cols();
    let rows = v.block_rows();
    lemma_mul_is_commutative(rows, cols);
    lemma_grid_cell(k, rows, cols);
    let bx = k % cols;
    let by = k / cols;
    let w = written(v, colors);
    lemma_block_place(v, bx, by);
    assert forall|r: int, q: int|
        by * size <= r < by * size + size && bx * size <= q < bx * size + size implies
        #[trigger] w.image[r][q]
        == c by {
        lemma_pixel_block(r, q, size, bx, by);
    }
    lemma_uniform_block_average(w.image, bx * size, by * size, size as nat, c);
}

/// Writing to a well-formed frame leaves it well-formed, with the same number
/// of blocks.
pub proof fn lemma_written_wf(v: EmbedSourceView, colors: Seq<Rgb>)
    requires
        v.wf(),
    ensures
        written(v, colors).wf(),
        written(v, colors).capacity() == v.capacity(),
        written(v, colors).block_cols() == v.block_cols(),
        written(v, colors).block_rows() == v.block_rows(),
{
}

/// Writes bits into the blocks of a frame: one bit per block in row-major
/// order, from `data[*global_index]` on, white for 1 and black for 0, and
/// moves `global_index` behind the last bit that was written. Blocks for
/// which no bit is left stay as they are. Says `EndOfData` exactly when the
/// bits ended before the last block.
pub fn etch_bw(source: &mut EmbedSource, data: &[bool], global_index: &mut usize) -> (status:
    EtchStatus)
    requires
        old(source).wf(),
    ensures
        final(source).wf(),
        final(source)@ == written(old(source)@, bit_colors(data@, *old(global_index) as int)),
        *final(global_index) == *old(global_index) + taken(
            old(source)@.capacity(),
            bit_colors(data@, *old(global_index) as int).len() as int,
        ),
        status == if old(source)@.capacity() <= bit_colors(
            data@,
            *old(global_index) as int,
        ).len() {
            EtchStatus::Filled
        } else {
            EtchStatus::EndOfData
        },
{
    let ghost v = source@;
    let ghost start = *global_index as int;
    let ghost colors = bit_colors(data@, start);
    let size = source.size;
    let cols = source.block_cols();
    let rows = source.block_rows();
    proof {
        lemma_frame_geometry(v);
        lemma_paint_nothing(v);
        assert(colors.take(0) =~= Seq::empty());
        assert(0 * cols == 0);
    }
    let mut by: usize = 0;
    while by < rows
        invariant
            v.wf(),
            source.wf(),
            size == v.size,
            cols == v.block_cols(),
            rows == v.block_rows(),
            colors == bit_colors(data@, start),
            v == old(source)@,
            start == *old(global_index),
            by <= rows,
            by * cols <= colors.len(),
            *global_index == start + by * cols,
            source@ == written(v, colors.take(by * cols)),
        decreases rows - by,
    {
        let mut bx: usize = 0;
        while bx < cols
            invariant
                v.wf(),
                source.wf(),
                size == v.size,
                cols == v.block_cols(),
                rows == v.block_rows(),
                colors == bit_colors(data@, start),
                v == old(source)@,
                start == *old(global_index),
                by < rows,
                bx <= cols,
                by * cols + bx <= colors.len(),
                *global_index == start + by * cols + bx,
                source@ == written(v, colors.take(by * cols + bx)),
            ensures
                bx == cols,
            decreases cols - bx,
        {
            let ghost k = by * cols + bx;
            proof {
                lemma_block_place(v, bx as int, by as int);
            }
            if *global_index < data.len() {
                let bit = data[*global_index];
                let brightness: u8 = if bit {
                    255
                } else {
                    0
                };
                let rgb = Rgb { r: brightness, g: brightness, b: brightness };
                proof {
                    assert(colors[k] == rgb);
                    lemma_paint_next(v, colors, k, bx as int, by as int);
                }
                let _painted = etch_pixel(&mut source.image, rgb, bx * size, by * size, size);
                *global_index += 1;
            } else {
                proof {
                    assert(colors.take(k) =~= colors);
                }
                return EtchStatus::EndOfData;
            }
            bx += 1;
        }
        proof {
            lemma_mul_succ(by as int, cols as int);
        }
        by += 1;
    }
    proof {
        lemma_mul_is_commutative(rows as int, cols as int);
        lemma_paint_capacity(v, colors, by * cols);
    }
    EtchStatus::Filled
}

/// Writes bytes into the blocks of a frame: three bytes per block in
/// row-major order, from `data[*global_index]` on, as the red, green and blue
/// of the block, and moves `global_index` behind the last byte that was
/// written. Blocks for which no three bytes are left stay as they are. Says
/// `EndOfData` exactly when the whole triples of bytes ended before the last
/// block.
pub fn etch_color(source: &mut EmbedSource, data: &[u8], global_index: &mut usize) -> (status:
    EtchStatus)
    requires
        old(source).wf(),
    ensures
        final(source).wf(),
        final(source)@ == written(old(source)@, byte_colors(data@, *old(global_index) as int)),
        *final(global_index) == *old(global_index) + 3 * taken(
            old(source)@.capacity(),
            byte_colors(data@, *old(global_index) as int).len() as int,
        ),
        status == if old(source)@.capacity() <= byte_colors(
            data@,
            *old(global_index) as int,
        ).len() {
            EtchStatus::Filled
        } else {
            EtchStatus::EndOfData
        },
{
    let ghost v = source@;
    let ghost start = *global_index as int;
    let ghost colors = byte_colors(data@, start);
    let size = source.size;
    let cols = source.block_cols();
    let rows = source.block_rows();
    proof {
        lemma_frame_geometry(v);
        lemma_paint_nothing(v);
        assert(colors.take(0) =~= Seq::empty());
        assert(0 * cols == 0);
    }
    let mut by: usize = 0;
    while by < rows
        invariant
            v.wf(),
            source.wf(),
            size == v.size,
            cols == v.block_cols(),
            rows == v.block_rows(),
            colors == byte_colors(data@, start),
            v == old(source)@,
            start == *old(global_index),
            by <= rows,
            by * cols <= colors.len(),
            *global_index == start + 3 * (by * cols),
            source@ == written(v, colors.take(by * cols)),
        decreases rows - by,
    {
        let mut bx: usize = 0;
        while bx < cols
            invariant
                v.wf(),
                source.wf(),
                size == v.size,
                cols == v.block_cols(),
                rows == v.block_rows(),
                colors == byte_colors(data@, start),
                v == old(source)@,
                start == *old(global_index),
                by < rows,
                bx <= cols,
                by * cols + bx <= colors.len(),
                *global_index == start + 3 * (by * cols + bx),
                source@ == written(v, colors.take(by * cols + bx)),
            ensures
                bx == cols,
            decreases cols - bx,
        {
            let ghost k = by * cols + bx;
            proof {
                lemma_block_place(v, bx as int, by as int);
            }
            let local_index = *global_index;
            if local_index <= data.len() && data.len() - local_index >= 3 {
                let rgb = Rgb {
                    r: data[local_index],
                    g: data[local_index + 1],
                    b: data[local_index + 2],
                };
                proof {
                    assert(colors[k] == rgb);
                    lemma_paint_next(v, colors, k, bx as int, by as int);
                }
                let _painted = etch_pixel(&mut source.image, rgb, bx * size, by * size, size);
                *global_index += 3;
            } else {
                proof {
                    assert(colors.take(k) =~= colors);
                }
                return EtchStatus::EndOfData;
            }
            bx += 1;
        }
        proof {
            lemma_mul_succ(by as int, cols as int);
        }
        by += 1;
    }
    proof {
        lemma_mul_is_commutative(rows as int, cols as int);
        lemma_paint_capacity(v, colors, by * cols);
    }
    EtchStatus::Filled
}

/// The bits that a frame holds: for each block in row-major order, whether
/// the red channel of its colour is 127 or more.
pub fn read_bw(source: &EmbedSource) -> (binary_data: Vec<bool>)
    requires
        source.wf(),
    ensures
        binary_data@ == decoded_bits(source@),
{
    let ghost v = source@;
    let size = source.size;
    let cols = source.block_cols();
    let rows = source.block_rows();
    let mut binary_data: Vec<bool> = Vec::new();
    proof {
        lemma_frame_geometry(v);
        assert(0 * cols == 0);
    }
    let mut by: usize = 0;
    while by < rows
        invariant
            v == source@,
            source.wf(),
            size == v.size,
            cols == v.block_cols(),
            rows == v.block_rows(),
            by <= rows,
            binary_data@ == decoded_bits(v).take(by * cols),
        decreases rows - by,
    {
        let mut bx: usize = 0;
        while bx < cols
            invariant
                v == source@,
                source.wf(),
                size == v.size,
                cols == v.block_cols(),
                rows == v.block_rows(),
                by < rows,
                bx <= cols,
                binary_data@ == decoded_bits(v).take(by * cols + bx),
            decreases cols - bx,
        {
            let ghost k = by * cols + bx;
            proof {
                lemma_block_place(v, bx as int, by as int);
            }
            if let Some(rgb) = get_pixel(&source.image, bx * size, by * size, size) {
                let bit = rgb.r >= 127;
                binary_data.push(bit);
            }
            assert(binary_data@ =~= decoded_bits(v).take(k + 1));
            bx += 1;
        }
        proof {
            lemma_mul_succ(by as int, cols as int);
        }
        by += 1;
    }
    proof {
        lemma_mul_is_commutative(rows as int, cols as int);
    }
    assert(decoded_bits(v).take(by * cols) =~= decoded_bits(v));
    binary_data
}

/// The bytes that a frame holds: for each block in row-major order, the red,
/// green and blue of its colour.
pub fn read_color(source: &EmbedSource) -> (byte_data: Vec<u8>)
    requires
        source.wf(),
    ensures
        byte_data@ == decoded_bytes(source@),
{
    let ghost v = source@;
    let size = source.size;
    let cols = source.block_cols();
    let rows = source.block_rows();
    let mut byte_data: Vec<u8> = Vec::new();
    proof {
        lemma_frame_geometry(v);
        assert(0 * cols == 0);
    }
    let mut by: usize = 0;
    while by < rows
        invariant
            v == source@,
            source.wf(),
            size == v.size,
            cols == v.block_cols(),
            rows == v.block_rows(),
            by <= rows,
            byte_data@ == decoded_bytes(v).take(3 * (by * cols)),
        decreases rows - by,
    {
        let mut bx: usize = 0;
        while bx < cols
            invariant
                v == source@,
                source.wf(),
                size == v.size,
                cols == v.block_cols(),
                rows == v.block_rows(),
                by < rows,
                bx <= cols,
                byte_data@ == decoded_bytes(v).take(3 * (by * cols + bx)),
            decreases cols - bx,
        {
            let ghost k = by * cols + bx;
            proof {
                lemma_block_place(v, bx as int, by as int);
            }
            if let Some(rgb) = get_pixel(&source.image, bx * size, by * size, size) {
                byte_data.push(rgb.r);
                byte_data.push(rgb.g);
                byte_data.push(rgb.b);
            }
            assert(byte_data@ =~= decoded_bytes(v).take(3 * (k + 1)));
            bx += 1;
        }
        proof {
            lemma_mul_succ(by as int, cols as int);
        }
        by += 1;
    }
    proof {
        lemma_mul_is_commutative(rows as int, cols as int);
    }
    assert(decoded_bytes(v).take(3 * (by * cols)) =~= decoded_bytes(v));
    byte_data
}

/// Every pixel of the image is unfilled.
pub open spec fn all_unfilled(p: Seq<Seq<Rgb>>) -> bool {
    forall|r: int, q: int|
        0 <= r < p.len() && 0 <= q < p[r].len() ==> #[trigger] p[r][q] == unfilled()
}

/// The bits that are read from a frame that was unfilled and then written
/// with the bits of `data` from `cursor` on: those bits, as far as the blocks
/// go, and 0 for every block after them.
pub proof fn lemma_decode_written_bits(v: EmbedSourceView, data: Seq<bool>, cursor: int)
    requires
        v.wf(),
        all_unfilled(v.image),
        0 <= cursor <= data.len(),
    ensures
        decoded_bits(written(v, bit_colors(data, cursor))) == Seq::new(
            v.capacity() as nat,
            |k: int| k < data.len() - cursor && data[cursor + k],
        ),
{
    let colors = bit_colors(data, cursor);
    let w = written(v, colors);
    lemma_frame_geometry(v);
    assert forall|k: int| 0 <= k < v.capacity() implies #[trigger] decoded_bits(w)[k] == (k
        < data.len() - cursor && data[cursor + k]) by {
        if k < colors.len() {
            lemma_written_block(v, colors, k);
        } else {
            lemma_unwritten_block(v, colors, k, unfilled());
        }
    }
    assert(decoded_bits(w) =~= Seq::new(
        v.capacity() as nat,
        |k: int| k < data.len() - cursor && data[cursor + k],
    ));
}

/// The bytes that are read from a frame that was unfilled and then written
/// with the bytes of `data` from `cursor` on: the bytes of the whole triples,
/// as far as the blocks go, and 0 for every block after them.
pub proof fn lemma_decode_written_bytes(v: EmbedSourceView, data: Seq<u8>, cursor: int)
    requires
        v.wf(),
        all_unfilled(v.image),
        0 <= cursor <= data.len(),
    ensures
        decoded_bytes(written(v, byte_colors(data, cursor))) == Seq::new(
            (3 * v.capacity()) as nat,
            |i: int|
                if i / 3 < (data.len() - cursor) / 3 {
                    data[cursor + i]
                } else {
                    0u8
                },
        ),
{
    let colors = byte_colors(data, cursor);
    let w = written(v, colors);
    lemma_frame_geometry(v);
    assert forall|i: int| 0 <= i < 3 * v.capacity() implies #[trigger] decoded_bytes(w)[i] == (if i
        / 3 < (data.len() - cursor) / 3 {
        data[cursor + i]
    } else {
        0u8
    }) by {
        let k = i / 3;
        if k < colors.len() {
            lemma_written_block(v, colors, k);
        } else {
            lemma_unwritten_block(v, colors, k, unfilled());
        }
    }
    assert(decoded_bytes(w) =~= Seq::new(
        (3 * v.capacity()) as nat,
        |i: int|
            if i / 3 < (data.len() - cursor) / 3 {
                data[cursor + i]
            } else {
                0u8
            },
    ));
}

/// The blank frame is well-formed and unfilled.
pub proof fn lemma_blank_frame(size: usize, width: usize, height: usize)
    requires
        1 <= size,
        width * height <= usize::MAX,
    ensures
        blank_frame(size, width, height).wf(),
        all_unfilled(blank_frame(size, width, height).image),
        blank_frame(size, width, height).block_cols() == width as int / size as int,
        blank_frame(size, width, height).block_rows() == height as int / size as int,
        blank_frame(size, width, height).capacity() == (width as int / size as int) * (height as int
            / size as int),
{
    lemma_div_bounds(width as int, size as int);
    lemma_div_bounds(height as int, size as int);
    let v = blank_frame(size, width, height);
    assert(v.wf());
    lemma_frame_geometry(v);
}

} // verus!
