//! What a run works on and by: the payload and the settings.
use crate::arith::{lemma_div_bounds, lemma_mul_bounds};
use vstd::prelude::*;

verus! {

/// How densely a frame is filled.
#[derive(Clone, Copy, Debug, PartialEq, Eq, Structural)]
pub enum OutputMode {
    /// One bit per block: white for 1, black for 0.
    Binary,
    /// Three payload bytes per block, as the red, green and blue channel.
    Color,
}

/// The payload of one run: the bytes for `Color`, their bits for `Binary`.
pub struct Data {
    pub bytes: Vec<u8>,
    pub binary: Vec<bool>,
    pub out_mode: OutputMode,
}

/// What a `Data` is to a contract.
pub struct DataView {
    pub bytes: Seq<u8>,
    pub binary: Seq<bool>,
    pub out_mode: OutputMode,
}

impl View for Data {
    type V = DataView;

    open spec fn view(&self) -> DataView {
        DataView { bytes: self.bytes@, binary: self.binary@, out_mode: self.out_mode }
    }
}

impl DataView {
    /// The block payloads that the mode writes: the bits for `Binary`, the
    /// whole triples of bytes for `Color`.
    pub open spec fn elements(&self) -> int {
        match self.out_mode {
            OutputMode::Binary => self.binary.len() as int,
            OutputMode::Color => self.bytes.len() as int / 3,
        }
    }
}

impl Data {
    /// An empty payload of the given mode.
    pub fn new_out_mode(out_mode: OutputMode) -> (data: Data)
        ensures
            data.bytes@ == Seq::<u8>::empty(),
            data.binary@ == Seq::<bool>::empty(),
            data.out_mode == out_mode,
    {
        Data { bytes: Vec::new(), binary: Vec::new(), out_mode }
    }

    /// A payload of bits, to be written one bit per block.
    pub fn from_binary(binary: Vec<bool>) -> (data: Data)
        ensures
            data.bytes@ == Seq::<u8>::empty(),
            data.binary == binary,
            data.out_mode == OutputMode::Binary,
    {
        Data { bytes: Vec::new(), binary, out_mode: OutputMode::Binary }
    }

    /// A payload of bytes, to be written three bytes per block.
    pub fn from_color(bytes: Vec<u8>) -> (data: Data)
        ensures
            data.bytes == bytes,
            data.binary@ == Seq::<bool>::empty(),
            data.out_mode == OutputMode::Color,
    {
        Data { bytes, binary: Vec::new(), out_mode: OutputMode::Color }
    }

}

/// The parameters of one run.
#[derive(Clone, Copy, Debug, PartialEq, Eq, Structural)]
pub struct Settings {
    /// Edge length of a block, in pixels.
    pub size: usize,
    /// Number of workers among which a payload is split.
    pub threads: usize,
    /// Frames per second of the video; no effect on what the frames hold.
    pub fps: i32,
    /// Frame width in pixels.
    pub width: usize,
    /// Frame height in pixels.
    pub height: usize,
}

impl Settings {
    /// Settings of the given values; whether they are valid is another
    /// question.
    pub fn new(size: usize, threads: usize, fps: i32, width: usize, height: usize) -> (settings:
        Settings)
        ensures
            settings == (Settings { size, threads, fps, width, height }),
    {
        Settings { size, threads, fps, width, height }
    }

    /// Blocks in one row of a frame.
    pub open spec fn block_cols(&self) -> int {
        self.width as int / self.size as int
    }

    /// Rows of blocks in a frame.
    pub open spec fn block_rows(&self) -> int {
        self.height as int / self.size as int
    }

    /// Blocks in a frame.
    pub open spec fn capacity(&self) -> int {
        self.block_cols() * self.block_rows()
    }

    /// Blocks in a frame.
    pub fn frame_capacity(&self) -> (blocks: usize)
        requires
            self.valid(),
        ensures
            blocks == self.capacity(),
            1 <= blocks,
    {
        proof {
            self.lemma_capacity();
        }
        (self.width / self.size) * (self.height / self.size)
    }

    /// A frame of valid settings has at least one block, and no more blocks
    /// than pixels.
    pub proof fn lemma_capacity(&self)
        requires
            self.valid(),
        ensures
            1 <= self.block_cols() <= self.width,
            1 <= self.block_rows() <= self.height,
            1 <= self.capacity() <= self.width * self.height,
    {
        let cols = self.block_cols();
        let rows = self.block_rows();
        lemma_div_bounds(self.width as int, self.size as int);
        lemma_div_bounds(self.height as int, self.size as int);
        assert(cols <= self.width) by (nonlinear_arith)
            requires
                cols * self.size <= self.width,
                1 <= self.size,
                0 <= cols,
        ;
        assert(rows <= self.height) by (nonlinear_arith)
            requires
                rows * self.size <= self.height,
                1 <= self.size,
                0 <= rows,
        ;
        assert(1 <= cols) by (nonlinear_arith)
            requires
                self.width < cols * self.size + self.size,
                self.size <= self.width,
                0 <= cols,
        ;
        assert(1 <= rows) by (nonlinear_arith)
            requires
                self.height < rows * self.size + self.size,
                self.size <= self.height,
                0 <= rows,
        ;
        lemma_mul_bounds(cols, self.width as int, rows, self.height as int);
        lemma_mul_bounds(1, cols, 1, rows);
    }

    /// What a run that writes frames needs: a block of at least one pixel that
    /// fits into the frame, at least one worker, and a frame whose pixels can
    /// be counted in a `usize`.
    pub open spec fn valid(&self) -> bool {
        &&& 1 <= self.size <= self.width
        &&& self.size <= self.height
        &&& 1 <= self.threads
        &&& self.width * self.height <= usize::MAX
    }
}

} // verus!
