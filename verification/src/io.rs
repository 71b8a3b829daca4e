use vstd::prelude::*;

verus! {

pub const DISPLAY_WIDTH: usize = 64;
pub const DISPLAY_HEIGHT: usize = 32;
pub const NUM_KEYS: usize = 16;

/// Four bytes packed into a color word, most-significant byte first.
pub open spec fn color_of_bytes(b0: u8, b1: u8, b2: u8, b3: u8) -> u32 {
    ((b0 as u32) * 0x1000000 + (b1 as u32) * 0x10000 + (b2 as u32) * 0x100 + (b3 as u32)) as u32
}

/// Byte offset of the pixel at (row, col) in the framebuffer.
pub open spec fn pixel_index(row: int, col: int) -> int {
    (row * 64 + col) * 4
}

/// The packed color of the pixel at (row, col).
pub open spec fn color_at(fb: Seq<u8>, row: int, col: int) -> u32 {
    color_of_bytes(
        fb[pixel_index(row, col)],
        fb[pixel_index(row, col) + 1],
        fb[pixel_index(row, col) + 2],
        fb[pixel_index(row, col) + 3],
    )
}

/// Mathematical model of the display and keypad state.
#[verifier::ext_equal]
pub ghost struct IoState {
    pub primary: u32,
    pub secondary: u32,
    pub keys: Seq<bool>,
    pub fb: Seq<u8>,
}

/// Display and keypad state the interpreter core reads and writes: a
/// 64x32 grid of packed colors stored as 4 bytes per pixel, and one
/// held/released flag per logical key. The host paints the framebuffer
/// to the screen and feeds key transitions in; the core never does I/O.
pub struct Chip8IO {
    pub primary_color: u32,
    pub secondary_color: u32,
    pub keys_pressed: Vec<bool>,
    pub display_buffer: Vec<u8>,
}

impl View for Chip8IO {
    type V = IoState;

    open spec fn view(&self) -> IoState {
        IoState {
            primary: self.primary_color,
            secondary: self.secondary_color,
            keys: self.keys_pressed@,
            fb: self.display_buffer@,
        }
    }
}

proof fn lemma_color_pack(b0: u8, b1: u8, b2: u8, b3: u8)
    ensures
        ((b0 as u32) << 24) | ((b1 as u32) << 16) | ((b2 as u32) << 8) | (b3 as u32)
            == color_of_bytes(b0, b1, b2, b3),
{
    assert(((b0 as u32) << 24) | ((b1 as u32) << 16) | ((b2 as u32) << 8) | (b3 as u32)
        == ((b0 as u32) * 0x1000000 + (b1 as u32) * 0x10000 + (b2 as u32) * 0x100 + (b3 as u32)) as u32)
        by (bit_vector);
}

proof fn lemma_color_unpack(c: u32)
    ensures
        ((c & 0xFF000000) >> 24) as u8 == (c / 0x1000000) as u8,
        ((c & 0x00FF0000) >> 16) as u8 == ((c / 0x10000) % 0x100) as u8,
        ((c & 0x0000FF00) >> 8) as u8 == ((c / 0x100) % 0x100) as u8,
        (c & 0x000000FF) as u8 == (c % 0x100) as u8,
        color_of_bytes(
            (c / 0x1000000) as u8,
            ((c / 0x10000) % 0x100) as u8,
            ((c / 0x100) % 0x100) as u8,
            (c % 0x100) as u8,
        ) == c,
{
    assert(((c & 0xFF000000) >> 24) as u8 == (c / 0x1000000) as u8) by (bit_vector);
    assert(((c & 0x00FF0000) >> 16) as u8 == ((c / 0x10000) % 0x100) as u8) by (bit_vector);
    assert(((c & 0x0000FF00) >> 8) as u8 == ((c / 0x100) % 0x100) as u8) by (bit_vector);
    assert((c & 0x000000FF) as u8 == (c % 0x100) as u8) by (bit_vector);
    assert(c / 0x1000000 < 0x100 && (c / 0x10000) % 0x100 < 0x100
        && (c / 0x100) % 0x100 < 0x100 && c % 0x100 < 0x100) by (bit_vector);
    assert(((c / 0x1000000) as u8 as u32) * 0x1000000 + (((c / 0x10000) % 0x100) as u8 as u32) * 0x10000
        + (((c / 0x100) % 0x100) as u8 as u32) * 0x100 + ((c % 0x100) as u8 as u32) == c)
        by (bit_vector);
}

/// Reassemble the packed color stored at byte offset `index`.
fn construct_color_at(buf: &Vec<u8>, index: usize) -> (color: u32)
    requires
        index + 4 <= buf@.len(),
    ensures
        color == color_of_bytes(buf@[index as int], buf@[index + 1], buf@[index + 2], buf@[index + 3]),
{
    let n = buf.len();
    let b0 = buf[index];
    let b1 = buf[index + 1];
    let b2 = buf[index + 2];
    let b3 = buf[index + 3];
    proof {
        lemma_color_pack(b0, b1, b2, b3);
    }
    ((b0 as u32) << 24) | ((b1 as u32) << 16) | ((b2 as u32) << 8) | (b3 as u32)
}

/// Store the four bytes of `color` at byte offset `index`, most-significant
/// byte first; no other byte changes.
fn write_color_at(buf: &mut Vec<u8>, index: usize, color: u32)
    requires
        index + 4 <= old(buf)@.len(),
    ensures
        final(buf)@.len() == old(buf)@.len(),
        final(buf)@[index as int] == (color / 0x1000000) as u8,
        final(buf)@[index + 1] == ((color / 0x10000) % 0x100) as u8,
        final(buf)@[index + 2] == ((color / 0x100) % 0x100) as u8,
        final(buf)@[index + 3] == (color % 0x100) as u8,
        forall|k: int| 0 <= k < old(buf)@.len() && !(index <= k < index + 4)
            ==> final(buf)@[k] == old(buf)@[k],
{
    proof {
        lemma_color_unpack(color);
    }
    let n = buf.len();
    buf.set(index, #[verifier::truncate] (((color & 0xFF000000) >> 24) as u8));
    buf.set(index + 1, #[verifier::truncate] (((color & 0x00FF0000) >> 16) as u8));
    buf.set(index + 2, #[verifier::truncate] (((color & 0x0000FF00) >> 8) as u8));
    buf.set(index + 3, (color & 0x000000FF) as u8);
}

impl Chip8IO {
    /// Buffer sizes match the fixed display and keypad dimensions.
    pub open spec fn wf(self) -> bool {
        &&& self@.fb.len() == 32 * 64 * 4
        &&& self@.keys.len() == 16
    }

    /// A fresh display: every cell holds the secondary color, no key held.
    pub fn new(primary_color: u32, secondary_color: u32) -> (io: Chip8IO)
        ensures
            io.wf(),
            io@.primary == primary_color,
            io@.secondary == secondary_color,
            forall|k: int| 0 <= k < 16 ==> !io@.keys[k],
            forall|r: int, c: int| 0 <= r < 32 && 0 <= c < 64
                ==> color_at(io@.fb, r, c) == secondary_color,
    {
        let mut keys_pressed: Vec<bool> = Vec::new();
        let mut k: usize = 0;
        while k < NUM_KEYS
            invariant
                k <= 16,
                keys_pressed@.len() == k,
                forall|j: int| 0 <= j < k ==> !keys_pressed@[j],
            decreases 16 - k,
        {
            keys_pressed.push(false);
            k += 1;
        }

        let mut display_buffer: Vec<u8> = Vec::new();
        let mut p: usize = 0;
        while p < DISPLAY_HEIGHT * DISPLAY_WIDTH * 4
            invariant
                p <= 32 * 64 * 4,
                display_buffer@.len() == p,
            decreases 32 * 64 * 4 - p,
        {
            display_buffer.push(0);
            p += 1;
        }

        let mut io = Chip8IO { primary_color, secondary_color, keys_pressed, display_buffer };
        io.clear();
        io
    }

    /// Set the cell at (row, col) to the primary or the secondary color;
    /// every other cell keeps its color.
    pub fn write_pixel(&mut self, row: usize, col: usize, primary: bool)
        requires
            old(self).wf(),
            row < DISPLAY_HEIGHT,
            col < DISPLAY_WIDTH,
        ensures
            final(self).wf(),
            final(self)@.primary == old(self)@.primary,
            final(self)@.secondary == old(self)@.secondary,
            final(self)@.keys == old(self)@.keys,
            color_at(final(self)@.fb, row as int, col as int)
                == (if primary { old(self)@.primary } else { old(self)@.secondary }),
            forall|r: int, c: int|
                0 <= r < 32 && 0 <= c < 64 && !(r == row && c == col)
                    ==> color_at(final(self)@.fb, r, c) == color_at(old(self)@.fb, r, c),
    {
        let index = (row * DISPLAY_WIDTH + col) * 4;
        let color = if primary { self.primary_color } else { self.secondary_color };
        proof {
            lemma_color_unpack(color);
        }
        write_color_at(&mut self.display_buffer, index, color);
    }

    /// The packed color currently stored for the cell at (row, col).
    pub fn get_pixel_color(&self, row: usize, col: usize) -> (color: u32)
        requires
            self.wf(),
            row < DISPLAY_HEIGHT,
            col < DISPLAY_WIDTH,
        ensures
            color == color_at(self@.fb, row as int, col as int),
    {
        let index = (row * DISPLAY_WIDTH + col) * 4;
        construct_color_at(&self.display_buffer, index)
    }

    /// Every cell goes back to the secondary color.
    pub fn clear(&mut self)
        requires
            old(self).wf(),
        ensures
            final(self).wf(),
            final(self)@.primary == old(self)@.primary,
            final(self)@.secondary == old(self)@.secondary,
            final(self)@.keys == old(self)@.keys,
            forall|r: int, c: int| 0 <= r < 32 && 0 <= c < 64
                ==> color_at(final(self)@.fb, r, c) == old(self)@.secondary,
    {
        let mut row: usize = 0;
        while row < DISPLAY_HEIGHT
            invariant
                self.wf(),
                row <= 32,
                self@.primary == old(self)@.primary,
                self@.secondary == old(self)@.secondary,
                self@.keys == old(self)@.keys,
                forall|r: int, c: int| 0 <= r < row && 0 <= c < 64
                    ==> color_at(self@.fb, r, c) == old(self)@.secondary,
            decreases 32 - row,
        {
            let mut col: usize = 0;
            while col < DISPLAY_WIDTH
                invariant
                    self.wf(),
                    row < 32,
                    col <= 64,
                    self@.primary == old(self)@.primary,
                    self@.secondary == old(self)@.secondary,
                    self@.keys == old(self)@.keys,
                    forall|r: int, c: int| 0 <= r < row && 0 <= c < 64
                        ==> color_at(self@.fb, r, c) == old(self)@.secondary,
                    forall|c: int| 0 <= c < col
                        ==> color_at(self@.fb, row as int, c) == old(self)@.secondary,
                decreases 64 - col,
            {
                self.write_pixel(row, col, false);
                col += 1;
            }
            row += 1;
        }
    }

    /// Whether the logical key `key_num` is currently held.
    pub fn is_key_pressed(&self, key_num: u8) -> (held: bool)
        requires
            self.wf(),
            key_num < 16,
        ensures
            held == self@.keys[key_num as int],
    {
        self.keys_pressed[key_num as usize]
    }

    /// Record that the logical key `key_num` went down or up; the host
    /// calls this while polling its input source.
    pub fn set_key(&mut self, key_num: u8, held: bool)
        requires
            old(self).wf(),
            key_num < 16,
        ensures
            final(self).wf(),
            final(self)@.primary == old(self)@.primary,
            final(self)@.secondary == old(self)@.secondary,
            final(self)@.fb == old(self)@.fb,
            final(self)@.keys == old(self)@.keys.update(key_num as int, held),
    {
        self.keys_pressed.set(key_num as usize, held);
    }
}

} // verus!
