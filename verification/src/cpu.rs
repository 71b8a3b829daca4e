use crate::io::color_at;
use crate::io::Chip8IO;
use crate::io::IoState;
use vstd::prelude::*;

verus! {

pub const FONT_SIZE: usize = 80;

pub const NUM_REGISTERS: usize = 0x10;

pub const MEMORY_SIZE: usize = 0x1000;

pub const ROM_START_ADDR: usize = 0x200;

pub const FONT_START_ADDR: usize = 0x50;

/// Errors an execution step can surface; both are fatal to the run.
#[derive(Debug, Clone, Copy, PartialEq, Eq)]
pub enum Chip8Error {
    /// Dispatch reached an undefined sub-selector; carries the raw word.
    InvalidOpcode(u16),
    /// A return instruction executed with an empty call stack.
    StackUnderflow,
}

/// Leading nibble of an instruction word (bits 15..12).
pub open spec fn op_type_of(raw: u16) -> u8 {
    (raw / 0x1000) as u8
}

/// Second nibble (bits 11..8); selects a register.
pub open spec fn x_of(raw: u16) -> u8 {
    ((raw / 0x100) % 0x10) as u8
}

/// Third nibble (bits 7..4); selects a register.
pub open spec fn y_of(raw: u16) -> u8 {
    ((raw / 0x10) % 0x10) as u8
}

/// Lowest nibble (bits 3..0).
pub open spec fn n_of(raw: u16) -> u8 {
    (raw % 0x10) as u8
}

/// Low byte (bits 7..0).
pub open spec fn nn_of(raw: u16) -> u8 {
    (raw % 0x100) as u8
}

/// Lowest 12 bits (bits 11..0); an address.
pub open spec fn nnn_of(raw: u16) -> u16 {
    raw % 0x1000
}

/// One 16-bit instruction word decoded into its addressing fields.
#[derive(Debug, Clone, Copy)]
pub struct Opcode {
    pub raw: u16,
    pub op_type: u8,
    pub x: u8,
    pub y: u8,
    pub n: u8,
}

impl Opcode {
    /// The fields agree with the masks applied to the raw word.
    pub open spec fn wf(self) -> bool {
        &&& self.op_type == op_type_of(self.raw)
        &&& self.x == x_of(self.raw)
        &&& self.y == y_of(self.raw)
        &&& self.n == n_of(self.raw)
    }

    /// Decoding is total: every raw 16-bit word yields a well-formed
    /// instruction whose fields obey the fixed-width masks.
    pub fn new(raw: u16) -> (op: Opcode)
        ensures
            op.raw == raw,
            op.wf(),
            op.op_type <= 0xF,
            op.x <= 0xF,
            op.y <= 0xF,
            op.n <= 0xF,
    {
        proof {
            assert(((raw & 0xF000) >> 12) as u8 == (raw / 0x1000) as u8) by (bit_vector);
            assert(((raw & 0x0F00) >> 8) as u8 == ((raw / 0x100) % 0x10) as u8) by (bit_vector);
            assert(((raw & 0x00F0) >> 4) as u8 == ((raw / 0x10) % 0x10) as u8) by (bit_vector);
            assert((raw & 0x000F) as u8 == (raw % 0x10) as u8) by (bit_vector);
            assert(raw / 0x1000 <= 0xF) by (bit_vector);
        }
        Opcode {
            raw,
            op_type: ((raw & 0xF000) >> 12) as u8,
            x: ((raw & 0x0F00) >> 8) as u8,
            y: ((raw & 0x00F0) >> 4) as u8,
            n: (raw & 0x000F) as u8,
        }
    }

    /// The low byte of the word.
    pub fn get_nn(&self) -> (nn: u8)
        ensures
            nn == nn_of(self.raw),
    {
        proof {
            let raw = self.raw;
            assert((raw & 0x00FF) as u8 == (raw % 0x100) as u8) by (bit_vector);
        }
        (self.raw & 0x00FF) as u8
    }

    /// The low 12 bits of the word, an address operand.
    pub fn get_nnn(&self) -> (nnn: u16)
        ensures
            nnn == nnn_of(self.raw),
            nnn <= 0xFFF,
    {
        proof {
            let raw = self.raw;
            assert(raw & 0x0FFF == raw % 0x1000) by (bit_vector);
            assert(raw % 0x1000 <= 0xFFF) by (bit_vector);
        }
        self.raw & 0x0FFF
    }
}

/// Mathematical model of the machine state.
#[verifier::ext_equal]
pub ghost struct CpuState {
    pub pc: usize,
    pub i: usize,
    pub delay: u8,
    pub sound: u8,
    pub regs: Seq<u8>,
    pub stack: Seq<usize>,
    pub mem: Seq<u8>,
}

impl CpuState {
    /// Sizes match the fixed machine dimensions, the index register is
    /// masked to 12 bits, and the program counter and every saved return
    /// address stay within the reach of one instruction past memory.
    pub open spec fn wf(self) -> bool {
        &&& self.mem.len() == MEMORY_SIZE
        &&& self.regs.len() == NUM_REGISTERS
        &&& self.i <= 0xFFF
        &&& self.pc <= 0x1100
        &&& forall|k: int| 0 <= k < self.stack.len() ==> self.stack[k] <= 0x1100
    }
}

/// The raw instruction word at the program counter: two consecutive
/// bytes combined most-significant first.
pub open spec fn fetched(s: CpuState) -> u16 {
    ((s.mem[s.pc as int] as int) * 0x100 + (s.mem[s.pc + 1] as int)) as u16
}

/// The state after the pre-execution advance of the program counter.
pub open spec fn advanced(s: CpuState) -> CpuState {
    CpuState { pc: (s.pc + 2) as usize, ..s }
}

/// Skip the next instruction when `cond` holds.
pub open spec fn skip_if(s: CpuState, cond: bool) -> CpuState {
    if cond {
        CpuState { pc: (s.pc + 2) as usize, ..s }
    } else {
        s
    }
}

/// One register replaced, everything else untouched.
pub open spec fn with_reg(s: CpuState, x: int, v: u8) -> CpuState {
    CpuState { regs: s.regs.update(x, v), ..s }
}

/// Modular 8-bit sum.
pub open spec fn wrap_add(a: u8, b: u8) -> u8 {
    ((a + b) % 0x100) as u8
}

/// Modular 8-bit difference.
pub open spec fn wrap_sub(a: u8, b: u8) -> u8 {
    (((a - b) + 0x100) % 0x100) as u8
}

/// The display and keypad state is untouched.
pub open spec fn io_same(pio: IoState, qio: IoState) -> bool {
    qio == pio
}

/// Every cell of the display went back to the secondary color; colors
/// and keys are untouched.
pub open spec fn io_cleared(pio: IoState, qio: IoState) -> bool {
    &&& qio.primary == pio.primary
    &&& qio.secondary == pio.secondary
    &&& qio.keys == pio.keys
    &&& qio.fb.len() == pio.fb.len()
    &&& forall|r: int, c: int|
        0 <= r < 32 && 0 <= c < 64 ==> color_at(qio.fb, r, c) == pio.secondary
}

/// Family 0x0: clear the display, or return from a call.
pub open spec fn op0_rel(
    s: CpuState,
    pio: IoState,
    post: CpuState,
    qio: IoState,
    raw: u16,
    r: Result<(), Chip8Error>,
) -> bool {
    if nn_of(raw) == 0xE0 {
        &&& post == s
        &&& io_cleared(pio, qio)
        &&& r == Ok::<(), Chip8Error>(())
    } else if nn_of(raw) == 0xEE {
        if s.stack.len() == 0 {
            &&& post == s
            &&& io_same(pio, qio)
            &&& r == Err::<(), Chip8Error>(Chip8Error::StackUnderflow)
        } else {
            &&& post == (CpuState { pc: s.stack.last(), stack: s.stack.drop_last(), ..s })
            &&& io_same(pio, qio)
            &&& r == Ok::<(), Chip8Error>(())
        }
    } else {
        &&& post == s
        &&& io_same(pio, qio)
        &&& r == Err::<(), Chip8Error>(Chip8Error::InvalidOpcode(raw))
    }
}

/// Family 0x8: register-to-register moves, bitwise operations, modular
/// add/sub with the carry/borrow flag, and shifts. `None` marks an
/// undefined sub-selector.
pub open spec fn op8_next(s: CpuState, raw: u16) -> Option<CpuState> {
    let x = x_of(raw) as int;
    let y = y_of(raw) as int;
    let rx = s.regs[x];
    let ry = s.regs[y];
    match n_of(raw) {
        0x0 => Some(with_reg(s, x, ry)),
        0x1 => Some(with_reg(s, x, rx | ry)),
        0x2 => Some(with_reg(s, x, rx & ry)),
        0x3 => Some(with_reg(s, x, rx ^ ry)),
        0x4 => Some(
            (CpuState {
                regs: s.regs.update(x, wrap_add(rx, ry)).update(
                    0xF,
                    if rx + ry >= 0x100 { 1u8 } else { 0u8 },
                ),
                ..s
            }),
        ),
        0x5 => Some(
            (CpuState {
                regs: s.regs.update(x, wrap_sub(rx, ry)).update(
                    0xF,
                    if rx >= ry { 1u8 } else { 0u8 },
                ),
                ..s
            }),
        ),
        0x6 => Some(
            (CpuState { regs: s.regs.update(x, (rx / 2) as u8).update(0xF, (rx % 2) as u8), ..s }),
        ),
        0x7 => Some(
            (CpuState {
                regs: s.regs.update(x, wrap_sub(ry, rx)).update(
                    0xF,
                    if ry >= rx { 1u8 } else { 0u8 },
                ),
                ..s
            }),
        ),
        0xE => Some(
            (CpuState {
                regs: s.regs.update(x, ((rx * 2) % 0x100) as u8).update(0xF, (rx / 0x80) as u8),
                ..s
            }),
        ),
        _ => None,
    }
}

/// Family 0xC: the drawn byte is some random value masked with `nn`.
pub open spec fn opc_rel(s: CpuState, post: CpuState, raw: u16) -> bool {
    exists|b: u8| post == with_reg(s, x_of(raw) as int, b & nn_of(raw))
}

/// How many sprite rows a draw actually reads from memory: rows past
/// the bottom border are clipped before their byte is fetched.
pub open spec fn draw_rows(s: CpuState, raw: u16) -> int {
    let yc = (s.regs[y_of(raw) as int] as int) % 32;
    if n_of(raw) < 32 - yc {
        n_of(raw) as int
    } else {
        32 - yc
    }
}

/// Whether the sprite drawn by `raw` covers the cell (r, c) with a set
/// bit: the anchor wraps, each covered pixel is clipped at the borders,
/// and bit 7 of a sprite byte is its leftmost pixel.
pub open spec fn draw_lit(s: CpuState, raw: u16, r: int, c: int) -> bool {
    let xc = (s.regs[x_of(raw) as int] as int) % 64;
    let yc = (s.regs[y_of(raw) as int] as int) % 32;
    &&& yc <= r < yc + n_of(raw)
    &&& 0 <= r < 32
    &&& xc <= c < xc + 8
    &&& 0 <= c < 64
    &&& ((s.mem[s.i + (r - yc)] >> ((7 - (c - xc)) as u8)) & 1) == 1
}

/// Whether the sprite hits a cell that already shows the primary color.
pub open spec fn draw_collision(s: CpuState, pio: IoState, raw: u16) -> bool {
    exists|r: int, c: int|
        0 <= r < 32 && 0 <= c < 64 && draw_lit(s, raw, r, c) && color_at(pio.fb, r, c)
            == pio.primary
}

/// Family 0xD: every covered set bit toggles its cell between the
/// primary and the secondary color; VF reports whether any toggled cell
/// was primary before the draw.
pub open spec fn opd_rel(
    s: CpuState,
    pio: IoState,
    post: CpuState,
    qio: IoState,
    raw: u16,
) -> bool {
    &&& post == (CpuState {
        regs: s.regs.update(0xF, if draw_collision(s, pio, raw) { 1u8 } else { 0u8 }),
        ..s
    })
    &&& qio.primary == pio.primary
    &&& qio.secondary == pio.secondary
    &&& qio.keys == pio.keys
    &&& qio.fb.len() == pio.fb.len()
    &&& forall|r: int, c: int|
        0 <= r < 32 && 0 <= c < 64 ==> color_at(qio.fb, r, c) == (if draw_lit(s, raw, r, c) {
            if color_at(pio.fb, r, c) == pio.primary {
                pio.secondary
            } else {
                pio.primary
            }
        } else {
            color_at(pio.fb, r, c)
        })
}

/// A lit cell whose sprite position was already visited by the drawing
/// scan: its row is before `rows`, or it sits in row `rows` before
/// column `cols` of the sprite.
spec fn draw_lit_before(s: CpuState, raw: u16, r: int, c: int, rows: int, cols: int) -> bool {
    let xc = (s.regs[x_of(raw) as int] as int) % 64;
    let yc = (s.regs[y_of(raw) as int] as int) % 32;
    &&& draw_lit(s, raw, r, c)
    &&& (r - yc < rows || (r - yc == rows && c - xc < cols))
}

/// A collision among the cells already visited by the drawing scan.
spec fn draw_collision_before(
    s: CpuState,
    pio: IoState,
    raw: u16,
    rows: int,
    cols: int,
) -> bool {
    exists|r: int, c: int|
        0 <= r < 32 && 0 <= c < 64 && draw_lit_before(s, raw, r, c, rows, cols) && color_at(
            pio.fb,
            r,
            c,
        ) == pio.primary
}

/// Family 0xE: skip on the held state of the key named by Vx.
pub open spec fn ope_next(s: CpuState, keys: Seq<bool>, raw: u16) -> Option<CpuState> {
    let key = s.regs[x_of(raw) as int] as int;
    if n_of(raw) == 0x1 {
        Some(skip_if(s, !keys[key]))
    } else if n_of(raw) == 0xE {
        Some(skip_if(s, keys[key]))
    } else {
        None
    }
}

/// The smallest held key index at or above `k`, or 16 when none is held.
pub open spec fn lowest_held_from(keys: Seq<bool>, k: int) -> int
    decreases 16 - k,
{
    if k < 0 || k >= 16 {
        16
    } else if keys[k] {
        k
    } else {
        lowest_held_from(keys, k + 1)
    }
}

/// Memory with `regs[0..=x]` stored at addresses `i..=i+x`.
pub open spec fn mem_after_store(mem: Seq<u8>, regs: Seq<u8>, i: int, x: int) -> Seq<u8> {
    Seq::new(mem.len(), |a: int| if i <= a <= i + x { regs[a - i] } else { mem[a] })
}

/// Registers with `V0..=Vx` loaded from addresses `i..=i+x`.
pub open spec fn regs_after_load(mem: Seq<u8>, regs: Seq<u8>, i: int, x: int) -> Seq<u8> {
    Seq::new(regs.len(), |k: int| if 0 <= k <= x { mem[i + k] } else { regs[k] })
}

/// Family 0xF: timers, index arithmetic, key wait, font addressing,
/// decimal decomposition and the register file transfers. `None` marks
/// an undefined sub-selector.
pub open spec fn opf_next(s: CpuState, keys: Seq<bool>, raw: u16) -> Option<CpuState> {
    let x = x_of(raw) as int;
    let rx = s.regs[x];
    match nn_of(raw) {
        0x07 => Some(with_reg(s, x, s.delay)),
        0x15 => Some((CpuState { delay: rx, ..s })),
        0x18 => Some((CpuState { sound: rx, ..s })),
        0x1E => {
            if s.i + rx >= 0x1000 {
                Some(
                    (CpuState {
                        i: (s.i + rx - 0x1000) as usize,
                        regs: s.regs.update(0xF, 1u8),
                        ..s
                    }),
                )
            } else {
                Some((CpuState { i: (s.i + rx) as usize, ..s }))
            }
        },
        0x0A => {
            let k = lowest_held_from(keys, 0);
            if k < 16 {
                Some(with_reg(s, x, k as u8))
            } else {
                Some((CpuState { pc: (s.pc - 2) as usize, ..s }))
            }
        },
        0x29 => Some((CpuState { i: (FONT_START_ADDR + rx * 5) as usize, ..s })),
        0x33 => Some(
            (CpuState {
                mem: s.mem.update(s.i as int, (rx / 100) as u8).update(
                    s.i + 1,
                    ((rx / 10) % 10) as u8,
                ).update(s.i + 2, (rx % 10) as u8),
                ..s
            }),
        ),
        0x55 => Some((CpuState { mem: mem_after_store(s.mem, s.regs, s.i as int, x), ..s })),
        0x65 => Some((CpuState { regs: regs_after_load(s.mem, s.regs, s.i as int, x), ..s })),
        _ => None,
    }
}

/// The fetch and the fetched instruction stay inside the declared
/// machine bounds, so that one cycle cannot touch memory or a key slot
/// out of range; the loader and conforming programs maintain this.
pub open spec fn cycle_safe(s: CpuState) -> bool {
    &&& s.pc + 1 < MEMORY_SIZE
    &&& {
        let raw = fetched(s);
        let x = x_of(raw) as int;
        &&& (op_type_of(raw) == 0xD ==> s.i + draw_rows(s, raw) <= MEMORY_SIZE)
        &&& (op_type_of(raw) == 0xE && (n_of(raw) == 0x1 || n_of(raw) == 0xE) ==> s.regs[x] < 16)
        &&& (op_type_of(raw) == 0xF && nn_of(raw) == 0x33 ==> s.i + 2 < MEMORY_SIZE)
        &&& (op_type_of(raw) == 0xF && (nn_of(raw) == 0x55 || nn_of(raw) == 0x65) ==> s.i + x
            < MEMORY_SIZE)
    }
}

/// What one fetch-decode-execute cycle does: the program counter is
/// advanced past the fetched word, then the instruction's family
/// determines the step from the advanced state `s` to `post`.
pub open spec fn cycle_rel(
    pre: CpuState,
    pio: IoState,
    post: CpuState,
    qio: IoState,
    r: Result<(), Chip8Error>,
) -> bool {
    let raw = fetched(pre);
    let s = advanced(pre);
    let ok = Ok::<(), Chip8Error>(());
    let invalid = Err::<(), Chip8Error>(Chip8Error::InvalidOpcode(raw));
    match op_type_of(raw) {
        0x0 => op0_rel(s, pio, post, qio, raw, r),
        0x1 => post == (CpuState { pc: nnn_of(raw) as usize, ..s }) && io_same(pio, qio) && r
            == ok,
        0x2 => post == (CpuState {
            pc: nnn_of(raw) as usize,
            stack: s.stack.push(s.pc),
            ..s
        }) && io_same(pio, qio) && r == ok,
        0x3 => post == skip_if(s, s.regs[x_of(raw) as int] == nn_of(raw)) && io_same(pio, qio)
            && r == ok,
        0x4 => post == skip_if(s, s.regs[x_of(raw) as int] != nn_of(raw)) && io_same(pio, qio)
            && r == ok,
        0x5 => post == skip_if(s, s.regs[x_of(raw) as int] == s.regs[y_of(raw) as int])
            && io_same(pio, qio) && r == ok,
        0x6 => post == with_reg(s, x_of(raw) as int, nn_of(raw)) && io_same(pio, qio) && r == ok,
        0x7 => post == with_reg(
            s,
            x_of(raw) as int,
            wrap_add(s.regs[x_of(raw) as int], nn_of(raw)),
        ) && io_same(pio, qio) && r == ok,
        0x8 => (match op8_next(s, raw) {
            Some(t) => post == t && r == ok,
            None => post == s && r == invalid,
        }) && io_same(pio, qio),
        0x9 => post == skip_if(s, s.regs[x_of(raw) as int] != s.regs[y_of(raw) as int])
            && io_same(pio, qio) && r == ok,
        0xA => post == (CpuState { i: nnn_of(raw) as usize, ..s }) && io_same(pio, qio) && r
            == ok,
        0xB => post == (CpuState { pc: (nnn_of(raw) + s.regs[0]) as usize, ..s }) && io_same(
            pio,
            qio,
        ) && r == ok,
        0xC => opc_rel(s, post, raw) && io_same(pio, qio) && r == ok,
        0xD => opd_rel(s, pio, post, qio, raw) && r == ok,
        0xE => (match ope_next(s, pio.keys, raw) {
            Some(t) => post == t && r == ok,
            None => post == s && r == invalid,
        }) && io_same(pio, qio),
        0xF => (match opf_next(s, pio.keys, raw) {
            Some(t) => post == t && r == ok,
            None => post == s && r == invalid,
        }) && io_same(pio, qio),
        _ => false,
    }
}

/// The machine state: memory image, register file, program counter,
/// index register, call stack and the two timers. The display and the
/// keypad live in [`Chip8IO`], which the caller lends to `run_cycle`.
pub struct Chip8 {
    pub pc: usize,
    pub i: usize,
    pub delay_timer: u8,
    pub sound_timer: u8,
    pub registers: Vec<u8>,
    pub stack: Vec<usize>,
    pub memory: Vec<u8>,
}

impl View for Chip8 {
    type V = CpuState;

    open spec fn view(&self) -> CpuState {
        CpuState {
            pc: self.pc,
            i: self.i,
            delay: self.delay_timer,
            sound: self.sound_timer,
            regs: self.registers@,
            stack: self.stack@,
            mem: self.memory@,
        }
    }
}

/// Relies on rand::random: a uniformly distributed byte drawn from the
/// thread-local generator; nothing is assumed of the value.
#[verifier::external_body]
fn random_byte() -> u8 {
    rand::random()
}

impl Chip8 {
    pub open spec fn wf(self) -> bool {
        self@.wf()
    }

    /// A powered-on machine: zeroed memory and registers, an empty
    /// stack, and the program counter at the start of the program region.
    pub fn new() -> (cpu: Chip8)
        ensures
            cpu.wf(),
            cpu@.pc == ROM_START_ADDR,
            cpu@.i == 0,
            cpu@.delay == 0,
            cpu@.sound == 0,
            cpu@.stack.len() == 0,
            forall|k: int| 0 <= k < NUM_REGISTERS ==> cpu@.regs[k] == 0,
            forall|a: int| 0 <= a < MEMORY_SIZE ==> cpu@.mem[a] == 0,
    {
        let mut registers: Vec<u8> = Vec::new();
        let mut k: usize = 0;
        while k < NUM_REGISTERS
            invariant
                k <= NUM_REGISTERS,
                registers@.len() == k,
                forall|j: int| 0 <= j < k ==> registers@[j] == 0,
            decreases NUM_REGISTERS - k,
        {
            registers.push(0);
            k += 1;
        }
        let mut memory: Vec<u8> = Vec::new();
        let mut a: usize = 0;
        while a < MEMORY_SIZE
            invariant
                a <= MEMORY_SIZE,
                memory@.len() == a,
                forall|j: int| 0 <= j < a ==> memory@[j] == 0,
            decreases MEMORY_SIZE - a,
        {
            memory.push(0);
            a += 1;
        }
        Chip8 {
            pc: ROM_START_ADDR,
            i: 0,
            delay_timer: 0,
            sound_timer: 0,
            registers,
            stack: Vec::new(),
            memory,
        }
    }

    /// Copy a program image verbatim into memory starting at the
    /// program region; nothing below it is touched.
    pub fn load_rom(&mut self, rom: &[u8])
        requires
            old(self).wf(),
            rom@.len() <= MEMORY_SIZE - ROM_START_ADDR,
        ensures
            final(self).wf(),
            final(self)@ == (CpuState { mem: final(self)@.mem, ..old(self)@ }),
            final(self)@.mem.len() == old(self)@.mem.len(),
            forall|a: int|
                ROM_START_ADDR <= a < ROM_START_ADDR + rom@.len() ==> final(self)@.mem[a]
                    == rom@[a - ROM_START_ADDR],
            forall|a: int|
                0 <= a < MEMORY_SIZE && !(ROM_START_ADDR <= a < ROM_START_ADDR + rom@.len())
                    ==> final(self)@.mem[a] == old(self)@.mem[a],
    {
        let len = rom.len();
        let mut k: usize = 0;
        while k < len
            invariant
                old(self).wf(),
                self.wf(),
                len == rom@.len(),
                len <= MEMORY_SIZE - ROM_START_ADDR,
                k <= len,
                self@ == (CpuState { mem: self@.mem, ..old(self)@ }),
                self@.mem.len() == old(self)@.mem.len(),
                forall|a: int|
                    ROM_START_ADDR <= a < ROM_START_ADDR + k ==> self@.mem[a] == rom@[a
                        - ROM_START_ADDR],
                forall|a: int|
                    0 <= a < MEMORY_SIZE && !(ROM_START_ADDR <= a < ROM_START_ADDR + k)
                        ==> self@.mem[a] == old(self)@.mem[a],
            decreases len - k,
        {
            let b = rom[k];
            self.memory[ROM_START_ADDR + k] = b;
            k += 1;
        }
    }

    /// Copy a font table verbatim into the font region; nothing else is
    /// touched.
    pub fn load_font(&mut self, font_buffer: &[u8], font_size: usize)
        requires
            old(self).wf(),
            font_size == font_buffer@.len(),
            font_size <= MEMORY_SIZE - FONT_START_ADDR,
        ensures
            final(self).wf(),
            final(self)@ == (CpuState { mem: final(self)@.mem, ..old(self)@ }),
            final(self)@.mem.len() == old(self)@.mem.len(),
            forall|a: int|
                FONT_START_ADDR <= a < FONT_START_ADDR + font_size ==> final(self)@.mem[a]
                    == font_buffer@[a - FONT_START_ADDR],
            forall|a: int|
                0 <= a < MEMORY_SIZE && !(FONT_START_ADDR <= a < FONT_START_ADDR + font_size)
                    ==> final(self)@.mem[a] == old(self)@.mem[a],
    {
        let mut k: usize = 0;
        while k < font_size
            invariant
                old(self).wf(),
                self.wf(),
                font_size == font_buffer@.len(),
                font_size <= MEMORY_SIZE - FONT_START_ADDR,
                k <= font_size,
                self@ == (CpuState { mem: self@.mem, ..old(self)@ }),
                self@.mem.len() == old(self)@.mem.len(),
                forall|a: int|
                    FONT_START_ADDR <= a < FONT_START_ADDR + k ==> self@.mem[a] == font_buffer@[a
                        - FONT_START_ADDR],
                forall|a: int|
                    0 <= a < MEMORY_SIZE && !(FONT_START_ADDR <= a < FONT_START_ADDR + k)
                        ==> self@.mem[a] == old(self)@.mem[a],
            decreases font_size - k,
        {
            let b = font_buffer[k];
            self.memory[FONT_START_ADDR + k] = b;
            k += 1;
        }
    }

    /// Each timer decays by one per call, floored at zero; nothing else
    /// changes. The host calls this once per display frame.
    pub fn update_timers(&mut self)
        requires
            old(self).wf(),
        ensures
            final(self).wf(),
            final(self)@ == (CpuState {
                delay: if old(self)@.delay > 0 {
                    (old(self)@.delay - 1) as u8
                } else {
                    0
                },
                sound: if old(self)@.sound > 0 {
                    (old(self)@.sound - 1) as u8
                } else {
                    0
                },
                ..old(self)@
            }),
    {
        if self.delay_timer > 0 {
            self.delay_timer -= 1;
        }
        if self.sound_timer > 0 {
            self.sound_timer -= 1;
        }
    }

    fn set_vf(&mut self, value: u8)
        requires
            old(self)@.regs.len() == NUM_REGISTERS,
        ensures
            final(self)@ == with_reg(old(self)@, 0xF, value),
    {
        self.registers[0xF] = value;
        proof {
            assert(self@ =~= with_reg(old(self)@, 0xF, value));
        }
    }

    fn skip_pc(&mut self)
        requires
            old(self).wf(),
            old(self)@.pc + 2 <= 0x1100,
        ensures
            final(self).wf(),
            final(self)@ == (CpuState { pc: (old(self)@.pc + 2) as usize, ..old(self)@ }),
    {
        self.pc += 2;
    }

    fn skip_pc_back(&mut self)
        requires
            old(self).wf(),
            old(self)@.pc >= 2,
        ensures
            final(self).wf(),
            final(self)@ == (CpuState { pc: (old(self)@.pc - 2) as usize, ..old(self)@ }),
    {
        self.pc -= 2;
    }

    fn exec_op_type0(&mut self, io: &mut Chip8IO, opcode: &Opcode) -> (r: Result<(), Chip8Error>)
        requires
            old(self).wf(),
            old(io).wf(),
            opcode.wf(),
        ensures
            final(self).wf(),
            final(io).wf(),
            op0_rel(old(self)@, old(io)@, final(self)@, final(io)@, opcode.raw, r),
    {
        let nn = opcode.get_nn();
        if nn == 0xE0 {
            io.clear();
            Ok(())
        } else if nn == 0xEE {
            match self.stack.pop() {
                Some(saved) => {
                    self.pc = saved;
                    proof {
                        assert(self@ =~= (CpuState {
                            pc: old(self)@.stack.last(),
                            stack: old(self)@.stack.drop_last(),
                            ..old(self)@
                        }));
                    }
                    Ok(())
                },
                None => Err(Chip8Error::StackUnderflow),
            }
        } else {
            Err(Chip8Error::InvalidOpcode(opcode.raw))
        }
    }

    fn exec_op_type1(&mut self, opcode: &Opcode)
        requires
            old(self).wf(),
            opcode.wf(),
        ensures
            final(self).wf(),
            final(self)@ == (CpuState { pc: nnn_of(opcode.raw) as usize, ..old(self)@ }),
    {
        self.pc = opcode.get_nnn() as usize;
        proof {
            assert(self@ =~= (CpuState { pc: nnn_of(opcode.raw) as usize, ..old(self)@ }));
        }
    }

    fn exec_op_type2(&mut self, opcode: &Opcode)
        requires
            old(self).wf(),
            opcode.wf(),
        ensures
            final(self).wf(),
            final(self)@ == (CpuState {
                pc: nnn_of(opcode.raw) as usize,
                stack: old(self)@.stack.push(old(self)@.pc),
                ..old(self)@
            }),
    {
        self.stack.push(self.pc);
        self.pc = opcode.get_nnn() as usize;
        proof {
            assert(self@ =~= (CpuState {
                pc: nnn_of(opcode.raw) as usize,
                stack: old(self)@.stack.push(old(self)@.pc),
                ..old(self)@
            }));
        }
    }

    fn exec_op_type3(&mut self, opcode: &Opcode)
        requires
            old(self).wf(),
            opcode.wf(),
            old(self)@.pc + 2 <= 0x1100,
        ensures
            final(self).wf(),
            final(self)@ == skip_if(
                old(self)@,
                old(self)@.regs[x_of(opcode.raw) as int] == nn_of(opcode.raw),
            ),
    {
        if self.registers[opcode.x as usize] == opcode.get_nn() {
            self.skip_pc();
        }
    }

    fn exec_op_type4(&mut self, opcode: &Opcode)
        requires
            old(self).wf(),
            opcode.wf(),
            old(self)@.pc + 2 <= 0x1100,
        ensures
            final(self).wf(),
            final(self)@ == skip_if(
                old(self)@,
                old(self)@.regs[x_of(opcode.raw) as int] != nn_of(opcode.raw),
            ),
    {
        if self.registers[opcode.x as usize] != opcode.get_nn() {
            self.skip_pc();
        }
    }

    fn exec_op_type5(&mut self, opcode: &Opcode)
        requires
            old(self).wf(),
            opcode.wf(),
            old(self)@.pc + 2 <= 0x1100,
        ensures
            final(self).wf(),
            final(self)@ == skip_if(
                old(self)@,
                old(self)@.regs[x_of(opcode.raw) as int] == old(self)@.regs[y_of(
                    opcode.raw,
                ) as int],
            ),
    {
        if self.registers[opcode.x as usize] == self.registers[opcode.y as usize] {
            self.skip_pc();
        }
    }

    fn exec_op_type6(&mut self, opcode: &Opcode)
        requires
            old(self).wf(),
            opcode.wf(),
        ensures
            final(self).wf(),
            final(self)@ == with_reg(old(self)@, x_of(opcode.raw) as int, nn_of(opcode.raw)),
    {
        self.registers[opcode.x as usize] = opcode.get_nn();
        proof {
            assert(self@ =~= with_reg(old(self)@, x_of(opcode.raw) as int, nn_of(opcode.raw)));
        }
    }

    fn exec_op_type7(&mut self, opcode: &Opcode)
        requires
            old(self).wf(),
            opcode.wf(),
        ensures
            final(self).wf(),
            final(self)@ == with_reg(
                old(self)@,
                x_of(opcode.raw) as int,
                wrap_add(old(self)@.regs[x_of(opcode.raw) as int], nn_of(opcode.raw)),
            ),
    {
        let x = opcode.x as usize;
        let sum = self.registers[x].wrapping_add(opcode.get_nn());
        self.registers[x] = sum;
        proof {
            assert(self@ =~= with_reg(
                old(self)@,
                x_of(opcode.raw) as int,
                wrap_add(old(self)@.regs[x_of(opcode.raw) as int], nn_of(opcode.raw)),
            ));
        }
    }

    #[verifier::rlimit(50)]
    fn exec_op_type8(&mut self, opcode: &Opcode) -> (r: Result<(), Chip8Error>)
        requires
            old(self).wf(),
            opcode.wf(),
        ensures
            final(self).wf(),
            match op8_next(old(self)@, opcode.raw) {
                Some(t) => final(self)@ == t && r == Ok::<(), Chip8Error>(()),
                None => final(self)@ == old(self)@ && r == Err::<(), Chip8Error>(
                    Chip8Error::InvalidOpcode(opcode.raw),
                ),
            },
    {
        let x = opcode.x as usize;
        let y = opcode.y as usize;
        let rx = self.registers[x];
        let ry = self.registers[y];
        match opcode.n {
            0x0 => {
                self.registers[x] = ry;
                proof {
                    assert(self@ =~= with_reg(old(self)@, x as int, ry));
                }
                Ok(())
            },
            0x1 => {
                self.registers[x] = rx | ry;
                proof {
                    assert(self@ =~= with_reg(old(self)@, x as int, rx | ry));
                }
                Ok(())
            },
            0x2 => {
                self.registers[x] = rx & ry;
                proof {
                    assert(self@ =~= with_reg(old(self)@, x as int, rx & ry));
                }
                Ok(())
            },
            0x3 => {
                self.registers[x] = rx ^ ry;
                proof {
                    assert(self@ =~= with_reg(old(self)@, x as int, rx ^ ry));
                }
                Ok(())
            },
            0x4 => {
                let sum = rx.wrapping_add(ry);
                let vf_value: u8 = if sum < rx {
                    1
                } else {
                    0
                };
                self.registers[x] = sum;
                self.set_vf(vf_value);
                proof {
                    assert(self@ =~= (CpuState {
                        regs: old(self)@.regs.update(x as int, wrap_add(rx, ry)).update(
                            0xF,
                            if rx + ry >= 0x100 { 1u8 } else { 0u8 },
                        ),
                        ..old(self)@
                    }));
                }
                Ok(())
            },
            0x5 => {
                let vf_value: u8 = if rx >= ry {
                    1
                } else {
                    0
                };
                self.registers[x] = rx.wrapping_sub(ry);
                self.set_vf(vf_value);
                proof {
                    assert(self@ =~= (CpuState {
                        regs: old(self)@.regs.update(x as int, wrap_sub(rx, ry)).update(
                            0xF,
                            if rx >= ry { 1u8 } else { 0u8 },
                        ),
                        ..old(self)@
                    }));
                }
                Ok(())
            },
            0x6 => {
                let vf_value = rx & 0x01;
                self.registers[x] = rx >> 1;
                self.set_vf(vf_value);
                proof {
                    assert(rx & 0x01 == rx % 2) by (bit_vector);
                    assert(rx >> 1 == rx / 2) by (bit_vector);
                    assert(self@ =~= (CpuState {
                        regs: old(self)@.regs.update(x as int, (rx / 2) as u8).update(
                            0xF,
                            (rx % 2) as u8,
                        ),
                        ..old(self)@
                    }));
                }
                Ok(())
            },
            0x7 => {
                let vf_value: u8 = if ry >= rx {
                    1
                } else {
                    0
                };
                self.registers[x] = ry.wrapping_sub(rx);
                self.set_vf(vf_value);
                proof {
                    assert(self@ =~= (CpuState {
                        regs: old(self)@.regs.update(x as int, wrap_sub(ry, rx)).update(
                            0xF,
                            if ry >= rx { 1u8 } else { 0u8 },
                        ),
                        ..old(self)@
                    }));
                }
                Ok(())
            },
            0xE => {
                let vf_value = (rx & 0x80) >> 7;
                self.registers[x] = rx << 1;
                self.set_vf(vf_value);
                proof {
                    assert((rx & 0x80) >> 7 == rx / 0x80) by (bit_vector);
                    assert(rx << 1 == ((rx * 2) % 0x100) as u8) by (bit_vector);
                    assert(self@ =~= (CpuState {
                        regs: old(self)@.regs.update(x as int, ((rx * 2) % 0x100) as u8).update(
                            0xF,
                            (rx / 0x80) as u8,
                        ),
                        ..old(self)@
                    }));
                }
                Ok(())
            },
            _ => Err(Chip8Error::InvalidOpcode(opcode.raw)),
        }
    }

    fn exec_op_type9(&mut self, opcode: &Opcode)
        requires
            old(self).wf(),
            opcode.wf(),
            old(self)@.pc + 2 <= 0x1100,
        ensures
            final(self).wf(),
            final(self)@ == skip_if(
                old(self)@,
                old(self)@.regs[x_of(opcode.raw) as int] != old(self)@.regs[y_of(
                    opcode.raw,
                ) as int],
            ),
    {
        if self.registers[opcode.x as usize] != self.registers[opcode.y as usize] {
            self.skip_pc();
        }
    }

    fn exec_op_type10(&mut self, opcode: &Opcode)
        requires
            old(self).wf(),
            opcode.wf(),
        ensures
            final(self).wf(),
            final(self)@ == (CpuState { i: nnn_of(opcode.raw) as usize, ..old(self)@ }),
    {
        self.i = opcode.get_nnn() as usize;
        proof {
            assert(self@ =~= (CpuState { i: nnn_of(opcode.raw) as usize, ..old(self)@ }));
        }
    }

    fn exec_op_type11(&mut self, opcode: &Opcode)
        requires
            old(self).wf(),
            opcode.wf(),
        ensures
            final(self).wf(),
            final(self)@ == (CpuState {
                pc: (nnn_of(opcode.raw) + old(self)@.regs[0]) as usize,
                ..old(self)@
            }),
    {
        self.pc = (opcode.get_nnn() + self.registers[0] as u16) as usize;
        proof {
            assert(self@ =~= (CpuState {
                pc: (nnn_of(opcode.raw) + old(self)@.regs[0]) as usize,
                ..old(self)@
            }));
        }
    }

    fn exec_op_type12(&mut self, opcode: &Opcode)
        requires
            old(self).wf(),
            opcode.wf(),
        ensures
            final(self).wf(),
            opc_rel(old(self)@, final(self)@, opcode.raw),
    {
        let b = random_byte();
        self.registers[opcode.x as usize] = b & opcode.get_nn();
        proof {
            assert(self@ =~= with_reg(
                old(self)@,
                x_of(opcode.raw) as int,
                b & nn_of(opcode.raw),
            ));
        }
    }

    #[verifier::rlimit(100)]
    fn exec_op_type13(&mut self, io: &mut Chip8IO, opcode: &Opcode)
        requires
            old(self).wf(),
            old(io).wf(),
            opcode.wf(),
            old(self)@.i + draw_rows(old(self)@, opcode.raw) <= MEMORY_SIZE,
        ensures
            final(self).wf(),
            final(io).wf(),
            opd_rel(old(self)@, old(io)@, final(self)@, final(io)@, opcode.raw),
    {
        let ghost s = old(self)@;
        let ghost pio = old(io)@;
        let ghost raw = opcode.raw;
        let x_coord = self.registers[opcode.x as usize] % 64;
        let y_coord = self.registers[opcode.y as usize] % 32;
        self.set_vf(0);

        let mut row: u8 = 0;
        while row < opcode.n
            invariant
                self.wf(),
                io.wf(),
                opcode.wf(),
                raw == opcode.raw,
                s.wf(),
                s.i + draw_rows(s, raw) <= MEMORY_SIZE,
                x_coord == s.regs[x_of(raw) as int] % 64,
                y_coord == s.regs[y_of(raw) as int] % 32,
                row <= n_of(raw),
                self@ == (CpuState {
                    regs: s.regs.update(
                        0xF,
                        if draw_collision_before(s, pio, raw, row as int, 0) {
                            1u8
                        } else {
                            0u8
                        },
                    ),
                    ..s
                }),
                io@.primary == pio.primary,
                io@.secondary == pio.secondary,
                io@.keys == pio.keys,
                io@.fb.len() == pio.fb.len(),
                forall|r: int, c: int|
                    0 <= r < 32 && 0 <= c < 64 ==> color_at(io@.fb, r, c) == (if draw_lit_before(
                        s,
                        raw,
                        r,
                        c,
                        row as int,
                        0,
                    ) {
                        if color_at(pio.fb, r, c) == pio.primary {
                            pio.secondary
                        } else {
                            pio.primary
                        }
                    } else {
                        color_at(pio.fb, r, c)
                    }),
            decreases n_of(raw) - row,
        {
            let new_y = y_coord + row;
            if new_y < 32 {
                let sprite_byte = self.memory[self.i + row as usize];
                let mut col: u8 = 0;
                while col < 8
                    invariant
                        self.wf(),
                        io.wf(),
                        opcode.wf(),
                        raw == opcode.raw,
                        s.wf(),
                        s.i + draw_rows(s, raw) <= MEMORY_SIZE,
                        x_coord == s.regs[x_of(raw) as int] % 64,
                        y_coord == s.regs[y_of(raw) as int] % 32,
                        row < n_of(raw),
                        new_y == y_coord + row,
                        new_y < 32,
                        sprite_byte == s.mem[s.i + row as int],
                        col <= 8,
                        self@ == (CpuState {
                            regs: s.regs.update(
                                0xF,
                                if draw_collision_before(s, pio, raw, row as int, col as int) {
                                    1u8
                                } else {
                                    0u8
                                },
                            ),
                            ..s
                        }),
                        io@.primary == pio.primary,
                        io@.secondary == pio.secondary,
                        io@.keys == pio.keys,
                        io@.fb.len() == pio.fb.len(),
                        forall|r: int, c: int|
                            0 <= r < 32 && 0 <= c < 64 ==> color_at(io@.fb, r, c) == (
                            if draw_lit_before(s, raw, r, c, row as int, col as int) {
                                if color_at(pio.fb, r, c) == pio.primary {
                                    pio.secondary
                                } else {
                                    pio.primary
                                }
                            } else {
                                color_at(pio.fb, r, c)
                            }),
                    decreases 8 - col,
                {
                    let new_x = x_coord + col;
                    if new_x < 64 {
                        let shift: u8 = 7 - col;
                        let mask: u8 = 1u8 << shift;
                        let sprite_color = (sprite_byte & mask) >> shift;
                        proof {
                            assert((sprite_byte & (1u8 << shift)) >> shift == (sprite_byte
                                >> shift) & 1 && ((sprite_byte >> shift) & 1) < 2) by (bit_vector);
                        }
                        if sprite_color == 1 {
                            assert(draw_lit(s, raw, new_y as int, new_x as int));
                            let prev = io.get_pixel_color(new_y as usize, new_x as usize);
                            if prev == io.primary_color {
                                self.set_vf(1);
                                io.write_pixel(new_y as usize, new_x as usize, false);
                                proof {
                                    assert(draw_collision_before(
                                        s,
                                        pio,
                                        raw,
                                        row as int,
                                        col + 1,
                                    )) by {
                                        assert(draw_lit_before(
                                            s,
                                            raw,
                                            new_y as int,
                                            new_x as int,
                                            row as int,
                                            col + 1,
                                        ) && color_at(pio.fb, new_y as int, new_x as int)
                                            == pio.primary);
                                    }
                                    assert(self@ =~= (CpuState {
                                        regs: s.regs.update(0xF, 1u8),
                                        ..s
                                    }));
                                }
                            } else {
                                io.write_pixel(new_y as usize, new_x as usize, true);
                            }
                        } else {
                            proof {
                                assert(!draw_lit(s, raw, new_y as int, new_x as int));
                            }
                        }
                    }
                    col += 1;
                }
            }
            row += 1;
        }

        proof {
            let n = n_of(raw) as int;
            assert(forall|r: int, c: int|
                0 <= r < 32 && 0 <= c < 64 ==> (draw_lit_before(s, raw, r, c, n, 0)
                    <==> draw_lit(s, raw, r, c)));
            if draw_collision(s, pio, raw) {
                let (r, c) = choose|r: int, c: int|
                    0 <= r < 32 && 0 <= c < 64 && draw_lit(s, raw, r, c) && color_at(pio.fb, r, c)
                        == pio.primary;
                assert(draw_lit_before(s, raw, r, c, n, 0) && color_at(pio.fb, r, c)
                    == pio.primary);
            }
            if draw_collision_before(s, pio, raw, n, 0) {
                let (r, c) = choose|r: int, c: int|
                    0 <= r < 32 && 0 <= c < 64 && draw_lit_before(s, raw, r, c, n, 0) && color_at(
                        pio.fb,
                        r,
                        c,
                    ) == pio.primary;
                assert(draw_lit(s, raw, r, c) && color_at(pio.fb, r, c) == pio.primary);
            }
            assert(self@ =~= (CpuState {
                regs: s.regs.update(
                    0xF,
                    if draw_collision(s, pio, raw) {
                        1u8
                    } else {
                        0u8
                    },
                ),
                ..s
            }));
        }
    }

    fn exec_op_type14(&mut self, io: &Chip8IO, opcode: &Opcode) -> (r: Result<(), Chip8Error>)
        requires
            old(self).wf(),
            io.wf(),
            opcode.wf(),
            old(self)@.pc + 2 <= 0x1100,
            n_of(opcode.raw) == 0x1 || n_of(opcode.raw) == 0xE ==> old(self)@.regs[x_of(
                opcode.raw,
            ) as int] < 16,
        ensures
            final(self).wf(),
            match ope_next(old(self)@, io@.keys, opcode.raw) {
                Some(t) => final(self)@ == t && r == Ok::<(), Chip8Error>(()),
                None => final(self)@ == old(self)@ && r == Err::<(), Chip8Error>(
                    Chip8Error::InvalidOpcode(opcode.raw),
                ),
            },
    {
        match opcode.n {
            0x1 => {
                if !io.is_key_pressed(self.registers[opcode.x as usize]) {
                    self.skip_pc();
                }
                Ok(())
            },
            0xE => {
                if io.is_key_pressed(self.registers[opcode.x as usize]) {
                    self.skip_pc();
                }
                Ok(())
            },
            _ => Err(Chip8Error::InvalidOpcode(opcode.raw)),
        }
    }

    #[verifier::rlimit(50)]
    fn exec_op_type15(&mut self, io: &Chip8IO, opcode: &Opcode) -> (r: Result<(), Chip8Error>)
        requires
            old(self).wf(),
            io.wf(),
            opcode.wf(),
            old(self)@.pc >= 2,
            nn_of(opcode.raw) == 0x33 ==> old(self)@.i + 2 < MEMORY_SIZE,
            nn_of(opcode.raw) == 0x55 || nn_of(opcode.raw) == 0x65 ==> old(self)@.i + x_of(
                opcode.raw,
            ) < MEMORY_SIZE,
        ensures
            final(self).wf(),
            match opf_next(old(self)@, io@.keys, opcode.raw) {
                Some(t) => final(self)@ == t && r == Ok::<(), Chip8Error>(()),
                None => final(self)@ == old(self)@ && r == Err::<(), Chip8Error>(
                    Chip8Error::InvalidOpcode(opcode.raw),
                ),
            },
    {
        let x = opcode.x as usize;
        match opcode.get_nn() {
            0x7 => {
                self.registers[x] = self.delay_timer;
                proof {
                    assert(self@ =~= with_reg(old(self)@, x as int, old(self)@.delay));
                }
                Ok(())
            },
            0x15 => {
                self.delay_timer = self.registers[x];
                proof {
                    assert(self@ =~= (CpuState {
                        delay: old(self)@.regs[x as int],
                        ..old(self)@
                    }));
                }
                Ok(())
            },
            0x18 => {
                self.sound_timer = self.registers[x];
                proof {
                    assert(self@ =~= (CpuState {
                        sound: old(self)@.regs[x as int],
                        ..old(self)@
                    }));
                }
                Ok(())
            },
            0x1E => {
                self.i += self.registers[x] as usize;
                if self.i >= 0x1000 {
                    self.set_vf(1);
                }
                let iv = self.i;
                proof {
                    assert(iv & 0xFFF == (if iv >= 0x1000 { iv - 0x1000 } else { iv as int }))
                        by (bit_vector)
                        requires iv < 0x1100;
                }
                self.i &= 0xFFF;
                proof {
                    if old(self)@.i + old(self)@.regs[x as int] >= 0x1000 {
                        assert(self@ =~= (CpuState {
                            i: (old(self)@.i + old(self)@.regs[x as int] - 0x1000) as usize,
                            regs: old(self)@.regs.update(0xF, 1u8),
                            ..old(self)@
                        }));
                    } else {
                        assert(self@ =~= (CpuState {
                            i: (old(self)@.i + old(self)@.regs[x as int]) as usize,
                            ..old(self)@
                        }));
                    }
                }
                Ok(())
            },
            0xA => {
                let mut key_pressed = false;
                let mut k: u8 = 0;
                while k < 16
                    invariant
                        self.wf(),
                        io.wf(),
                        opcode.wf(),
                        x == x_of(opcode.raw) as usize,
                        x < 16,
                        k <= 16,
                        !key_pressed ==> (forall|j: int| 0 <= j < k ==> !io@.keys[j]) && self@
                            == old(self)@,
                        key_pressed ==> lowest_held_from(io@.keys, 0) < 16 && self@ == with_reg(
                            old(self)@,
                            x as int,
                            lowest_held_from(io@.keys, 0) as u8,
                        ),
                    decreases 16 - k,
                {
                    if !key_pressed && io.is_key_pressed(k) {
                        proof {
                            lemma_lowest_held_prefix(io@.keys, k as int);
                        }
                        self.registers[x] = k;
                        key_pressed = true;
                        proof {
                            assert(self@ =~= with_reg(old(self)@, x as int, k));
                        }
                    }
                    k += 1;
                }
                if !key_pressed {
                    proof {
                        lemma_lowest_held_prefix(io@.keys, 16);
                    }
                    self.skip_pc_back();
                    proof {
                        assert(self@ =~= (CpuState {
                            pc: (old(self)@.pc - 2) as usize,
                            ..old(self)@
                        }));
                    }
                }
                Ok(())
            },
            0x29 => {
                self.i = FONT_START_ADDR + (self.registers[x] as usize) * 5;
                proof {
                    assert(self@ =~= (CpuState {
                        i: (FONT_START_ADDR + old(self)@.regs[x as int] * 5) as usize,
                        ..old(self)@
                    }));
                }
                Ok(())
            },
            0x33 => {
                let value = self.registers[x];
                self.memory[self.i] = value / 100;
                self.memory[self.i + 1] = (value / 10) % 10;
                self.memory[self.i + 2] = value % 10;
                proof {
                    assert(self@ =~= (CpuState {
                        mem: old(self)@.mem.update(
                            old(self)@.i as int,
                            (old(self)@.regs[x as int] / 100) as u8,
                        ).update(
                            old(self)@.i + 1,
                            ((old(self)@.regs[x as int] / 10) % 10) as u8,
                        ).update(old(self)@.i + 2, (old(self)@.regs[x as int] % 10) as u8),
                        ..old(self)@
                    }));
                }
                Ok(())
            },
            0x55 => {
                let mut idx: usize = 0;
                while idx < x + 1
                    invariant
                        old(self).wf(),
                        self.wf(),
                        x < 16,
                        idx <= x + 1,
                        old(self)@.i + x < MEMORY_SIZE,
                        self@ == (CpuState { mem: self@.mem, ..old(self)@ }),
                        self@.mem.len() == MEMORY_SIZE,
                        forall|a: int|
                            0 <= a < MEMORY_SIZE ==> self@.mem[a] == (if old(self)@.i <= a
                                < old(self)@.i + idx {
                                old(self)@.regs[a - old(self)@.i]
                            } else {
                                old(self)@.mem[a]
                            }),
                    decreases x + 1 - idx,
                {
                    self.memory[self.i + idx] = self.registers[idx];
                    idx += 1;
                }
                proof {
                    assert(self@.mem =~= mem_after_store(
                        old(self)@.mem,
                        old(self)@.regs,
                        old(self)@.i as int,
                        x as int,
                    ));
                    assert(self@ =~= (CpuState {
                        mem: mem_after_store(
                            old(self)@.mem,
                            old(self)@.regs,
                            old(self)@.i as int,
                            x as int,
                        ),
                        ..old(self)@
                    }));
                }
                Ok(())
            },
            0x65 => {
                let mut idx: usize = 0;
                while idx < x + 1
                    invariant
                        old(self).wf(),
                        self.wf(),
                        x < 16,
                        idx <= x + 1,
                        old(self)@.i + x < MEMORY_SIZE,
                        self@ == (CpuState { regs: self@.regs, ..old(self)@ }),
                        self@.regs.len() == NUM_REGISTERS,
                        forall|j: int|
                            0 <= j < NUM_REGISTERS ==> self@.regs[j] == (if 0 <= j < idx {
                                old(self)@.mem[old(self)@.i + j]
                            } else {
                                old(self)@.regs[j]
                            }),
                    decreases x + 1 - idx,
                {
                    self.registers[idx] = self.memory[self.i + idx];
                    idx += 1;
                }
                proof {
                    assert(self@.regs =~= regs_after_load(
                        old(self)@.mem,
                        old(self)@.regs,
                        old(self)@.i as int,
                        x as int,
                    ));
                    assert(self@ =~= (CpuState {
                        regs: regs_after_load(
                            old(self)@.mem,
                            old(self)@.regs,
                            old(self)@.i as int,
                            x as int,
                        ),
                        ..old(self)@
                    }));
                }
                Ok(())
            },
            _ => Err(Chip8Error::InvalidOpcode(opcode.raw)),
        }
    }

    /// One fetch-decode-execute step: fetch the word at PC, advance PC
    /// past it, then dispatch on the leading nibble. The display and
    /// keypad state is borrowed for the duration of the cycle.
    pub fn run_cycle(&mut self, io: &mut Chip8IO) -> (r: Result<(), Chip8Error>)
        requires
            old(self).wf(),
            old(io).wf(),
            cycle_safe(old(self)@),
        ensures
            final(self).wf(),
            final(io).wf(),
            cycle_rel(old(self)@, old(io)@, final(self)@, final(io)@, r),
    {
        let hi = self.memory[self.pc];
        let lo = self.memory[self.pc + 1];
        let raw = ((hi as u16) << 8) | (lo as u16);
        proof {
            assert(((hi as u16) << 8) | (lo as u16) == (hi as u16) * 0x100 + (lo as u16))
                by (bit_vector);
            assert(raw == fetched(old(self)@));
        }
        let opcode = Opcode::new(raw);
        self.skip_pc();
        proof {
            assert(self@ =~= advanced(old(self)@));
        }
        match opcode.op_type {
            0x0 => self.exec_op_type0(io, &opcode),
            0x1 => {
                self.exec_op_type1(&opcode);
                Ok(())
            },
            0x2 => {
                self.exec_op_type2(&opcode);
                Ok(())
            },
            0x3 => {
                self.exec_op_type3(&opcode);
                Ok(())
            },
            0x4 => {
                self.exec_op_type4(&opcode);
                Ok(())
            },
            0x5 => {
                self.exec_op_type5(&opcode);
                Ok(())
            },
            0x6 => {
                self.exec_op_type6(&opcode);
                Ok(())
            },
            0x7 => {
                self.exec_op_type7(&opcode);
                Ok(())
            },
            0x8 => self.exec_op_type8(&opcode),
            0x9 => {
                self.exec_op_type9(&opcode);
                Ok(())
            },
            0xA => {
                self.exec_op_type10(&opcode);
                Ok(())
            },
            0xB => {
                self.exec_op_type11(&opcode);
                Ok(())
            },
            0xC => {
                self.exec_op_type12(&opcode);
                Ok(())
            },
            0xD => {
                self.exec_op_type13(io, &opcode);
                Ok(())
            },
            0xE => self.exec_op_type14(io, &opcode),
            0xF => self.exec_op_type15(io, &opcode),
            _ => Err(Chip8Error::InvalidOpcode(opcode.raw)),
        }
    }
}

/// Storing V0..=Vx at addresses I..=I+x and then loading V0..=Vx from
/// the same unchanged addresses gives back the original register file.
pub proof fn lemma_store_load_round_trip(mem: Seq<u8>, regs: Seq<u8>, i: int, x: int)
    requires
        regs.len() == NUM_REGISTERS,
        0 <= x < NUM_REGISTERS,
        0 <= i,
        i + x < mem.len(),
    ensures
        regs_after_load(mem_after_store(mem, regs, i, x), regs, i, x) == regs,
{
    assert(regs_after_load(mem_after_store(mem, regs, i, x), regs, i, x) =~= regs);
}

/// The register-file round trip at the instruction level: a store
/// (nn = 0x55) followed by a load (nn = 0x65) with the same operand x
/// and an unchanged index register restores every register.
pub proof fn lemma_store_then_load_restores(
    s: CpuState,
    keys: Seq<bool>,
    raw_store: u16,
    raw_load: u16,
)
    requires
        s.wf(),
        op_type_of(raw_store) == 0xF,
        nn_of(raw_store) == 0x55,
        op_type_of(raw_load) == 0xF,
        nn_of(raw_load) == 0x65,
        x_of(raw_load) == x_of(raw_store),
        s.i + x_of(raw_store) < MEMORY_SIZE,
    ensures
        opf_next(s, keys, raw_store) is Some,
        opf_next(opf_next(s, keys, raw_store)->Some_0, keys, raw_load) is Some,
        opf_next(opf_next(s, keys, raw_store)->Some_0, keys, raw_load)->Some_0.regs == s.regs,
{
    let x = x_of(raw_store) as int;
    let stored = opf_next(s, keys, raw_store)->Some_0;
    assert(stored.regs == s.regs && stored.i == s.i && stored.mem == mem_after_store(
        s.mem,
        s.regs,
        s.i as int,
        x,
    ));
    lemma_store_load_round_trip(s.mem, s.regs, s.i as int, x);
}

/// Scanning past an all-released prefix does not change which key the
/// ascending scan finds first.
proof fn lemma_lowest_held_prefix(keys: Seq<bool>, k: int)
    requires
        0 <= k <= 16,
        forall|j: int| 0 <= j < k ==> !keys[j],
    ensures
        lowest_held_from(keys, 0) == lowest_held_from(keys, k),
    decreases k,
{
    if k > 0 {
        lemma_lowest_held_prefix(keys, k - 1);
    }
}

} // verus!
