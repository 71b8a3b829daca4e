//! A verified CHIP-8 interpreter core: instruction decoding, per-opcode
//! execution semantics, the machine state model, and the display/keypad
//! state the core draws into. Windowing, audio and input polling live in
//! the host program around this library.

pub mod color;
pub mod cpu;
pub mod io;

pub use color::parse_hex_color;
pub use cpu::Chip8;
pub use cpu::Chip8Error;
pub use cpu::Opcode;
pub use io::Chip8IO;
