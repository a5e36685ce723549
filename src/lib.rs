//! The memory-management core of a small firmware-booted kernel, with the
//! pure logic around it:
//!
//! - `allocator`: a first-fit heap whose block headers form one chain in
//!   insertion order; requests are carved from the tail of the first free
//!   block that can hold them, and freed blocks are never merged;
//! - `uefi`: the firmware memory map, decoded from the bytes the firmware
//!   writes;
//! - `serial`: what to write to a serial port's registers, and when;
//! - `graphics` and `font`: which pixels to set to draw lines, glyphs and
//!   text, and the glyphs read from a font text;
//! - `print`: hex dumps as text.
//!
//! Reading and writing the hardware is left to the caller.
pub mod allocator;
pub mod font;
pub mod graphics;
pub mod print;
pub mod serial;
pub mod uefi;
