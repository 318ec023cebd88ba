//! Status-line text for CPU, memory and battery samples.
//!
//! Samples arrive as `Reading`s, single-precision values held by their bit
//! patterns, and leave as the characters of one line: a histogram of the
//! cores, the aggregate CPU percentage, the memory percentage and the
//! battery charge. Every function here is pure: sampling the machine and
//! writing the line belong to the caller.
//!
//! - `reading`: what a bit pattern means, truncation and rounding;
//! - `percent`: a fraction of the whole in percent;
//! - `numeral`: numbers as decimal text;
//! - `glyph`: the block glyphs of the histogram;
//! - `battery`: the battery segment;
//! - `policy`: what a failed sample does to the line;
//! - `line`: the line itself.

pub mod battery;
pub mod glyph;
pub mod line;
pub mod numeral;
pub mod percent;
pub mod policy;
pub mod reading;
