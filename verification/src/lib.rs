//! Finds hex-encoded images in the text that psql hands to its pager and rewrites
//! them into the escape sequences of a terminal graphics protocol.
//!
//! * [`scan`] finds the `\x...` tokens of a line that hold an image.
//! * [`table`] splits the text into lines and tells how psql laid them out.
//! * [`render`] rewrites one line, and [`layout`] a whole table.
//! * [`encode`] turns one image into the bytes that a terminal shows as an image, by way of
//!   [`kitty`] or [`sixel`] where the terminal speaks one of these.
//! * [`reader`] states what a terminal makes of sixel graphics, and [`terminal`] what it reads of
//!   the other protocols.
//! * [`raster`] and [`gif`] decode images, [`scale`] finds the size at which they are shown,
//!   [`payload`] makes them text, and [`image_id`] numbers them.
//! * [`pager`] decides where the output goes and how the keys move through it.
//!
//! Every contract holds as long as memory lasts: a failed allocation ends the
//! program, here as in any other Rust program, and no contract speaks of it.

pub mod bytes;
pub mod scan;
pub mod config;
pub mod scale;
pub mod raster;
pub mod gif;
pub mod sixel;
pub mod reader;
pub mod image_id;
pub mod payload;
pub mod kitty;
pub mod term;
pub mod terminal;
pub mod encode;
pub mod table;
pub mod render;
pub mod layout;
pub mod pager;
