//! Display and control logic for a small heater controller: pixel geometry,
//! an off-screen pixel canvas, a bounded drawing surface with a 5x5 bitmap
//! font, direct canvas drawing with a smaller font, the heater screens, a
//! fixed-size ring buffer for averaging samples, and the controller's state
//! machine.

pub mod geometry;
pub mod canvas;
pub mod paint;
pub mod font;
pub mod ui;
pub mod panel;
pub mod screen;
pub mod ring_buffer;
pub mod control;

pub use geometry::{Vec2, Bounds};
pub use canvas::Canvas;
pub use font::{Font, blit_char};
pub use ui::Ui;
pub use ring_buffer::RingBuffer;
pub use control::State;
