//! Everything that concerns what is shown: the scroll window, the rendered
//! lines and the commands that repaint them.

pub mod display;
pub mod event;
pub mod highlighter;
pub mod printer;
pub mod rendered_line;
