//! The verified core of a terminal EPUB reader with read-aloud: text and
//! markup extraction, layout, read-aloud planning, voice decisions and the
//! reader's screen state.

pub mod text;
pub mod book;
pub mod layout;
pub mod speech;
pub mod html;
pub mod voice;
pub mod ui;
