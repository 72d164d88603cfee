//! Option parsing and resize dispatch for batch image resizing.
pub mod dispatch;
pub mod imaging;
pub mod laws;
pub mod number;
pub mod options;
pub mod run;
pub mod text;
