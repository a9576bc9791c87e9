//! The image processor of a wallpaper daemon.
//!
//! A request names outputs and something to show on them. The processor finds out
//! which outputs are meant, groups those that need the same frames, brings images to
//! the size of the outputs, and computes the frames of transitions, animations and
//! streams. Everything here is free of input and output: channels, threads, files and
//! child processes belong to the program around it.
pub mod animation;
pub mod codec;
mod copies;
pub mod dispatch;
pub mod groups;
pub mod outputs;
pub mod processor;
pub mod resize;
pub mod stream;
pub mod transition;
