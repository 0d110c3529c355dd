//! A local audio and video conferencing laboratory.
pub mod address;
pub mod audio;
pub mod call;
pub mod controls;
pub mod double;
pub mod ffmpeg;
pub mod journey;
pub mod link;
pub mod metrics;
pub mod packets;
pub mod queue;
pub mod reorder;
pub mod screen;
pub mod session;
pub mod shaper;
pub mod signaling;
pub mod speech;
pub mod text;
pub mod ui;
pub mod video;
pub mod vp8;
