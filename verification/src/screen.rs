//! The pictures that both sides of a call show.
use crate::video::Quality;
use std::sync::Arc;
use vstd::prelude::*;

verus! {

/// A picture: three bytes for each point, row by row.
#[derive(Clone, Debug)]
pub struct Frame {
    pub width: u32,
    pub height: u32,
    pub rgb: Vec<u8>,
    pub created_us: u64,
    pub received_us: u64,
}

/// What both sides of a call show.
pub struct View {
    pub local: Option<Arc<Frame>>,
    pub remote: Option<Arc<Frame>>,
    pub enabled: bool,
    pub presented_id: u64,
    pub quality: u64,
}

impl View {
    /// Nothing to show, and the camera off.
    pub fn new() -> (r: Self)
        ensures
            r.local is None,
            r.remote is None,
            !r.enabled,
            r.presented_id == 0,
            r.quality == 0,
    {
        View { local: None, remote: None, enabled: false, presented_id: 0, quality: 0 }
    }

    /// Shows nothing any more.
    pub fn clear(&mut self)
        ensures
            *final(self) == (View { local: None, remote: None, ..*old(self) }),
    {
        self.local = None;
        self.remote = None;
    }

    /// Whether the encoder that runs for a preset must be stopped: the camera is off, or another
    /// preset is wanted.
    pub fn changed(&self, quality: Quality) -> (r: bool)
        ensures
            r == (!self.enabled || self.quality != quality.height()),
    {
        !(self.enabled && self.quality == quality.level())
    }
}

} // verus!
