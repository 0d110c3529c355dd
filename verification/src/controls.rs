//! What a window shows of a call.
use crate::metrics::Summary;
use crate::screen;
use crate::video::{Quality, VideoSource};
use vstd::prelude::*;

verus! {

/// What is shown of a call.
pub struct CallView {
    pub state: String,
    pub summary: Option<Summary>,
    pub video: screen::View,
    pub ended: bool,
}

impl CallView {
    /// A call that has not begun.
    pub fn new() -> (r: Self)
        ensures
            r.state@ == ""@,
            r.summary is None,
            !r.ended,
            r.video.local is None,
            r.video.remote is None,
            !r.video.enabled,
            r.video.presented_id == 0,
            r.video.quality == 0,
    {
        CallView {
            state: String::from_str(""),
            summary: None,
            video: screen::View::new(),
            ended: false,
        }
    }

    /// Shows the state of the call.
    pub fn state(&mut self, text: &str)
        ensures
            final(self).state@ == text@,
            *final(self) == (CallView { state: final(self).state, ..*old(self) }),
    {
        self.state = String::from_str(text);
    }

    /// The call opens its devices, with pictures to send or without.
    pub fn open(&mut self, source: VideoSource)
        ensures
            final(self).state@ == "Opening devices"@,
            *final(self) == (CallView {
                state: final(self).state,
                video: screen::View { enabled: source != VideoSource::Off, ..old(self).video },
                ..*old(self)
            }),
    {
        self.state("Opening devices");
        self.video.enabled = source != VideoSource::Off;
    }

    /// The call will send pictures of a preset.
    pub fn choose_quality(&mut self, quality: Quality)
        ensures
            *final(self) == (CallView {
                video: screen::View { quality: quality.height(), ..old(self).video },
                ..*old(self)
            }),
    {
        self.video.quality = quality.level();
    }

    /// The call is over.
    pub fn finish(&mut self, summary: Summary, outcome: &str)
        ensures
            final(self).state@ == outcome@,
            *final(self) == (CallView {
                state: final(self).state,
                summary: Some(summary),
                video: screen::View { local: None, remote: None, ..old(self).video },
                ended: true,
            }),
    {
        self.summary = Some(summary);
        self.state(outcome);
        self.ended = true;
        self.video.clear();
    }
}

} // verus!
