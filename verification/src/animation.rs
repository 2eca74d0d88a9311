//! Flip-book animations: an ordered list of frames played at a fixed rate.

use vstd::prelude::*;

use crate::image::{Asset, Frame};

verus! {

/// What happens when the playback clock runs past the last frame.
#[derive(Clone, Copy, Debug, PartialEq, Eq, Structural)]
pub enum WrapMode {
    /// Start over from the first frame.
    Loop,
    /// Stay on the last frame.
    Once,
}

/// A sequence of frames, the rate to play them at (frames per second), and
/// the wrap policy at the end.
pub struct Animation {
    pub frames: Vec<Frame>,
    pub fps: u16,
    pub wrap_mode: WrapMode,
}

impl Animation {
    pub fn new() -> (a: Animation)
        ensures
            a.frames@.len() == 0,
            a.fps == 60u16,
            a.wrap_mode == WrapMode::Loop,
    {
        Animation { frames: Vec::new(), fps: 60, wrap_mode: WrapMode::Loop }
    }

    pub fn add_frame(&mut self, frame: Frame)
        ensures
            final(self).frames@ == old(self).frames@.push(frame),
            final(self).fps == old(self).fps,
            final(self).wrap_mode == old(self).wrap_mode,
    {
        self.frames.push(frame);
    }

    pub fn frames(&self) -> (r: &[Frame])
        ensures
            r@ == self.frames@,
    {
        self.frames.as_slice()
    }

    pub fn wrap_mode(&self) -> (r: WrapMode)
        ensures
            r == self.wrap_mode,
    {
        self.wrap_mode
    }

    pub fn set_wrap_mode(&mut self, wrap_mode: WrapMode)
        ensures
            final(self).frames@ == old(self).frames@,
            final(self).fps == old(self).fps,
            final(self).wrap_mode == wrap_mode,
    {
        self.wrap_mode = wrap_mode;
    }

    pub fn fps(&self) -> (r: u16)
        ensures
            r == self.fps,
    {
        self.fps
    }

    pub fn set_fps(&mut self, fps: u16)
        ensures
            final(self).frames@ == old(self).frames@,
            final(self).fps == fps,
            final(self).wrap_mode == old(self).wrap_mode,
    {
        self.fps = fps;
    }
}

impl Asset for Animation {
    fn name() -> &'static str {
        "Animation"
    }
}

} // verus!
