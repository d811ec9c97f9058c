//! Window settings and the builder the game shell is configured with.
//!
//! The shell that opens a window and runs the frame loop lives outside
//! this library; it reads the settings assembled here.

use vstd::prelude::*;

verus! {

pub struct WindowSettings {
    pub title: String,
    pub width: u32,
    pub height: u32,
    pub fullscreen: bool,
    pub vsync: bool,
    pub samples: u16,
}

pub struct GameBuilder {
    pub window: WindowSettings,
}

impl GameBuilder {
    /// The default configuration: a small windowed, vsynced surface.
    pub fn new() -> (r: GameBuilder)
        ensures
            r.window.title@ == "Rax"@,
            r.window.width == 640,
            r.window.height == 360,
            r.window.fullscreen == false,
            r.window.vsync == true,
            r.window.samples == 4,
    {
        GameBuilder {
            window: WindowSettings {
                title: "Rax".to_owned(),
                width: 640,
                height: 360,
                fullscreen: false,
                vsync: true,
                samples: 4,
            },
        }
    }

    pub fn with_title(self, title: &str) -> (r: GameBuilder)
        ensures
            r.window.title@ == title@,
            r.window.width == self.window.width,
            r.window.height == self.window.height,
            r.window.fullscreen == self.window.fullscreen,
            r.window.vsync == self.window.vsync,
            r.window.samples == self.window.samples,
    {
        GameBuilder { window: WindowSettings { title: title.to_owned(), ..self.window } }
    }

    pub fn with_size(self, width: u32, height: u32) -> (r: GameBuilder)
        ensures
            r.window.title@ == self.window.title@,
            r.window.width == width,
            r.window.height == height,
            r.window.fullscreen == self.window.fullscreen,
            r.window.vsync == self.window.vsync,
            r.window.samples == self.window.samples,
    {
        GameBuilder { window: WindowSettings { width, height, ..self.window } }
    }

    pub fn with_fullscreen(self, fullscreen: bool) -> (r: GameBuilder)
        ensures
            r.window.title@ == self.window.title@,
            r.window.width == self.window.width,
            r.window.height == self.window.height,
            r.window.fullscreen == fullscreen,
            r.window.vsync == self.window.vsync,
            r.window.samples == self.window.samples,
    {
        GameBuilder { window: WindowSettings { fullscreen, ..self.window } }
    }

    pub fn with_vsync(self, vsync: bool) -> (r: GameBuilder)
        ensures
            r.window.title@ == self.window.title@,
            r.window.width == self.window.width,
            r.window.height == self.window.height,
            r.window.fullscreen == self.window.fullscreen,
            r.window.vsync == vsync,
            r.window.samples == self.window.samples,
    {
        GameBuilder { window: WindowSettings { vsync, ..self.window } }
    }

    pub fn with_samples(self, samples: u16) -> (r: GameBuilder)
        ensures
            r.window.title@ == self.window.title@,
            r.window.width == self.window.width,
            r.window.height == self.window.height,
            r.window.fullscreen == self.window.fullscreen,
            r.window.vsync == self.window.vsync,
            r.window.samples == samples,
    {
        GameBuilder { window: WindowSettings { samples, ..self.window } }
    }
}

} // verus!
