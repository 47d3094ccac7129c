//! The audio format that a session works in.

use vstd::prelude::*;

verus! {

/// Sample rate in hertz, samples per buffer, and channel count.
#[derive(Clone, Copy, Debug, PartialEq, Eq, Structural)]
pub struct AudioConfig {
    pub sample_rate: u32,
    pub buffer_size: u32,
    pub channels: u32,
}

impl Default for AudioConfig {
    /// Mono at 48 kHz, in buffers of 256 samples.
    fn default() -> (c: Self)
        ensures
            c == (AudioConfig { sample_rate: 48000, buffer_size: 256, channels: 1 }),
    {
        AudioConfig { sample_rate: 48000, buffer_size: 256, channels: 1 }
    }
}

} // verus!
