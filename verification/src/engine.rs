//! The settings of the engine.
use crate::backend::{self, BackendConfig, BackendKind};
use crate::single::Bits;
use vstd::prelude::*;

verus! {

/// The settings of the engine, one for one those of the backend.
pub struct EngineConfig {
    pub backend: BackendKind,
    pub buffer_frames: u32,
    pub sample_rate: Option<u32>,
    pub target_fill_blocks: Bits,
    pub input_device: Option<String>,
    pub output_device: Option<String>,
    pub realtime_priority: bool,
    pub f0_floor: Bits,
}

impl Default for EngineConfig {
    fn default() -> (c: EngineConfig)
        ensures
            c == (EngineConfig {
                backend: BackendKind::Auto,
                buffer_frames: 256,
                sample_rate: Some(48_000),
                target_fill_blocks: backend::DEFAULT_FILL_BLOCKS,
                input_device: None,
                output_device: None,
                realtime_priority: true,
                f0_floor: backend::DEFAULT_F0_FLOOR,
            }),
    {
        EngineConfig {
            backend: BackendKind::Auto,
            buffer_frames: 256,
            sample_rate: Some(48_000),
            target_fill_blocks: backend::DEFAULT_FILL_BLOCKS,
            input_device: None,
            output_device: None,
            realtime_priority: true,
            f0_floor: backend::DEFAULT_F0_FLOOR,
        }
    }
}

fn copy_of(name: &Option<String>) -> (r: Option<String>)
    ensures
        r == *name,
{
    match name {
        Some(s) => Some(s.clone()),
        None => None,
    }
}

impl EngineConfig {
    /// The settings as the backend takes them.
    pub fn to_backend(&self) -> (c: BackendConfig)
        ensures
            c == (BackendConfig {
                kind: self.backend,
                buffer_frames: self.buffer_frames,
                sample_rate: self.sample_rate,
                target_fill_blocks: self.target_fill_blocks,
                input_device: self.input_device,
                output_device: self.output_device,
                realtime_priority: self.realtime_priority,
                f0_floor: self.f0_floor,
            }),
    {
        BackendConfig {
            kind: self.backend,
            buffer_frames: self.buffer_frames,
            sample_rate: self.sample_rate,
            target_fill_blocks: self.target_fill_blocks,
            input_device: copy_of(&self.input_device),
            output_device: copy_of(&self.output_device),
            realtime_priority: self.realtime_priority,
            f0_floor: self.f0_floor,
        }
    }

    /// The rate of the latency probe: the one asked for, or 48 kHz.
    pub fn probe_rate(&self) -> (rate: u32)
        ensures
            rate == (match self.sample_rate {
                Some(r) => r,
                None => 48_000,
            }),
    {
        match self.sample_rate {
            Some(r) => r,
            None => 48_000,
        }
    }
}

} // verus!
