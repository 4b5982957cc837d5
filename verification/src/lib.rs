//! Decision core of a real-time vocal pitch corrector.
//!
//! Everything here is integer and bit-pattern logic: buffers, rings, clocks,
//! state machines, file formats, names and searches. Samples and other
//! single-precision quantities travel as their bit patterns (see [`single`]);
//! arithmetic on them is done by the callers, which hand the results in.

pub mod backend;
pub mod clone;
pub mod corrector;
pub mod duplex;
pub mod engine;
pub mod f0eval;
pub mod fft;
pub mod job;
pub mod latency;
pub mod metrics;
pub mod noise;
pub mod offline;
pub mod params;
pub mod paths;
pub mod pcm;
pub mod priority;
pub mod psola;
pub mod recorder;
pub mod report;
pub mod ring;
pub mod scale;
pub mod single;
pub mod sizes;
pub mod sorting;
pub mod survey;
pub mod takes;
pub mod text;
pub mod thresholds;
pub mod tilt;
pub mod timbre;
pub mod wav;
pub mod yin;
