//! An audio graph: a tree of processing nodes under a single root watcher,
//! evaluated block by block with events scheduled at exact sample indices.

pub mod event;
pub mod graph;
pub mod node;
pub mod pass;
pub mod process;
pub mod sampling;

pub use event::Event;
pub use graph::{Audiograph, Watcher};
pub use node::Node;
pub use process::{Mixer, Multiplier, Process, Sample, Sentinel};
pub use sampling::{SampleIdx, SamplingRate, Time};
