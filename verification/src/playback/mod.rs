//! Playing a sequence back: the clock, the transport, what is decoded ahead and
//! what is shown.
pub mod clock;
pub mod feeder;
pub mod frame;
pub mod lanes;
pub mod monitor;
pub mod plan;
pub mod reverse;
pub mod scrub;
pub mod showing;
pub mod sounding;
pub mod status;
pub mod step;
pub mod timecode;
pub mod timeline;
pub mod transport;
