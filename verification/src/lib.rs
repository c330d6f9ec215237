//! The media engine of a lossless video editor.
pub mod bytes;
pub mod capability;
pub mod export;
pub mod filmstrip;
pub mod keyframes;
pub mod num;
pub mod orchestrator;
pub mod playback;
pub mod preview;
pub mod probe;
pub mod project;
pub mod text;
pub mod tier;
pub mod time;
