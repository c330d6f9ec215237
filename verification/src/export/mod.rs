//! Exporting an edited sequence: the plan, its execution, and what is told of
//! both.
pub mod audio;
pub mod counting;
pub mod encode;
pub mod estimate;
pub mod execute;
pub mod facts;
pub mod inspect;
pub mod loudness;
pub mod matching;
pub mod mixing;
pub mod nut;
pub mod obu;
pub mod overview;
pub mod picturing;
pub mod plan;
pub mod profile;
pub mod queue;
pub mod render;
pub mod ranges;
pub mod rendering;
pub mod report;
pub mod seam;
pub mod sps;
pub mod stitching;
pub mod telling;
pub mod verify;
