//! Core of an in-place sorting animation engine: a shared sequence of
//! values with per-element highlight state, step-paced sorting algorithms
//! (bubble sort, quicksort, shuffle), a cooperative cancellation token,
//! an adjustable animation clock, and the start/stop/restart protocol of a
//! visualization session.
pub mod algos;
pub mod datatypes;
pub mod lemmas;
pub mod rng;
pub mod session;
pub mod steps;

pub use algos::bubblesort;
pub use algos::qs_partition;
pub use algos::quicksort;
pub use algos::shuffle;
pub use datatypes::Color;
pub use datatypes::Highlight;
pub use datatypes::IndexOutOfBoundsError;
pub use datatypes::Number;
pub use datatypes::NumberVec;
pub use session::AlgorithmChoice;
pub use session::AnimationClock;
pub use session::CancelToken;
pub use session::Session;
pub use session::SessionCommand;
pub use session::SessionState;
pub use steps::BubbleRun;
pub use steps::QuickRun;
