pub mod canvas;
pub mod color;
pub mod gather;
pub mod paint;
pub mod refine;
pub mod rng;
pub mod sched;
