pub mod canvas;
pub mod cat;
pub mod desktop;
pub mod float;
pub mod font;
pub mod frame;
pub mod habits;
pub mod laws;
pub mod moments;
pub mod motion;
pub mod pixels;
pub mod placement;
pub mod pointer;
pub mod precision;
pub mod rng;
pub mod rounding;
pub mod search;
pub mod service;
pub mod sprites;
pub mod text;
