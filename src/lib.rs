//! Exact travelling-salesman tours by Held-Karp dynamic programming, and their drawing
//! on a character canvas.
pub mod bits;
pub mod canvas;
pub mod line;
pub mod render;
pub mod solver;
pub mod tour;
