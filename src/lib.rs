//! Input-capture pipeline of a rotary-encoder display panel: a quadrature
//! decoder, a button debouncer, the counters they drive, and the text that
//! the renderer draws from those counters.
pub mod counters;
pub mod debounce;
pub mod quadrature;
pub mod render;
