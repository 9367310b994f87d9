//! Closest-pair-of-points algorithms, their recording for playback, and
//! locality-sensitive hashing over bit vectors, with machine-checked contracts.
pub mod datatype;
pub mod point;
pub mod pairs;
pub mod strip;
pub mod alg;
pub mod visual;
pub mod closest_pair;
pub mod lsh;
pub mod canvas;
pub mod text;
