//! Verified core of an astrodynamics data engine: the double-precision array file reader,
//! segment selection over loaded kernels (the last loaded wins), the ephemeris and
//! orientation frame trees, Hermite window selection, aberration names, and the
//! bidirectional look-up table of datasets.

pub mod lookuptable;
pub mod almanac;
pub mod tree;
pub mod ephemerides;
pub mod paths;
pub mod aberration;
pub mod hermite;
pub mod cli;
pub mod daf;
