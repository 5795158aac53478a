//! Verified core of a simulator for an optical screen-to-camera channel.

pub mod args;
mod arith;
pub mod bits;
pub mod border;
pub mod cellfloor;
pub mod command;
pub mod dump;
pub mod finder;
pub mod framed;
pub mod gprobe;
pub mod grid;
pub mod image;
pub mod l3live;
pub mod lfsr;
pub mod live;
pub mod marray;
pub mod mask;
pub mod modeb;
pub mod pipeline;
mod primitive;
pub mod probe;
pub mod profile;
pub mod rank;
pub mod report;
pub mod rng;
pub mod search;
pub mod sums;
pub mod survival;
pub mod symbol;
pub mod tally;
pub mod text;
