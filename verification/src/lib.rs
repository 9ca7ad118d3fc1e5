//! One-shot initialization of statically placed kernel objects, and a
//! deadlock-free protocol by which a ring of workers shares indexed
//! exclusive resources.

pub mod delay;
pub mod forks;
pub mod object;
pub mod philosophers;
pub mod table;
