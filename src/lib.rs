//! Copies one region file of a world over all the other files of its
//! `region` directory: the checks made before the work starts, the reading
//! of the operator's replies, and the run over the sibling files, whose
//! file operations the caller performs and reports back.

pub mod duplicate;
pub mod input;
pub mod region;
