//! Verified integer core of SOKM (Self-Organizing Kernel Memory), the
//! incremental associative learner of Hoya's kernel memory approach: the
//! bookkeeping that decides which edges and kernels live, which kernels
//! short-term memory holds, which unlabelled kernels inherit a class, and
//! how every index follows a compaction.

pub mod bookkeeping;
pub mod coactivation;
pub mod compaction;
pub mod config;
pub mod cross;
pub mod csr;
pub mod kernels;
pub mod labels;
pub mod link;
pub mod stm;
