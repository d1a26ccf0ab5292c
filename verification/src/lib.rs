//! Classical operating-system teaching algorithms, verified:
//! disk-arm scheduling (FCFS, SSTF, SCAN, CSCAN), the banker's
//! deadlock-safety check, page-replacement caches (FIFO, LRU, OPT),
//! and fixed-partition memory allocation.

pub mod disk;
pub mod sorting;
pub mod sstf;
pub mod sweep;
pub mod laws;
pub mod banker;
pub mod mem;
pub mod fifo;
pub mod lru;
pub mod opt;
pub mod partition;
pub mod first_fit;
pub mod next_fit;
pub mod worst_fit;
