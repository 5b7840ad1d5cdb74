//! Memory- and task-management core of a freestanding kernel.
//!
//! Three subsystems: a physical frame allocator (`Freelist`), a 4-level
//! hierarchical page-table manager (`Pagemap` over `PtMemory`), and a
//! round-robin task ring (`TaskRing`). Boot-time discovery of the memory
//! map, the direct-map offset and the active page-table root are inputs
//! handed in by the surrounding boot code; this crate holds the logic.

pub mod memory;
pub mod task;
