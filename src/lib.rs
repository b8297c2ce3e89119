//! Experience replay for reinforcement learning: a fixed-capacity ring buffer,
//! a sum tree over integer priorities, and uniform and prioritized replay
//! memories built on them.
//!
//! Priorities are whole numbers of a unit that the caller chooses; the sum
//! tree adds them exactly, so its invariants hold without rounding.
pub mod exp;
pub mod memory;
pub mod prioritized;
mod random;
pub mod ring_buffer;
pub mod sum_tree;

pub use exp::{Exp, ExpBatch};
pub use memory::ReplayMemory;
pub use prioritized::PrioritizedReplayMemory;
pub use ring_buffer::{RingBuffer, StaticRingBuffer};
pub use sum_tree::SumTree;
