use vstd::prelude::*;

pub use crate::execution::{Execution, Step};
pub use crate::fifo::{Fifo, FIFO_CAPACITY};
pub use crate::lanes::PreludeError;
pub use crate::operation::{Operation, OperationIterator};
pub use crate::scheduler::{Dispatch, Evaluation, EvaluationVariant, Scheduler};
pub use crate::task::{RawTask, Task};

pub mod execution;
pub mod fifo;
pub mod generator;
pub mod lanes;
pub mod operation;
pub mod scheduler;
pub mod task;

verus! {

} // verus!
