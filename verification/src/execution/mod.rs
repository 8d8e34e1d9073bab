//! Stepwise execution of a compiled graph: tasks are handed out as requests and their
//! results fed back; randomised gates ask their caller for the route.
pub mod convergence;
pub mod error;
pub mod gate;
pub mod mapping;
pub mod state;

pub use error::{ExecutionFailure, GateSelectionContext, MappingFailure, RoutingFailure};
pub use state::{Execution, PendingTaskContext, Progress, RouteChoice, Step, TaskRequest};
