//! A hierarchical timing wheel: callbacks are deferred by a number of ticks,
//! may repeat or reschedule themselves, and are submitted through cloneable
//! handles while a single owner advances time.

pub mod behave;
pub mod callback;
pub mod channel;
pub mod count;
pub mod course;
pub mod handle;
pub mod laws;
pub mod model;
pub mod placement;
pub mod task;
pub mod ticks;
pub mod timing;
pub mod wheel;

pub use behave::Behave;
pub use callback::{boxed, run_on, BoxedCallback, Callable, Callback};
pub use handle::{AddHandle, DanglingAddHandle, Submission};
pub use task::Task;
pub use ticks::{round_to_ticks, ticks_of};
pub use wheel::{MoveTo, MultiWheel, Placed, Slot, Wheel};
