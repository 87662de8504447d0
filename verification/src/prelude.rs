//! The crate's common imports, gathered for a single `use`.

pub use crate::app::{App, Commands, Init, Module, PreInit, Update};
pub use crate::capability::{Access, AccessError, HandlerParam, Request, Res, ResMut, TypeKey};
pub use crate::handler::{Args, Handler, HandlerFunction, IntoHandler, Writes};
pub use crate::schedule::{Schedule, ScheduleLabel, Scheduler};
pub use crate::state::State;
pub use crate::window::WindowApp;
