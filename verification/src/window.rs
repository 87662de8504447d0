//! The window-facing side of an application: the redraw phase label, the
//! resize event, and the wrapper a host window loop drives the
//! application through.  Opening the window and pumping its events is the
//! host's business.

use crate::app::App;
use crate::capability::TypeKey;
use crate::events::Event;
use crate::schedule::ScheduleLabel;
use vstd::prelude::*;

verus! {

/// The label of the window redraw phase, run after the update phase of
/// each host-loop iteration; it dispatches under key 3, which application
/// labels must leave free.
#[derive(Clone, Copy, PartialEq, Eq, Structural, Debug)]
pub struct Render;

impl ScheduleLabel for Render {
    open spec fn key_spec(&self) -> TypeKey {
        TypeKey { id: 3 }
    }

    fn key(&self) -> (k: TypeKey) {
        TypeKey { id: 3 }
    }
}

/// Raised when the host window was resized; its event queue runs under
/// key 4, which application events must leave free.
#[derive(Clone, Copy, PartialEq, Eq, Structural, Debug)]
pub struct WindowResized {
    pub width: u32,
    pub height: u32,
}

impl Event for WindowResized {
    fn key(&self) -> TypeKey {
        TypeKey { id: 4 }
    }
}

/// An application wrapped for a host window loop, which drives the
/// phases from the window's events.
pub struct WindowApp<R, H> {
    app: App<R, H>,
}

impl<R, H> WindowApp<R, H> {
    /// The wrapped application.
    pub closed spec fn inner(&self) -> App<R, H> {
        self.app
    }

    /// Wraps an application for a host window loop.
    pub fn new(app: App<R, H>) -> (w: WindowApp<R, H>)
        ensures
            w.inner() == app,
    {
        WindowApp { app }
    }

    /// The application, for the host loop to drive.
    pub fn app(&mut self) -> (a: &mut App<R, H>)
        ensures
            *a == old(self).inner(),
            final(self).inner() == *final(a),
    {
        &mut self.app
    }
}

} // verus!
