//! The services that a connection starts from.

use vstd::prelude::*;

verus! {

/// Why a service is not given out.
#[derive(Clone, Copy, PartialEq, Eq, Debug)]
pub enum ServiceError {
    /// Times of activity are not given out.
    RawEventsDisabled,
}

impl ServiceError {
    pub fn message(&self) -> (m: &'static str)
        ensures
            m@ == "raw events not enabled (server needs --raw flag)"@,
    {
        "raw events not enabled (server needs --raw flag)"
    }
}

/// The services that a connection starts from: `F` limits frame rates, `R` gives out the
/// times of activity.
pub struct MangoChillImpl<F, R> {
    fps_limiter: F,
    raw_events: Option<R>,
}

impl<F, R> MangoChillImpl<F, R> {
    pub closed spec fn limiter(self) -> F {
        self.fps_limiter
    }

    pub closed spec fn raw(self) -> Option<R> {
        self.raw_events
    }

    pub fn new(fps_limiter: F, raw_events: Option<R>) -> (s: Self)
        ensures
            s.limiter() == fps_limiter,
            s.raw() == raw_events,
    {
        Self { fps_limiter, raw_events }
    }

    /// The service that limits frame rates.
    pub fn fps_limiter(&self) -> (service: &F)
        ensures
            *service == self.limiter(),
    {
        &self.fps_limiter
    }

    /// The service that gives out the times of activity.
    pub fn raw_events(&self) -> (service: Result<&R, ServiceError>)
        ensures
            service == match self.raw() {
                Some(client) => Ok::<&R, ServiceError>(&client),
                None => Err(ServiceError::RawEventsDisabled),
            },
    {
        match &self.raw_events {
            Some(client) => Ok(client),
            None => Err(ServiceError::RawEventsDisabled),
        }
    }
}

} // verus!
