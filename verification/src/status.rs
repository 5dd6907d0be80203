use std::time::Instant;
use vstd::prelude::*;

verus! {

#[verifier::external_type_specification]
#[verifier::external_body]
pub struct ExInstant(Instant);

/// `Instant::now`: the current time. Nothing is stated of it.
#[verifier::external_body]
fn instant_now() -> Instant {
    Instant::now()
}

/// `Instant::elapsed`, taken in whole nanoseconds by `Duration::as_nanos`:
/// the time since `time`. It depends on the clock, so nothing is stated of
/// it.
#[verifier::external_body]
fn elapsed_nanos(time: &Instant) -> u128 {
    time.elapsed().as_nanos()
}

/// A status message, shown until a set time has passed.
pub struct StatusApp {
    message: String,
    timestamp: Option<(Instant, u64)>,
}

impl StatusApp {
    /// The message.
    pub closed spec fn message(&self) -> Seq<char> {
        self.message@
    }

    /// How many milliseconds the message is shown for, if it has a limit.
    pub closed spec fn limit(&self) -> Option<u64> {
        match self.timestamp {
            Some((_, ms)) => Some(ms),
            None => None,
        }
    }

    /// Whether the message has a time limit.
    pub open spec fn timed(&self) -> bool {
        self.limit() is Some
    }

    /// No message and no time limit.
    pub fn new() -> (r: Self)
        ensures
            r.message() == Seq::<char>::empty(),
            !r.timed(),
    {
        StatusApp { message: String::new(), timestamp: None }
    }

    /// Shows `message` for two seconds; an empty message clears the status.
    pub fn submit_message(&mut self, message: String)
        ensures
            final(self).message() == message@,
            final(self).limit() == (if message@.len() > 0 {
                Some(2000u64)
            } else {
                None
            }),
    {
        self.submit_message_with_duration(message, Some(2000))
    }

    /// Shows `message`, for `duration_ms` milliseconds when a limit is given
    /// and without a time limit otherwise; an empty message clears the
    /// status and its limit.
    pub fn submit_message_with_duration(&mut self, message: String, duration_ms: Option<u64>)
        ensures
            final(self).message() == message@,
            final(self).limit() == (if message@.len() > 0 {
                duration_ms
            } else {
                None
            }),
    {
        if message.as_str().is_empty() {
            self.message = String::new();
            self.timestamp = None;
        } else {
            self.message = message;
            self.timestamp = match duration_ms {
                Some(ms) => Some((instant_now(), ms)),
                None => None,
            };
        }
    }

    /// The message to show, given whether the time limit has passed: a
    /// passed limit clears the message and the limit and hands the message
    /// back; otherwise the message is returned when it is not empty.
    pub fn message_update(&mut self, expired: bool) -> (r: Option<String>)
        ensures
            old(self).timed() && expired ==> {
                &&& r is Some && r->0@ == old(self).message()
                &&& final(self).message() == Seq::<char>::empty()
                &&& !final(self).timed()
            },
            !(old(self).timed() && expired) ==> {
                &&& final(self).message() == old(self).message()
                &&& final(self).limit() == old(self).limit()
                &&& old(self).message().len() > 0 ==> r is Some && r->0@ == old(self).message()
                &&& old(self).message().len() == 0 ==> r is None
            },
    {
        if self.timestamp.is_some() && expired {
            self.timestamp = None;
            let message = self.message.clone();
            self.message = String::new();
            return Some(message);
        }
        if !self.message.as_str().is_empty() {
            Some(self.message.clone())
        } else {
            None
        }
    }

    /// The message to show: when the time limit has passed the message is
    /// handed back once and cleared, otherwise it is returned while it is
    /// not empty.
    pub fn get_message_update(&mut self) -> (r: Option<String>)
        ensures
            final(self).message() == Seq::<char>::empty() || final(self).message() == old(
                self).message(),
            r is Some ==> r->0@ == old(self).message(),
            r is None ==> old(self).message().len() == 0 && final(self).message() == old(
                self).message(),
            !old(self).timed() ==> final(self).message() == old(self).message() && (r is Some
                <==> old(self).message().len() > 0),
    {
        let expired = match &self.timestamp {
            Some((time, ms)) => {
                let elapsed = elapsed_nanos(time);
                elapsed > (*ms as u128) * 1_000_000
            },
            None => false,
        };
        self.message_update(expired)
    }
}

} // verus!
