//! Tracking when the cursor last moved, for blink phase restarts.

use vstd::prelude::*;

verus! {

/// The moment the cursor last moved, in milliseconds of wall-clock time.
#[derive(Clone, Copy, Debug)]
pub struct PrevCursorPos {
    pub when: u64,
}

/// Relies on std::time::SystemTime::now for the wall clock, read as
/// milliseconds since the epoch; nothing is assumed of the value.
#[verifier::external_body]
fn now_millis() -> u64 {
    match std::time::SystemTime::now().duration_since(std::time::UNIX_EPOCH) {
        Ok(d) => d.as_millis() as u64,
        Err(_) => 0,
    }
}

impl PrevCursorPos {
    /// Starts the clock at the current moment.
    pub fn new() -> Self {
        PrevCursorPos { when: now_millis() }
    }

    /// Makes the cursor look like it moved just now.  The recorded moment
    /// never goes backwards, even if the wall clock does.
    pub fn bump(&mut self)
        ensures
            final(self).when >= old(self).when,
    {
        let now = now_millis();
        if now > self.when {
            self.when = now;
        }
    }

    /// When the cursor last moved.
    pub fn last_cursor_movement(&self) -> (r: u64)
        ensures
            r == self.when,
    {
        self.when
    }
}

} // verus!
