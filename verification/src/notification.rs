//! Notifications, and what a click on one does.
use vstd::prelude::*;

use crate::platform::Platform;
use crate::text::copy_string;

verus! {

/// A notification. A click on it copies its body.
pub struct Toast {
    pub title: String,
    pub body: String,
    /// How often a click tries to copy the body.
    pub attempts: u32,
}

/// The notification to show, where the system has any.
pub fn notify_sms(platform: Platform, title: &str, body: &str) -> (r: Option<Toast>)
    ensures
        match r {
            Some(t) => {
                &&& !(platform is Other)
                &&& t.title@ == title@
                &&& t.body@ == body@
                &&& t.attempts == (if platform is Windows {
                    3int
                } else {
                    1int
                })
            },
            None => platform is Other,
        },
{
    let attempts: u32 = match platform {
        Platform::Windows => 3,
        Platform::MacOs => 1,
        Platform::Other => {
            return None;
        },
    };
    Some(Toast { title: copy_string(title), body: copy_string(body), attempts })
}

/// The pause after a copy that failed, in milliseconds, where there are so many attempts.
pub open spec fn copy_pause(attempts: u32, attempt: u32) -> int {
    if attempts > 1 {
        60 * (attempt + 1)
    } else {
        0
    }
}

impl Toast {
    /// What follows a copy that failed: the pause, in milliseconds, and whether it is tried
    /// again. `attempt` counts from 0. The pauses grow, and where there is only one attempt
    /// there is none.
    pub fn after_failed_copy(&self, attempt: u32) -> (r: (u64, bool))
        ensures
            r.0 == (if self.attempts > 1 {
                60 * (attempt + 1)
            } else {
                0
            }),
            r.1 == (attempt + 1 < self.attempts),
            r.0 == copy_pause(self.attempts, attempt),
    {
        let pause: u64 = if self.attempts > 1 {
            60 * (attempt as u64 + 1)
        } else {
            0
        };
        (pause, (attempt as u64 + 1) < self.attempts as u64)
    }
}

// ───────────────────────── laws ─────────────────────────

/// Pauses start at 60 milliseconds and grow by as much with each attempt; a single attempt has none.
pub proof fn pauses_grow_evenly(attempts: u32, attempt: u32)
    requires
        attempt < u32::MAX,
    ensures
        attempts <= 1 ==> copy_pause(attempts, attempt) == 0,
        attempts > 1 ==> copy_pause(attempts, 0) == 60,
        attempts > 1 ==> copy_pause(attempts, (attempt + 1) as u32) == copy_pause(attempts, attempt)
            + 60,
{
}

} // verus!
