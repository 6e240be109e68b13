use vstd::prelude::*;
use chrono::Timelike;

verus! {

/// A local wall-clock reading, to the minute.
#[derive(Debug, Clone, Copy, PartialEq, Eq, Structural)]
pub struct ClockTime {
    pub hour: u32,
    pub minute: u32,
}

impl ClockTime {
    pub open spec fn wf(&self) -> bool {
        self.hour < 24 && self.minute < 60
    }

    /// Minutes since midnight.
    pub open spec fn minute_of_day(&self) -> int {
        self.hour * 60 + self.minute
    }
}

/// The reading at `m` minutes after midnight.
pub open spec fn clock_at(m: int) -> ClockTime {
    ClockTime { hour: (m / 60) as u32, minute: (m % 60) as u32 }
}

/// Relies on chrono's `From<SystemTime> for DateTime<Local>` with
/// `Timelike::hour` (0 to 23) and `Timelike::minute` (0 to 59): the local
/// time now.
#[verifier::external_body]
fn local_clock_now() -> (r: ClockTime)
    ensures
        r.wf(),
{
    let now = chrono::DateTime::<chrono::Local>::from(std::time::SystemTime::now());
    ClockTime { hour: now.hour(), minute: now.minute() }
}

/// The minute of the day at which the reminder is due.
#[derive(Debug, Clone, Copy, PartialEq, Eq, Structural)]
pub struct ReminderSchedule {
    pub hour: u32,
    pub minute: u32,
}

pub const REMINDER_HOUR: u32 = 17;

pub const REMINDER_MINUTE: u32 = 0;

impl ReminderSchedule {
    pub open spec fn wf(&self) -> bool {
        self.hour < 24 && self.minute < 60
    }

    pub open spec fn due_at(&self, t: ClockTime) -> bool {
        t.hour == self.hour && t.minute == self.minute
    }

    /// The end-of-day reminder, at 17:00 local time.
    pub fn daily() -> (r: ReminderSchedule)
        ensures
            r.hour == 17,
            r.minute == 0,
            r.wf(),
    {
        ReminderSchedule { hour: REMINDER_HOUR, minute: REMINDER_MINUTE }
    }

    /// Whether the reminder fires on the tick that reads `now`. The loop that
    /// drives it ticks once a minute, so it fires once on each day that the
    /// tick of that minute takes place; a skipped minute is not made up.
    pub fn is_due(&self, now: ClockTime) -> (r: bool)
        ensures
            r == self.due_at(now),
    {
        now.hour == self.hour && now.minute == self.minute
    }

    /// Reads the local clock and says whether the reminder fires now.
    pub fn check_now(&self) -> (r: (ClockTime, bool))
        ensures
            r.0.wf(),
            r.1 == self.due_at(r.0),
    {
        let now = local_clock_now();
        (now, self.is_due(now))
    }
}

/// Over any 24 hours read minute by minute from any starting minute, the
/// reminder fires at exactly one reading: the one at its own minute of the day.
pub proof fn lemma_fires_once_a_day(s: ReminderSchedule, start: int)
    requires
        s.wf(),
        0 <= start < 1440,
    ensures
        forall|k: int|
            0 <= k < 1440 ==> (s.due_at(#[trigger] clock_at((start + k) % 1440)) <==> k == (
            s.hour * 60 + s.minute - start + 1440) % 1440),
{
    assert forall|k: int| 0 <= k < 1440 implies (s.due_at(#[trigger] clock_at((start + k) % 1440))
        <==> k == (s.hour * 60 + s.minute - start + 1440) % 1440) by {
        let m = (start + k) % 1440;
        let target = s.hour * 60 + s.minute;
        assert(0 <= m < 1440);
        assert(s.due_at(clock_at(m)) <==> m == target) by {
            assert(0 <= m / 60 < 24);
            assert(m == (m / 60) * 60 + m % 60);
            if m == target {
                assert(m / 60 == s.hour && m % 60 == s.minute) by (nonlinear_arith)
                    requires
                        m == s.hour * 60 + s.minute,
                        s.minute < 60,
                        s.hour < 24,
                ;
            }
        }
        if start + k < 1440 {
            assert(m == start + k);
        } else {
            assert(m == start + k - 1440);
        }
        if target >= start {
            assert((target - start + 1440) % 1440 == target - start);
        } else {
            assert((target - start + 1440) % 1440 == target - start + 1440);
        }
    }
}

} // verus!
