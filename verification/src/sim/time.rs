//! The simulation calendar: simulated time is counted in months from the
//! first month of year 1.
use vstd::prelude::*;
use vstd::string::StringExecFns;

verus! {

/// The character of decimal digit `d`.
pub open spec fn digit_char(d: int) -> char {
    if d == 0 { '0' }
    else if d == 1 { '1' }
    else if d == 2 { '2' }
    else if d == 3 { '3' }
    else if d == 4 { '4' }
    else if d == 5 { '5' }
    else if d == 6 { '6' }
    else if d == 7 { '7' }
    else if d == 8 { '8' }
    else { '9' }
}

/// Decimal notation of `n`, without leading zeros.
pub open spec fn spec_decimal(n: nat) -> Seq<char>
    decreases n,
{
    if n < 10 {
        seq![digit_char(n as int)]
    } else {
        spec_decimal(n / 10) + seq![digit_char((n % 10) as int)]
    }
}

/// Decimal notation of `n`, zero-padded to at least two digits.
pub open spec fn spec_decimal_2(n: nat) -> Seq<char> {
    if n < 10 {
        seq!['0'] + spec_decimal(n)
    } else {
        spec_decimal(n)
    }
}

/// Month (1 to 12) of simulated time `time`.
pub open spec fn spec_month(time: u32) -> nat {
    (time % 12 + 1) as nat
}

/// Year (from 1) of simulated time `time`.
pub open spec fn spec_year(time: u32) -> nat {
    (time / 12 + 1) as nat
}

/// Simulated time as "MM.YYYY".
pub open spec fn spec_time_to_string(time: u32) -> Seq<char> {
    spec_decimal_2(spec_month(time)) + seq!['.'] + spec_decimal(spec_year(time))
}

fn digit_str(d: u32) -> (r: &'static str)
    requires
        d < 10,
    ensures
        r@ == seq![digit_char(d as int)],
{
    proof {
        reveal_strlit("0");
        reveal_strlit("1");
        reveal_strlit("2");
        reveal_strlit("3");
        reveal_strlit("4");
        reveal_strlit("5");
        reveal_strlit("6");
        reveal_strlit("7");
        reveal_strlit("8");
        reveal_strlit("9");
    }
    match d {
        0 => "0",
        1 => "1",
        2 => "2",
        3 => "3",
        4 => "4",
        5 => "5",
        6 => "6",
        7 => "7",
        8 => "8",
        _ => "9",
    }
}

/// Append the decimal notation of `n` to `s`.
fn push_decimal(s: &mut String, n: u32)
    ensures
        final(s)@ == old(s)@ + spec_decimal(n as nat),
    decreases n,
{
    if n >= 10 {
        push_decimal(s, n / 10);
    }
    s.append(digit_str(n % 10));
    proof {
        assert(final(s)@ =~= old(s)@ + spec_decimal(n as nat));
    }
}

/// Format simulated time as "MM.YYYY" (month zero-padded to two digits).
pub fn time_to_string(time: u32) -> (r: String)
    ensures
        r@ == spec_time_to_string(time),
{
    let mut s = String::new();
    let month = time % 12 + 1;
    if month < 10 {
        proof {
            reveal_strlit("0");
        }
        s.append("0");
    }
    push_decimal(&mut s, month);
    proof {
        reveal_strlit(".");
    }
    s.append(".");
    push_decimal(&mut s, time / 12 + 1);
    proof {
        assert(s@ =~= spec_time_to_string(time));
    }
    s
}

/// Format simulated time as "MM.YYYY", followed by a space and `str`.
pub fn time_to_string_plus(time: u32, str: &str) -> (r: String)
    ensures
        r@ == spec_time_to_string(time) + seq![' '] + str@,
{
    let mut s = time_to_string(time);
    proof {
        reveal_strlit(" ");
    }
    s.append(" ");
    s.append(str);
    proof {
        assert(s@ =~= spec_time_to_string(time) + seq![' '] + str@);
    }
    s
}

/// Control of the simulation's flow: whole simulated months. Its speed and
/// the real time of the last active tick are kept by the simulation beside
/// it.
#[derive(Clone, Copy, Debug, PartialEq, Eq)]
pub struct SimControl {
    /// Is the current tick the active tick (should other systems run?).
    pub tick: bool,
    /// Is the simulation paused?
    pub paused: bool,
    /// Current simulation time, measured in simulated months.
    pub time: u32,
}

impl Default for SimControl {
    fn default() -> (r: Self)
        ensures
            !r.tick,
            r.paused,
            r.time == 0,
    {
        SimControl { tick: false, paused: true, time: 0 }
    }
}

impl SimControl {
    /// The current simulation time as a "MM.YYYY" string.
    pub fn current_time_to_string(&self) -> (r: String)
        ensures
            r@ == spec_time_to_string(self.time),
    {
        time_to_string(self.time)
    }

    /// Is this tick a new year?
    pub fn is_new_year(&self) -> (r: bool)
        ensures
            r == (self.time % 12 == 0),
    {
        self.time % 12 == 0
    }
}

/// One step of the simulation clock: while paused no tick is active;
/// otherwise, when a month is due (`step_due`, from the real time elapsed
/// and the speed), time moves on by a month and the tick is active.
pub fn tick(sim: &mut SimControl, step_due: bool)
    requires
        !old(sim).paused && step_due ==> old(sim).time < u32::MAX,
    ensures
        final(sim).paused == old(sim).paused,
        final(sim).tick == (!old(sim).paused && step_due),
        final(sim).time == if !old(sim).paused && step_due { old(sim).time + 1 } else { old(sim).time as int },
{
    if sim.paused {
        sim.tick = false;
        return;
    }
    if step_due {
        sim.time += 1;
        sim.tick = true;
    } else {
        sim.tick = false;
    }
}

} // verus!
