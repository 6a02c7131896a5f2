use vstd::prelude::*;

use crate::kinds::{Color, Type};

verus! {

/// The computer player and the side it plays.
#[derive(Clone, Copy, Debug)]
pub struct Cpu {
    cpu_type: Type,
    cpu_color: Color,
}

#[verifier::external_type_specification]
#[verifier::external_body]
pub struct ExSystemTime(std::time::SystemTime);

/// Relies on std::time::SystemTime::now: a reading of the system clock.
/// Nothing is known of it.
#[verifier::external_body]
fn clock_now() -> (r: std::time::SystemTime) {
    std::time::SystemTime::now()
}

/// Relies on std::time::SystemTime::duration_since, measured from
/// std::time::UNIX_EPOCH: `None` when the reading is earlier than the epoch.
#[verifier::external_body]
fn since_unix_epoch(t: &std::time::SystemTime) -> (r: Option<std::time::Duration>) {
    match t.duration_since(std::time::UNIX_EPOCH) {
        Ok(d) => Some(d),
        Err(_) => None,
    }
}

/// Relies on std::time::Duration::as_nanos: the whole nanoseconds of `d`.
#[verifier::external_body]
fn whole_nanos(d: &std::time::Duration) -> (r: u128) {
    d.as_nanos()
}

impl Cpu {
    pub closed spec fn kind(&self) -> Type {
        self.cpu_type
    }

    pub closed spec fn color(&self) -> Color {
        self.cpu_color
    }

    /// A computer player, black until told otherwise.
    pub fn new() -> (r: Self)
        ensures
            r.kind() == Type::Human,
            r.color() == Color::Black,
    {
        Cpu { cpu_type: Type::Human, cpu_color: Color::Black }
    }

    /// Changes the side the computer plays.
    #[allow(non_snake_case)]
    pub fn changeColor(&mut self, color: Color)
        ensures
            final(self).color() == color,
            final(self).kind() == old(self).kind(),
    {
        self.cpu_color = color
    }

    /// The 1-based choice among `n` candidates that a clock reading of
    /// `timestamp` nanoseconds selects.
    pub fn choice_from_clock(timestamp: u128, n: usize) -> (r: usize)
        requires
            n >= 1,
        ensures
            r == (timestamp % (n as u128)) + 1,
            1 <= r <= n,
    {
        let k = (timestamp % (n as u128)) as usize;
        k + 1
    }

    /// A 1-based choice among `n` candidates taken from the clock; the first
    /// one when the clock reads a time before the Unix epoch.
    #[allow(non_snake_case)]
    pub fn cpuInput(n: usize) -> (r: usize)
        requires
            n >= 1,
        ensures
            1 <= r <= n,
    {
        let now = clock_now();
        match since_unix_epoch(&now) {
            Some(d) => Cpu::choice_from_clock(whole_nanos(&d), n),
            None => 1,
        }
    }
}

} // verus!
