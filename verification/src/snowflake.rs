//! Snowflake identifiers: the 64-bit layout of timestamp, machine and
//! sequence, the rule by which one identifier follows another, and the
//! lock-free generator that applies the rule to a shared cell.

use std::sync::atomic::AtomicI64;
use std::sync::atomic::Ordering;
use vstd::prelude::*;

verus! {

/// Milliseconds from the UNIX epoch to 2000-01-01T00:00:00Z.
pub const EPOCH: u64 = 946684800000;

/// The largest sequence number within one millisecond.
pub const MAX_SEQ: u16 = 4095;

/// The parts of an identifier.
#[derive(Clone, Copy, Debug, PartialEq, Eq)]
pub struct SnowflakeId {
    pub timestamp: u64,
    pub machine: u8,
    pub sequence: u16,
}

/// The 64 bits of an identifier, read as an unsigned number.
pub open spec fn bits_of(id: i64) -> int {
    if id >= 0 {
        id as int
    } else {
        id as int + 0x1_0000_0000_0000_0000
    }
}

/// The signed number whose 64 bits, read unsigned, are `bits`.
pub open spec fn signed_of(bits: int) -> int {
    if bits < 0x8000_0000_0000_0000 {
        bits
    } else {
        bits - 0x1_0000_0000_0000_0000
    }
}

/// Bits 63 to 20 of an identifier: milliseconds since the epoch of 2000.
pub open spec fn timestamp_of(id: i64) -> int {
    bits_of(id) / 0x10_0000
}

/// Bits 19 to 12 of an identifier.
pub open spec fn machine_of(id: i64) -> int {
    (bits_of(id) / 0x1000) % 0x100
}

/// Bits 11 to 0 of an identifier.
pub open spec fn sequence_of(id: i64) -> int {
    bits_of(id) % 0x1000
}

/// The identifier with the given fields; only the low 44 bits of the
/// timestamp find room.
pub open spec fn packed(timestamp: int, machine: int, sequence: int) -> int {
    signed_of((timestamp % 0x1000_0000_0000) * 0x10_0000 + machine * 0x1000 + sequence)
}

impl SnowflakeId {
    /// The sequence number is one that the layout has room for.
    pub open spec fn wf(&self) -> bool {
        self.sequence <= MAX_SEQ
    }

    /// Takes an identifier apart.
    pub fn from(id: i64) -> (r: SnowflakeId)
        ensures
            r.timestamp == timestamp_of(id),
            r.machine == machine_of(id),
            r.sequence == sequence_of(id),
            r.wf(),
    {
        let bits: u64 = if id >= 0 {
            id as u64
        } else {
            (id as i128 + 0x1_0000_0000_0000_0000i128) as u64
        };
        SnowflakeId {
            timestamp: bits / 0x10_0000,
            machine: ((bits / 0x1000) % 0x100) as u8,
            sequence: (bits % 0x1000) as u16,
        }
    }

    /// Puts the fields together into one identifier.
    pub fn to_i64(&self) -> (id: i64)
        requires
            self.wf(),
        ensures
            id == packed(self.timestamp as int, self.machine as int, self.sequence as int),
    {
        let bits: u64 = (self.timestamp % 0x1000_0000_0000) * 0x10_0000 + (self.machine as u64)
            * 0x1000 + self.sequence as u64;
        if bits < 0x8000_0000_0000_0000 {
            bits as i64
        } else {
            (bits as i128 - 0x1_0000_0000_0000_0000i128) as i64
        }
    }
}

/// An identifier holds the fields it was put together from.
pub proof fn lemma_fields_of_packed(timestamp: int, machine: int, sequence: int)
    requires
        0 <= timestamp,
        0 <= machine < 0x100,
        0 <= sequence < 0x1000,
    ensures
        i64::MIN <= packed(timestamp, machine, sequence) <= i64::MAX,
        timestamp_of(packed(timestamp, machine, sequence) as i64) == timestamp % 0x1000_0000_0000,
        machine_of(packed(timestamp, machine, sequence) as i64) == machine,
        sequence_of(packed(timestamp, machine, sequence) as i64) == sequence,
        timestamp < 0x800_0000_0000 ==> packed(timestamp, machine, sequence) >= 0,
{
    let t = timestamp % 0x1000_0000_0000;
    let low = machine * 0x1000 + sequence;
    let bits = t * 0x10_0000 + low;
    assert(0 <= t < 0x1000_0000_0000);
    assert(0 <= low < 0x10_0000);
    assert(0 <= bits < 0x1_0000_0000_0000_0000);
    assert(bits_of(signed_of(bits) as i64) == bits);
    assert(bits / 0x10_0000 == t);
    assert(bits / 0x1000 == t * 0x100 + machine);
    assert((t * 0x100 + machine) % 0x100 == machine);
    assert(bits % 0x1000 == sequence);
    if timestamp < 0x800_0000_0000 {
        assert(t == timestamp);
        assert(bits < 0x8000_0000_0000_0000);
    }
}

/// Putting together the fields of an identifier gives the identifier back.
pub proof fn lemma_packed_of_fields(id: i64)
    ensures
        packed(timestamp_of(id), machine_of(id), sequence_of(id)) == id,
{
}

/// What one look at the cell and the clock decides.
#[derive(Clone, Copy, Debug, PartialEq, Eq)]
pub enum Step {
    /// The identifier to publish.
    Issue(i64),
    /// The millisecond's sequence numbers are used up: look again.
    Wait,
    /// The clock shows a time before the last identifier's.
    ClockBackwards,
}

/// The rule: what follows the identifier `last_id` at wall-clock time
/// `wall_ms` (milliseconds since the UNIX epoch) on the given machine.
pub open spec fn step_spec(last_id: i64, wall_ms: u64, machine: u8) -> Step {
    let now = wall_ms as int - EPOCH as int;
    if now < timestamp_of(last_id) {
        Step::ClockBackwards
    } else if now == timestamp_of(last_id) {
        if sequence_of(last_id) + 1 > MAX_SEQ as int {
            Step::Wait
        } else {
            Step::Issue(packed(now, machine as int, sequence_of(last_id) + 1) as i64)
        }
    } else {
        Step::Issue(packed(now, machine as int, 0) as i64)
    }
}

/// Decides what follows `last_id` at the time `wall_ms`.
pub fn advance(last_id: i64, wall_ms: u64, machine: u8) -> (r: Step)
    ensures
        r == step_spec(last_id, wall_ms, machine),
{
    let last = SnowflakeId::from(last_id);
    if wall_ms < EPOCH {
        return Step::ClockBackwards;
    }
    let now: u64 = wall_ms - EPOCH;
    if now < last.timestamp {
        Step::ClockBackwards
    } else if now == last.timestamp {
        if last.sequence + 1 > MAX_SEQ {
            Step::Wait
        } else {
            let next = SnowflakeId { timestamp: now, machine, sequence: last.sequence + 1 };
            Step::Issue(next.to_i64())
        }
    } else {
        let next = SnowflakeId { timestamp: now, machine, sequence: 0 };
        Step::Issue(next.to_i64())
    }
}

/// Every identifier that the rule issues carries the machine it was issued
/// on and a sequence number of at most 4095.
pub proof fn lemma_issued_fields(last_id: i64, wall_ms: u64, machine: u8)
    ensures
        step_spec(last_id, wall_ms, machine) matches Step::Issue(id) ==> machine_of(id)
            == machine && sequence_of(id) <= MAX_SEQ,
{
    let now = wall_ms as int - EPOCH as int;
    if now >= timestamp_of(last_id) {
        if now == timestamp_of(last_id) {
            if sequence_of(last_id) + 1 <= MAX_SEQ as int {
                lemma_fields_of_packed(now, machine as int, sequence_of(last_id) + 1);
            }
        } else {
            lemma_fields_of_packed(now, machine as int, 0);
        }
    }
}

/// Identifiers grow: while the timestamp fits below the sign bit, what the
/// rule issues behind a non-negative identifier of the same machine, or of
/// one with a smaller number, is strictly greater than it.
pub proof fn lemma_issued_is_greater(last_id: i64, wall_ms: u64, machine: u8)
    requires
        last_id >= 0,
        machine_of(last_id) <= machine,
        (wall_ms as int) - (EPOCH as int) < 0x800_0000_0000,
    ensures
        step_spec(last_id, wall_ms, machine) matches Step::Issue(id) ==> id > last_id && id >= 0,
{
    let now = wall_ms as int - EPOCH as int;
    if now >= timestamp_of(last_id) {
        if now == timestamp_of(last_id) {
            if sequence_of(last_id) + 1 <= MAX_SEQ as int {
                lemma_fields_of_packed(now, machine as int, sequence_of(last_id) + 1);
            }
        } else {
            lemma_fields_of_packed(now, machine as int, 0);
        }
    }
}

/// Successive identifiers of one machine are strictly increasing: while
/// the timestamps fit below the sign bit, what the rule issues behind an
/// identifier that it issued is greater than that identifier.
pub proof fn lemma_successive_ids_grow(
    last_id: i64,
    first_ms: u64,
    second_ms: u64,
    machine: u8,
    first: i64,
    second: i64,
)
    requires
        (first_ms as int) - (EPOCH as int) < 0x800_0000_0000,
        (second_ms as int) - (EPOCH as int) < 0x800_0000_0000,
        step_spec(last_id, first_ms, machine) == Step::Issue(first),
        step_spec(first, second_ms, machine) == Step::Issue(second),
    ensures
        second > first,
        first >= 0,
{
    lemma_issued_fields(last_id, first_ms, machine);
    let now = first_ms as int - EPOCH as int;
    if now == timestamp_of(last_id) {
        lemma_fields_of_packed(now, machine as int, sequence_of(last_id) + 1);
    } else {
        lemma_fields_of_packed(now, machine as int, 0);
    }
    lemma_issued_is_greater(first, second_ms, machine);
}

/// The identifier is the one that the rule issues behind `last_id` at the
/// time `wall_ms`. It then carries the machine and a sequence number within
/// range; and where the time fits below the sign bit, it is positive and
/// its timestamp is that time, counted from the epoch of 2000.
pub open spec fn issued_for(id: i64, last_id: i64, wall_ms: u64, machine: u8) -> bool {
    &&& step_spec(last_id, wall_ms, machine) == Step::Issue(id)
    &&& machine_of(id) == machine
    &&& sequence_of(id) <= MAX_SEQ
    &&& (wall_ms as int) - (EPOCH as int) < 0x800_0000_0000 ==> id > 0 && timestamp_of(id)
        == (wall_ms as int) - (EPOCH as int)
}

/// Whatever the rule issues is issued with all that `issued_for` says of it:
/// the machine, the sequence bound, and a positive value with the clock's
/// time as long as that time fits below the sign bit.
pub proof fn lemma_issued_for(last_id: i64, wall_ms: u64, machine: u8)
    ensures
        step_spec(last_id, wall_ms, machine) matches Step::Issue(id) ==> issued_for(
            id,
            last_id,
            wall_ms,
            machine,
        ),
{
    let now = wall_ms as int - EPOCH as int;
    lemma_issued_fields(last_id, wall_ms, machine);
    if now >= timestamp_of(last_id) {
        if now == timestamp_of(last_id) {
            if sequence_of(last_id) + 1 <= MAX_SEQ as int {
                lemma_fields_of_packed(now, machine as int, sequence_of(last_id) + 1);
            }
        } else {
            lemma_fields_of_packed(now, machine as int, 0);
        }
    }
}

/// The shared state from which a process issues its identifiers.
pub struct Generator {
    pub last: AtomicI64,
    pub machine: u8,
}

/// How one attempt to issue an identifier ended.
pub enum Attempt {
    /// The identifier was published and is the caller's.
    Issued(i64),
    /// Another caller won, or the millisecond is used up.
    Retry,
    /// The clock shows a time before the last identifier's.
    ClockBackwards,
}

/// A reading of the system clock, taken as it is.
#[verifier::external_type_specification]
#[verifier::external_body]
pub struct ExSystemTime(std::time::SystemTime);

/// `SystemTime::now`: the wall clock. Nothing is claimed of the value.
#[verifier::external_body]
fn clock_now() -> std::time::SystemTime {
    std::time::SystemTime::now()
}

/// `SystemTime::duration_since` the UNIX epoch: the time passed since it,
/// or nothing where the clock stands before it.
#[verifier::external_body]
fn since_unix_epoch(t: &std::time::SystemTime) -> Option<std::time::Duration> {
    match t.duration_since(std::time::SystemTime::UNIX_EPOCH) {
        Ok(d) => Some(d),
        Err(_) => None,
    }
}

/// `Duration::as_millis`: the whole milliseconds of a duration.
#[verifier::external_body]
fn whole_millis(d: &std::time::Duration) -> u128 {
    d.as_millis()
}

/// The wall clock in milliseconds since the UNIX epoch, in 64 bits, or
/// nothing where the clock stands before that epoch.
fn wall_clock_millis() -> Option<u64> {
    let now = clock_now();
    let since_epoch: Option<u128> = match since_unix_epoch(&now) {
        Some(d) => Some(whole_millis(&d)),
        None => None,
    };
    clock_reading(since_epoch)
}

/// `std::hint::spin_loop`: tells the processor that the caller is spinning.
#[verifier::external_body]
fn pause() {
    std::hint::spin_loop()
}

/// The reason given when the clock regressed.
pub open spec fn clock_backwards_text() -> Seq<char> {
    "Clock moved backwards"@
}

/// The reason given when the sequence stayed used up for as long as the
/// generator is willing to spin.
pub open spec fn exhausted_text() -> Seq<char> {
    "Sequence exhausted"@
}

impl Generator {
    /// A generator for the given machine that has issued nothing yet.
    pub fn new(machine: u8) -> (g: Generator)
        ensures
            g.machine == machine,
    {
        Generator { last: AtomicI64::new(0), machine }
    }

    /// Looks at the cell and the clock once, and publishes the identifier
    /// that the rule gives if no other caller came first. Whatever the cell
    /// and the clock showed and whoever won, the outcome is the one that
    /// `attempt_spec` gives for it.
    pub fn attempt(&self) -> (r: Attempt)
        ensures
            exists|last_id: i64, clock: Option<u64>, won: bool|
                r == #[trigger] attempt_spec(last_id, clock, won, self.machine),
            r matches Attempt::Issued(id) ==> exists|last_id: i64, wall_ms: u64|
                step_spec(last_id, wall_ms, self.machine) == Step::Issue(id),
    {
        let last_id: i64 = self.last.load(Ordering::Acquire);
        let clock = wall_clock_millis();
        match decide(last_id, clock, self.machine) {
            Step::ClockBackwards => {
                assert(Attempt::ClockBackwards == attempt_spec(
                    last_id,
                    clock,
                    false,
                    self.machine,
                ));
                Attempt::ClockBackwards
            },
            Step::Wait => {
                assert(Attempt::Retry == attempt_spec(last_id, clock, false, self.machine));
                Attempt::Retry
            },
            Step::Issue(id) => {
                let swapped = self.last.compare_exchange_weak(
                    last_id,
                    id,
                    Ordering::Release,
                    Ordering::Relaxed,
                );
                let won: bool = swapped.is_ok();
                let r = conclude(id, won);
                assert(r == attempt_spec(last_id, clock, won, self.machine));
                r
            },
        }
    }
}

/// The next identifier of this process, or the reason why there is none.
/// Spins while other callers win or the millisecond is used up, and gives
/// up with the second reason only after 2^64 - 1 attempts in a row.
pub fn next_id(generator: &Generator) -> (r: Result<i64, String>)
    ensures
        match r {
            Ok(id) => machine_of(id) == generator.machine && sequence_of(id) <= MAX_SEQ && (
            exists|last_id: i64, wall_ms: u64|
                #[trigger] issued_for(id, last_id, wall_ms, generator.machine)),
            Err(e) => e@ == clock_backwards_text() || e@ == exhausted_text(),
        },
{
    let mut budget: u64 = u64::MAX;
    while budget > 0
        decreases budget,
    {
        budget = budget - 1;
        match generator.attempt() {
            Attempt::Issued(id) => {
                proof {
                    let (last_id, wall_ms) = choose|last_id: i64, wall_ms: u64|
                        step_spec(last_id, wall_ms, generator.machine) == Step::Issue(id);
                    lemma_issued_fields(last_id, wall_ms, generator.machine);
                    lemma_issued_for(last_id, wall_ms, generator.machine);
                    assert(issued_for(id, last_id, wall_ms, generator.machine));
                }
                return Ok(id);
            },
            Attempt::ClockBackwards => {
                return Err("Clock moved backwards".to_owned());
            },
            Attempt::Retry => {
                pause();
            },
        }
    }
    Err("Sequence exhausted".to_owned())
}

/// The clock as the generator reads it: the low 64 bits of the whole
/// milliseconds since the UNIX epoch, and nothing for a clock that stands
/// before that epoch.
pub open spec fn clock_spec(since_epoch: Option<u128>) -> Option<u64> {
    match since_epoch {
        Some(ms) => Some((ms % 0x1_0000_0000_0000_0000) as u64),
        None => None,
    }
}

/// Turns the time since the UNIX epoch, as the system gave it, into the
/// clock as the generator reads it.
pub fn clock_reading(since_epoch: Option<u128>) -> (r: Option<u64>)
    ensures
        r == clock_spec(since_epoch),
{
    match since_epoch {
        Some(ms) => Some((ms % 0x1_0000_0000_0000_0000u128) as u64),
        None => None,
    }
}

/// What one look at the cell and the clock decides: the rule, where the
/// clock gave a time; a clock before the UNIX epoch has moved backwards.
pub open spec fn reading_spec(last_id: i64, clock: Option<u64>, machine: u8) -> Step {
    match clock {
        Some(wall_ms) => step_spec(last_id, wall_ms, machine),
        None => Step::ClockBackwards,
    }
}

/// Decides what follows `last_id` at the time that the clock gave, if it
/// gave one.
pub fn decide(last_id: i64, clock: Option<u64>, machine: u8) -> (r: Step)
    ensures
        r == reading_spec(last_id, clock, machine),
{
    match clock {
        Some(wall_ms) => advance(last_id, wall_ms, machine),
        None => Step::ClockBackwards,
    }
}

/// How an attempt ends that found `last_id` in the cell and `clock` on the
/// clock, and that won or lost the race to publish: a backward clock ends
/// it for good, a used-up millisecond and a lost race ask for another
/// attempt, and a won race issues what the rule gave.
pub open spec fn attempt_spec(last_id: i64, clock: Option<u64>, won: bool, machine: u8) -> Attempt {
    match reading_spec(last_id, clock, machine) {
        Step::ClockBackwards => Attempt::ClockBackwards,
        Step::Wait => Attempt::Retry,
        Step::Issue(id) => if won {
            Attempt::Issued(id)
        } else {
            Attempt::Retry
        },
    }
}

/// How an attempt to publish `id` ends: the identifier is the caller's
/// where the caller won, and another attempt is due where it lost.
pub fn conclude(id: i64, won: bool) -> (r: Attempt)
    ensures
        r == if won {
            Attempt::Issued(id)
        } else {
            Attempt::Retry
        },
{
    if won {
        Attempt::Issued(id)
    } else {
        Attempt::Retry
    }
}

} // verus!
