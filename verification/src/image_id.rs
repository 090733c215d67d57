//! The numbers by which a terminal knows the images that it was sent.

use vstd::prelude::*;

verus! {

/// A point in time.
#[verifier::external_type_specification]
#[verifier::external_body]
pub struct ExSystemTime(std::time::SystemTime);

/// `std::time::SystemTime::now` reads the clock: nothing is known of what it gives.
pub assume_specification[ std::time::SystemTime::now ]() -> std::time::SystemTime
;

/// The nanoseconds of a duration.
pub uninterp spec fn nanos_of(duration: std::time::Duration) -> u128;

/// `std::time::Duration::as_nanos` counts the nanoseconds of a duration: the same ones for
/// the same duration.
pub assume_specification[ std::time::Duration::as_nanos ](duration: &std::time::Duration) -> (r:
    u128)
    ensures
        r == nanos_of(*duration),
;

/// How long after the start of 1970 a point in time is; nothing for one before it.
pub uninterp spec fn time_since_epoch(time: std::time::SystemTime) -> Option<std::time::Duration>;

/// Calls `std::time::SystemTime::duration_since` for the time since 1970; there is none
/// where the clock stands before that.
///
/// Trusted: the result depends on the point in time alone.
#[verifier::external_body]
fn since_epoch(time: &std::time::SystemTime) -> (r: Option<std::time::Duration>)
    ensures
        r == time_since_epoch(*time),
{
    time.duration_since(std::time::UNIX_EPOCH).ok()
}

/// The lowest 64 bits of a time in nanoseconds, or 0 where there is none.
pub open spec fn low_nanos(nanos: Option<u128>) -> int {
    match nanos {
        Some(nanos) => nanos as int % 0x1_0000_0000_0000_0000,
        None => 0,
    }
}

/// What a clock that stands at `time` is read as: the nanoseconds since 1970 in 64 bits, or 0
/// before 1970.
pub open spec fn reading(time: std::time::SystemTime) -> int {
    low_nanos(
        match time_since_epoch(time) {
            Some(duration) => Some(nanos_of(duration)),
            None => None,
        },
    )
}

/// `nanos` is what a clock is read as at some point in time.
pub open spec fn is_reading(nanos: u64) -> bool {
    exists|time: std::time::SystemTime| nanos == #[trigger] reading(time)
}

/// `x` with its bits moved up by `n` and those that leave at the top put in at the bottom.
pub open spec fn rotated(x: u32, n: u32) -> u32 {
    (x << n) | (x >> ((32 - n) as u32))
}

/// The number of an image, mixed from the time, the process and a counter. The two highest
/// bits are fixed.
pub open spec fn image_id(nanos: u64, pid: u32, counter: u32) -> u32 {
    ((nanos as u32 ^ rotated((nanos >> 32) as u32, 7) ^ rotated(pid, 13) ^ rotated(counter, 23))
        & 0x3fff_ffff) | 0x4000_0000
}

/// The numbers that were drawn so far: the clock as it stood at each draw.
pub ghost struct IdLog {
    pub pid: u32,
    pub clock: Seq<u64>,
}

/// The number that is taken in place of `id` where `id` would repeat the one before it.
pub open spec fn neighbor(id: u32) -> u32 {
    id ^ 1
}

impl IdLog {
    /// The number that was drawn after `n` others: the mixed one, or its neighbor where that
    /// was the number before it.
    pub open spec fn id(self, n: int) -> u32
        decreases n,
    {
        let mixed = image_id(self.clock[n], self.pid, ((n + 1) % 0x1_0000_0000) as u32);
        if n > 0 && mixed == self.id(n - 1) {
            neighbor(mixed)
        } else {
            mixed
        }
    }

    /// `later` holds the draws of `self` and maybe more.
    pub open spec fn extends_to(self, later: IdLog) -> bool {
        self.pid == later.pid && self.clock.is_prefix_of(later.clock)
    }
}

/// A source of image numbers for one process.
pub struct ImageIds {
    pid: u32,
    counter: u32,
    last: Option<u32>,
    clock: Ghost<Seq<u64>>,
}

impl View for ImageIds {
    type V = IdLog;

    closed spec fn view(&self) -> IdLog {
        IdLog { pid: self.pid, clock: self.clock@ }
    }
}

impl ImageIds {
    /// The counter counts the draws, and the last number is kept.
    #[verifier::type_invariant]
    spec fn wf(self) -> bool {
        &&& self.counter == self.clock@.len() % 0x1_0000_0000
        &&& self.last == if self.clock@.len() == 0 {
            None
        } else {
            Some(self@.id(self.clock@.len() - 1))
        }
    }

    /// The source for the process `pid`, from which nothing was drawn yet.
    pub fn new(pid: u32) -> (r: ImageIds)
        ensures
            r@.pid == pid,
            r@.clock.len() == 0,
    {
        ImageIds { pid, counter: 0, last: None, clock: Ghost(Seq::empty()) }
    }

    /// Draws a number at the current time. It is never the number that was drawn before it.
    pub fn next_kitty_image_id(&mut self) -> (r: u32)
        ensures
            old(self)@.extends_to(final(self)@),
            final(self)@.clock.len() == old(self)@.clock.len() + 1,
            is_reading(final(self)@.clock.last()),
            r == final(self)@.id(old(self)@.clock.len() as int),
            old(self)@.clock.len() > 0 ==> r != old(self)@.id(old(self)@.clock.len() - 1),
    {
        proof {
            use_type_invariant(&*self);
        }
        let nanos: u64 = unix_nanos();
        let counter: u32 = self.counter.wrapping_add(1);
        let id: u32 = distinct_image_id(mixed_image_id(nanos, self.pid, counter), self.last);
        let ghost before = self@;
        let ghost clock = self.clock@.push(nanos);
        let ghost log = IdLog { pid: self.pid, clock };
        proof {
            assert(before.clock =~= clock.subrange(0, before.clock.len() as int));
            if before.clock.len() > 0 {
                law_drawn_ids_are_kept(before, log, before.clock.len() - 1);
                law_successive_ids_differ(log, before.clock.len() as int);
            }
            assert(id == log.id(before.clock.len() as int));
        }
        *self = ImageIds { pid: self.pid, counter, last: Some(id), clock: Ghost(clock) };
        id
    }
}

/// Reads the clock: the nanoseconds since 1970 in 64 bits, or 0 where it stands before that.
fn unix_nanos() -> (r: u64)
    ensures
        is_reading(r),
{
    let now = std::time::SystemTime::now();
    let nanos: u64 = match since_epoch(&now) {
        Some(duration) => clock_nanos(Some(duration.as_nanos())),
        None => clock_nanos(None),
    };
    assert(nanos == reading(now));
    nanos
}

/// The lowest 64 bits of a time in nanoseconds, or 0 where there is none.
pub fn clock_nanos(nanos: Option<u128>) -> (r: u64)
    ensures
        r == low_nanos(nanos),
{
    match nanos {
        Some(nanos) => {
            let low: u64 = nanos as u64;
            assert(low == nanos % 0x1_0000_0000_0000_0000) by (bit_vector)
                requires
                    low == nanos as u64,
            ;
            low
        },
        None => 0,
    }
}

/// The number of an image, mixed from the time, the process and a counter.
pub fn mixed_image_id(nanos: u64, pid: u32, counter: u32) -> (r: u32)
    ensures
        r == image_id(nanos, pid, counter),
{
    let mixed: u32 = nanos as u32 ^ rotate_left((nanos >> 32) as u32, 7) ^ rotate_left(pid, 13)
        ^ rotate_left(counter, 23);
    (mixed & 0x3fff_ffff) | 0x4000_0000
}

/// The number `mixed`, or its neighbor where `mixed` was the last one.
pub fn distinct_image_id(mixed: u32, last: Option<u32>) -> (r: u32)
    ensures
        r == if last == Some(mixed) {
            neighbor(mixed)
        } else {
            mixed
        },
{
    if last == Some(mixed) {
        mixed ^ 1
    } else {
        mixed
    }
}

fn rotate_left(x: u32, n: u32) -> (r: u32)
    requires
        0 < n < 32,
    ensures
        r == rotated(x, n),
{
    (x << n) | (x >> (32 - n))
}

/// A mixed number is large: the next to highest bit is set, and the highest is not.
pub proof fn law_mixed_ids_are_large(nanos: u64, pid: u32, counter: u32)
    ensures
        0x4000_0000 <= image_id(nanos, pid, counter) <= 0x7fff_ffff,
{
    let mixed = nanos as u32 ^ rotated((nanos >> 32) as u32, 7) ^ rotated(pid, 13) ^ rotated(
        counter,
        23,
    );
    assert(0x4000_0000 <= (mixed & 0x3fff_ffff) | 0x4000_0000 <= 0x7fff_ffff) by (bit_vector);
}

/// Image numbers are large: none is 0 or 1, and all fit a positive 32-bit number.
pub proof fn law_image_ids_are_large(log: IdLog, n: int)
    ensures
        0x4000_0000 <= log.id(n) <= 0x7fff_ffff,
{
    let mixed = image_id(log.clock[n], log.pid, ((n + 1) % 0x1_0000_0000) as u32);
    law_mixed_ids_are_large(log.clock[n], log.pid, ((n + 1) % 0x1_0000_0000) as u32);
    assert(0x4000_0000 <= mixed ^ 1 <= 0x7fff_ffff) by (bit_vector)
        requires
            0x4000_0000 <= mixed <= 0x7fff_ffff,
    ;
}

/// Two numbers drawn one after the other differ, whatever the clock shows.
pub proof fn law_successive_ids_differ(log: IdLog, n: int)
    requires
        n > 0,
    ensures
        log.id(n) != log.id(n - 1),
{
    let mixed = image_id(log.clock[n], log.pid, ((n + 1) % 0x1_0000_0000) as u32);
    assert(mixed ^ 1 != mixed) by (bit_vector);
}

/// A number that was drawn stays the same when more are drawn.
pub proof fn law_drawn_ids_are_kept(log: IdLog, later: IdLog, n: int)
    requires
        log.extends_to(later),
        0 <= n < log.clock.len(),
    ensures
        log.id(n) == later.id(n),
    decreases n,
{
    assert(log.clock[n] == later.clock.subrange(0, log.clock.len() as int)[n]);
    if n > 0 {
        law_drawn_ids_are_kept(log, later, n - 1);
    }
}

/// Bit `i` of a number, counted from the lowest.
pub open spec fn has_bit(x: u64, i: u64) -> bool {
    (x >> i) & 1 == 1
}

/// A mixed number depends on the time, the process and the counter, bit by bit: each of its lowest
/// 30 bits is set where an odd number of these are, the same bit of the time, the bit 7 places
/// below it of the upper half of the time, the bit 13 places below it of the process and the bit
/// 23 places below it of the counter, each counted round in 32 bits.
pub proof fn law_mixed_ids_mix_all(nanos: u64, pid: u32, counter: u32, i: u64)
    requires
        i < 30,
    ensures
        has_bit(image_id(nanos, pid, counter) as u64, i) == (has_bit(nanos, i) != (has_bit(
            nanos,
            (32 + (i + 25) % 32) as u64,
        ) != (has_bit(pid as u64, ((i + 19) % 32) as u64) != has_bit(
            counter as u64,
            ((i + 9) % 32) as u64,
        )))),
        has_bit(image_id(nanos, pid, counter) as u64, 30),
        !has_bit(image_id(nanos, pid, counter) as u64, 31),
{
    let id = image_id(nanos, pid, counter);
    let (a, b, c) = (
        (32 + (i + 25) % 32) as u64,
        ((i + 19) % 32) as u64,
        ((i + 9) % 32) as u64,
    );
    lemma_mixed_bits(nanos, pid, counter, id, i, a, b, c);
}

proof fn lemma_mixed_bits(
    nanos: u64,
    pid: u32,
    counter: u32,
    id: u32,
    i: u64,
    a: u64,
    b: u64,
    c: u64,
)
    by (bit_vector)
    requires
        i < 30,
        a == 32 + (i + 25) % 32,
        b == (i + 19) % 32,
        c == (i + 9) % 32,
        id == ((nanos as u32 ^ (((nanos >> 32) as u32) << 7u32 | ((nanos >> 32) as u32) >> 25u32)
            ^ (pid << 13u32 | pid >> 19u32) ^ (counter << 23u32 | counter >> 9u32)) & 0x3fff_ffff)
            | 0x4000_0000,
    ensures
        ((id as u64 >> i) & 1 == 1) == (((nanos >> i) & 1 == 1) != (((nanos >> a) & 1 == 1) != (((
        pid as u64 >> b) & 1 == 1) != ((counter as u64 >> c) & 1 == 1)))),
        (id as u64 >> 30) & 1 == 1,
        !((id as u64 >> 31) & 1 == 1),
{
}

/// A number that is drawn is mixed from the clock, the process and how many were drawn, this one
/// included and counted modulo 2^32; only where that is the number before it, its lowest bit is
/// changed.
pub proof fn law_drawn_ids_are_mixed(log: IdLog, n: int, counter: u32)
    requires
        0 <= n < log.clock.len(),
        (n + 1 - counter) % 0x1_0000_0000 == 0,
    ensures
        ({
            let mixed = image_id(log.clock[n], log.pid, counter);
            if n > 0 && mixed == log.id(n - 1) {
                log.id(n) == mixed ^ 1
            } else {
                log.id(n) == mixed
            }
        }),
{
    assert((n + 1) % 0x1_0000_0000 == counter);
}

/// The clock is read modulo 2^64 nanoseconds, and as 0 before 1970.
pub proof fn law_clocks_are_read_in_64_bits(nanos: Option<u128>)
    ensures
        0 <= low_nanos(nanos) < 0x1_0000_0000_0000_0000,
        match nanos {
            Some(nanos) => (nanos - low_nanos(Some(nanos))) % 0x1_0000_0000_0000_0000 == 0,
            None => low_nanos(nanos) == 0,
        },
{
}

} // verus!
