//! The buffers that input events are read into and boiled down to timestamps in.

use vstd::prelude::*;

verus! {

/// The number of bytes of an input event as a 64-bit kernel lays it out: seconds,
/// microseconds, type, code and value, in this order.
pub const EVENT_SIZE: usize = 24;

/// The number of events that a fresh buffer holds.
pub const SCRATCH_INITIAL_SIZE: usize = 32;

/// A time in seconds and microseconds.
#[derive(Clone, Copy, PartialEq, Eq, Debug)]
pub struct TimeVal {
    pub tv_sec: i64,
    pub tv_usec: i64,
}

/// An event of an input device.
#[derive(Clone, Copy, PartialEq, Eq, Debug)]
pub struct InputEvent {
    pub time: TimeVal,
    pub type_: u16,
    pub code: u16,
    pub value: i32,
}

/// In which order the bytes of a number lie in memory.
#[derive(Clone, Copy, PartialEq, Eq, Debug, Structural)]
pub enum ByteOrder {
    LowestFirst,
    HighestFirst,
}

/// The lower of two neighbouring parts of a number.
pub open spec fn lower(order: ByteOrder, first: int, second: int) -> int {
    if order == ByteOrder::LowestFirst {
        first
    } else {
        second
    }
}

/// The higher of two neighbouring parts of a number.
pub open spec fn higher(order: ByteOrder, first: int, second: int) -> int {
    if order == ByteOrder::LowestFirst {
        second
    } else {
        first
    }
}

/// The number in two bytes at `at`.
pub open spec fn number16(order: ByteOrder, b: Seq<u8>, at: int) -> int {
    let first = b[at] as int;
    let second = b[at + 1] as int;
    lower(order, first, second) + 0x100 * higher(order, first, second)
}

/// The number in four bytes at `at`.
pub open spec fn number32(order: ByteOrder, b: Seq<u8>, at: int) -> int {
    let first = number16(order, b, at);
    let second = number16(order, b, at + 2);
    lower(order, first, second) + 0x1_0000 * higher(order, first, second)
}

/// The number in eight bytes at `at`.
pub open spec fn number64(order: ByteOrder, b: Seq<u8>, at: int) -> int {
    let first = number32(order, b, at);
    let second = number32(order, b, at + 4);
    lower(order, first, second) + 0x1_0000_0000 * higher(order, first, second)
}

/// The two bytes of a number as they lie in memory.
///
/// Calls `u16::to_ne_bytes`: the bytes are those of the number, the lowest first or the
/// highest first. Which of the two it is depends on the machine and is left unsaid.
#[verifier::external_body]
fn memory_bytes(n: u16) -> (b: [u8; 2])
    ensures
        b@ == seq![(n % 0x100) as u8, (n / 0x100) as u8] || b@ == seq![
            (n / 0x100) as u8,
            (n % 0x100) as u8,
        ],
{
    n.to_ne_bytes()
}

/// The order that the bytes of the number one lie in.
pub fn order_of_one(bytes: [u8; 2]) -> (order: ByteOrder)
    ensures
        order == if bytes@[0] == 1 {
            ByteOrder::LowestFirst
        } else {
            ByteOrder::HighestFirst
        },
{
    if bytes[0] == 1 {
        ByteOrder::LowestFirst
    } else {
        ByteOrder::HighestFirst
    }
}

/// The number of which `n` is the two's complement pattern, where `bound` is the
/// number of patterns.
pub open spec fn signed(n: int, bound: int) -> int {
    if 2 * n >= bound {
        n - bound
    } else {
        n
    }
}

/// The event that starts at byte `at`.
pub open spec fn event_at(order: ByteOrder, b: Seq<u8>, at: int) -> InputEvent {
    InputEvent {
        time: TimeVal {
            tv_sec: signed(number64(order, b, at), 0x1_0000_0000_0000_0000) as i64,
            tv_usec: signed(number64(order, b, at + 8), 0x1_0000_0000_0000_0000) as i64,
        },
        type_: number16(order, b, at + 16) as u16,
        code: number16(order, b, at + 18) as u16,
        value: signed(number32(order, b, at + 20), 0x1_0000_0000) as i32,
    }
}

/// The events that a run of bytes holds.
pub open spec fn events_in(order: ByteOrder, b: Seq<u8>) -> Seq<InputEvent> {
    Seq::new(b.len() / EVENT_SIZE as nat, |i: int| event_at(order, b, EVENT_SIZE * i))
}

fn read_u16(order: ByteOrder, b: &Vec<u8>, at: usize) -> (n: u16)
    requires
        at + 2 <= b.len(),
    ensures
        n == number16(order, b@, at as int),
{
    let first: u16 = b[at] as u16;
    let second: u16 = b[at + 1] as u16;
    match order {
        ByteOrder::LowestFirst => first + 0x100 * second,
        ByteOrder::HighestFirst => second + 0x100 * first,
    }
}

fn read_u32(order: ByteOrder, b: &Vec<u8>, at: usize) -> (n: u32)
    requires
        at + 4 <= b.len(),
    ensures
        n == number32(order, b@, at as int),
{
    let first: u32 = read_u16(order, b, at) as u32;
    let second: u32 = read_u16(order, b, at + 2) as u32;
    match order {
        ByteOrder::LowestFirst => first + 0x1_0000 * second,
        ByteOrder::HighestFirst => second + 0x1_0000 * first,
    }
}

fn read_i64(order: ByteOrder, b: &Vec<u8>, at: usize) -> (n: i64)
    requires
        at + 8 <= b.len(),
    ensures
        n == signed(number64(order, b@, at as int), 0x1_0000_0000_0000_0000),
{
    let first: i64 = read_u32(order, b, at) as i64;
    let second: i64 = read_u32(order, b, at + 4) as i64;
    let (low, high): (i64, i64) = match order {
        ByteOrder::LowestFirst => (first, second),
        ByteOrder::HighestFirst => (second, first),
    };
    if high >= 0x8000_0000 {
        (high - 0x1_0000_0000) * 0x1_0000_0000 + low
    } else {
        high * 0x1_0000_0000 + low
    }
}

fn read_i32(order: ByteOrder, b: &Vec<u8>, at: usize) -> (n: i32)
    requires
        at + 4 <= b.len(),
    ensures
        n == signed(number32(order, b@, at as int), 0x1_0000_0000),
{
    let wide: i64 = read_u32(order, b, at) as i64;
    if wide >= 0x8000_0000 {
        (wide - 0x1_0000_0000) as i32
    } else {
        wide as i32
    }
}

/// The values of the verdicts that say to keep theirs.
pub open spec fn kept_values(verdicts: Seq<(bool, i64)>) -> Seq<i64>
    decreases verdicts.len(),
{
    if verdicts.len() == 0 {
        Seq::empty()
    } else if verdicts.last().0 {
        kept_values(verdicts.drop_last()).push(verdicts.last().1)
    } else {
        kept_values(verdicts.drop_last())
    }
}

/// Whether `f` may give these verdicts on these events, one after the other.
pub open spec fn may_judge<F: FnMut(&InputEvent) -> (bool, i64)>(
    f: F,
    events: Seq<InputEvent>,
    verdicts: Seq<(bool, i64)>,
) -> bool {
    &&& verdicts.len() == events.len()
    &&& forall|i: int|
        0 <= i < events.len() ==> call_ensures(f, (&events[i],), #[trigger] verdicts[i])
}

/// Whether two runs of timestamps are alike from `n` on.
pub open spec fn alike_from(a: Seq<i64>, b: Seq<i64>, n: int) -> bool {
    &&& a.len() == b.len()
    &&& forall|j: int| n <= j < a.len() ==> #[trigger] a[j] == b[j]
}

/// Runs that are alike from `n` on, of which the first starts with `kept`, are told apart
/// by nothing else.
pub(crate) proof fn lemma_alike_from(a: Seq<i64>, b: Seq<i64>, kept: Seq<i64>)
    requires
        kept.len() <= a.len(),
        a.take(kept.len() as int) == kept,
        alike_from(a, b, kept.len() as int),
    ensures
        a == kept + b.skip(kept.len() as int),
{
    let n = kept.len() as int;
    assert forall|j: int| 0 <= j < a.len() implies a[j] == (kept + b.skip(n))[j] by {
        if j < n {
            assert(a.take(n)[j] == kept[j]);
        }
    }
    assert(a =~= kept + b.skip(n));
}

/// Runs that are alike from `n` on are alike in front of where one of them was extended.
pub(crate) proof fn lemma_kept_in_front(a: Seq<i64>, b: Seq<i64>, start: Seq<i64>, n: int)
    requires
        0 <= n <= start.len() <= b.len(),
        b.take(start.len() as int) == start,
        alike_from(a, b, n),
    ensures
        a.take(start.len() as int) == a.take(n) + start.skip(n),
{
    let len = start.len() as int;
    assert forall|j: int| 0 <= j < len implies a.take(len)[j] == (a.take(n) + start.skip(n))[j] by {
        if j >= n {
            assert(b.take(len)[j] == start[j]);
            assert(a[j] == b[j]);
        }
    }
    assert(a.take(len) =~= a.take(n) + start.skip(n));
}

/// A read buffer, and a buffer of timestamps that has room for one timestamp per
/// event of the read buffer.
pub struct Scratch {
    order: ByteOrder,
    read_buf: Vec<u8>,
    timestamps_us: Vec<i64>,
}

impl Scratch {
    /// The order of the bytes in the read buffer.
    pub closed spec fn order(self) -> ByteOrder {
        self.order
    }

    /// The contents of the read buffer.
    pub closed spec fn bytes(self) -> Seq<u8> {
        self.read_buf@
    }

    /// The contents of the timestamp buffer.
    pub closed spec fn slots(self) -> Seq<i64> {
        self.timestamps_us@
    }

    /// The number of events that the buffers hold.
    pub open spec fn capacity(self) -> nat {
        self.slots().len()
    }

    /// The two buffers hold the same number of events.
    pub open spec fn wf(self) -> bool {
        self.bytes().len() == EVENT_SIZE * self.capacity()
    }

    /// Whether a read of `read` bytes fits the buffer, and leaves the buffer at a size
    /// that can be doubled if it filled it.
    pub open spec fn fits(self, read: int) -> bool {
        &&& 0 <= read <= self.bytes().len()
        &&& read == self.bytes().len() ==> 2 * self.bytes().len() <= usize::MAX
    }

    /// Whether a read of `read` bytes fits the buffer and is not torn.
    pub open spec fn can_record(self, read: int) -> bool {
        self.fits(read) && read % EVENT_SIZE as int == 0
    }

    /// The capacity after a read of `read` bytes: doubled if they filled the buffer.
    pub open spec fn capacity_after(self, read: int) -> nat {
        if read / EVENT_SIZE as int == self.capacity() {
            2 * self.capacity()
        } else {
            self.capacity()
        }
    }

    /// The events that the first `read` bytes hold.
    pub open spec fn read_events(self, read: int) -> Seq<InputEvent> {
        events_in(self.order(), self.bytes().take(read))
    }

    /// Buffers for events that are laid out as this machine does.
    pub fn new() -> (s: Self)
        ensures
            s.wf(),
            s.capacity() == 32,
    {
        Self::with_order(order_of_one(memory_bytes(1)))
    }

    /// Buffers for events whose bytes are in a given order.
    pub fn with_order(order: ByteOrder) -> (s: Self)
        ensures
            s.wf(),
            s.order() == order,
            s.capacity() == SCRATCH_INITIAL_SIZE,
    {
        Scratch {
            order,
            read_buf: vec![0u8; SCRATCH_INITIAL_SIZE * EVENT_SIZE],
            timestamps_us: vec![0i64; SCRATCH_INITIAL_SIZE],
        }
    }

    /// The read buffer, to be filled from its start.
    pub fn read_buffer_mut(&mut self) -> (b: &mut [u8])
        ensures
            b@ == old(self).bytes(),
            final(self).bytes() == final(b)@,
            final(self).slots() == old(self).slots(),
            final(self).order() == old(self).order(),
    {
        self.read_buf.as_mut_slice()
    }

    /// The length of the read buffer in bytes.
    pub fn read_buffer_len(&self) -> (n: usize)
        requires
            self.wf(),
        ensures
            n == self.bytes().len(),
            n == self.capacity() * EVENT_SIZE,
    {
        self.read_buf.len()
    }

    /// Whether `process` can go through a read of `read` bytes.
    pub fn can_process(&self, read: usize) -> (yes: bool)
        requires
            self.wf(),
        ensures
            yes == self.can_record(read as int),
    {
        read <= self.read_buf.len() && read % EVENT_SIZE == 0 && (read != self.read_buf.len()
            || self.read_buf.len() <= usize::MAX / 2)
    }

    /// Doubles the buffers if a read filled them.
    pub(crate) fn record_read(&mut self, read: usize)
        requires
            old(self).wf(),
            old(self).fits(read as int),
        ensures
            final(self).wf(),
            final(self).order() == old(self).order(),
            final(self).capacity() == old(self).capacity_after(read as int),
            final(self).bytes().take(old(self).bytes().len() as int) == old(self).bytes(),
            final(self).slots().take(old(self).slots().len() as int) == old(self).slots(),
    {
        let elements: usize = read / EVENT_SIZE;
        if elements == self.timestamps_us.len() {
            let bytes: usize = self.read_buf.len();
            self.read_buf.resize(bytes * 2, 0u8);
            self.timestamps_us.resize(elements * 2, 0i64);
        }
        assert(self.read_buf@.take(old(self).read_buf@.len() as int) =~= old(self).read_buf@);
        assert(self.timestamps_us@.take(old(self).timestamps_us@.len() as int) =~= old(
            self,
        ).timestamps_us@);
    }

    /// The `i`-th event of the read buffer.
    pub(crate) fn event(&self, i: usize) -> (ev: InputEvent)
        requires
            EVENT_SIZE * (i + 1) <= self.bytes().len(),
        ensures
            ev == event_at(self.order(), self.bytes(), EVENT_SIZE * i),
    {
        assert(self.read_buf.len() >= EVENT_SIZE * (i + 1));
        let at: usize = EVENT_SIZE * i;
        InputEvent {
            time: TimeVal {
                tv_sec: read_i64(self.order, &self.read_buf, at),
                tv_usec: read_i64(self.order, &self.read_buf, at + 8),
            },
            type_: read_u16(self.order, &self.read_buf, at + 16),
            code: read_u16(self.order, &self.read_buf, at + 18),
            value: read_i32(self.order, &self.read_buf, at + 20),
        }
    }

    /// Puts a timestamp into a slot.
    pub(crate) fn store(&mut self, ix: usize, ts_us: i64)
        requires
            ix < old(self).capacity(),
        ensures
            final(self).order() == old(self).order(),
            final(self).bytes() == old(self).bytes(),
            final(self).slots() == old(self).slots().update(ix as int, ts_us),
    {
        self.timestamps_us.set(ix, ts_us);
    }

    /// The first `count` timestamps.
    pub(crate) fn stored(&self, count: usize) -> (ts: &[i64])
        requires
            count <= self.capacity(),
        ensures
            ts@ == self.slots().take(count as int),
    {
        let ts = vstd::slice::slice_subrange(self.timestamps_us.as_slice(), 0, count);
        assert(ts@ =~= self.timestamps_us@.take(count as int));
        ts
    }

    /// Notes the verdict on one more event.
    fn record_verdict(
        &mut self,
        ix: usize,
        verdict: (bool, i64),
        Ghost(verdicts): Ghost<Seq<(bool, i64)>>,
    ) -> (next: usize)
        requires
            ix < old(self).capacity(),
            old(self).slots().take(ix as int) == kept_values(verdicts),
        ensures
            final(self).order() == old(self).order(),
            final(self).bytes() == old(self).bytes(),
            alike_from(final(self).slots(), old(self).slots(), next as int),
            ix <= next <= ix + 1,
            final(self).slots().take(next as int) == kept_values(verdicts.push(verdict)),
    {
        assert(verdicts.push(verdict).drop_last() =~= verdicts);
        assert(ix < self.timestamps_us.len());
        if verdict.0 {
            self.store(ix, verdict.1);
            assert(self.slots().take(ix + 1) =~= old(self).slots().take(ix as int).push(verdict.1));
            ix + 1
        } else {
            ix
        }
    }

    /// Lets `f` judge events that are given apart from the read buffer, and hands
    /// out the values that it says to keep.
    pub fn process_input_events<F>(&mut self, input: &[InputEvent], f: F) -> (ts: &[i64]) where
        F: FnMut(&InputEvent) -> (bool, i64),

        requires
            old(self).wf(),
            input@.len() <= old(self).capacity(),
            forall|i: int| 0 <= i < input@.len() ==> call_requires(f, (#[trigger] &input@[i],)),
        ensures
            final(self).wf(),
            final(self).order() == old(self).order(),
            final(self).bytes() == old(self).bytes(),
            final(self).capacity() == old(self).capacity(),
            ts@.len() <= input@.len(),
            final(self).slots() == ts@ + old(self).slots().skip(ts@.len() as int),
            exists|verdicts: Seq<(bool, i64)>| #[trigger]
                may_judge(f, input@, verdicts) && ts@ == kept_values(verdicts),
    {
        let ghost judge = f;
        let mut f = f;
        let mut ix: usize = 0;
        let mut i: usize = 0;
        let ghost mut verdicts: Seq<(bool, i64)> = Seq::empty();
        assert(self.slots().take(0) =~= kept_values(verdicts));
        while i < input.len()
            invariant
                ix <= i <= input.len(),
                f == judge,
                input@.len() <= self.capacity(),
                self.wf(),
                self.order() == old(self).order(),
                self.bytes() == old(self).bytes(),
                alike_from(self.slots(), old(self).slots(), ix as int),
                forall|i: int| 0 <= i < input@.len() ==> call_requires(judge, (#[trigger] &input@[i],)),
                may_judge(judge, input@.take(i as int), verdicts),
                self.slots().take(ix as int) == kept_values(verdicts),
            decreases input.len() - i,
        {
            let ev = &input[i];
            assert(*ev == input@[i as int]);
            let verdict: (bool, i64) = f(ev);
            ix = self.record_verdict(ix, verdict, Ghost(verdicts));
            proof {
                verdicts = verdicts.push(verdict);
            }
            i = i + 1;
        }
        assert(input@.take(i as int) =~= input@);
        proof {
            lemma_alike_from(self.slots(), old(self).slots(), self.slots().take(ix as int));
        }
        self.stored(ix)
    }

    /// Lets `f` judge the events of a read of `read` bytes, and hands out the values
    /// that it says to keep. A read that filled the buffer has it doubled.
    pub fn process<F>(&mut self, read: usize, f: F) -> (ts: &[i64]) where
        F: FnMut(&InputEvent) -> (bool, i64),

        requires
            old(self).wf(),
            old(self).can_record(read as int),
            forall|i: int|
                0 <= i < old(self).read_events(read as int).len() ==> call_requires(
                    f,
                    (#[trigger] &old(self).read_events(read as int)[i],),
                ),
        ensures
            final(self).wf(),
            final(self).order() == old(self).order(),
            final(self).capacity() == old(self).capacity_after(read as int),
            final(self).bytes().take(old(self).bytes().len() as int) == old(self).bytes(),
            ts@.len() <= read / EVENT_SIZE,
            final(self).slots().take(old(self).slots().len() as int) == ts@ + old(
                self,
            ).slots().skip(ts@.len() as int),
            exists|verdicts: Seq<(bool, i64)>| #[trigger]
                may_judge(f, old(self).read_events(read as int), verdicts) && ts@ == kept_values(
                    verdicts,
                ),
    {
        self.record_read(read);
        let ghost events = old(self).read_events(read as int);
        let ghost judge = f;
        let ghost bytes = self.bytes();
        let ghost slots = self.slots();
        assert(bytes.take(read as int) =~= old(self).bytes().take(read as int));
        let count: usize = read / EVENT_SIZE;
        let mut f = f;
        let mut ix: usize = 0;
        let mut i: usize = 0;
        let ghost mut verdicts: Seq<(bool, i64)> = Seq::empty();
        assert(self.slots().take(0) =~= kept_values(verdicts));
        while i < count
            invariant
                ix <= i <= count,
                count == events.len(),
                f == judge,
                count * EVENT_SIZE <= read <= bytes.len(),
                events == events_in(self.order(), bytes.take(read as int)),
                count <= self.capacity(),
                self.wf(),
                self.order() == old(self).order(),
                self.bytes() == bytes,
                alike_from(self.slots(), slots, ix as int),
                forall|i: int| 0 <= i < events.len() ==> call_requires(judge, (#[trigger] &events[i],)),
                may_judge(judge, events.take(i as int), verdicts),
                self.slots().take(ix as int) == kept_values(verdicts),
            decreases count - i,
        {
            let ev: InputEvent = self.event(i);
            proof {
                lemma_event_prefix(self.order(), bytes, read as int, EVENT_SIZE * i);
            }
            assert(ev == events[i as int]);
            let verdict: (bool, i64) = f(&ev);
            ix = self.record_verdict(ix, verdict, Ghost(verdicts));
            proof {
                verdicts = verdicts.push(verdict);
            }
            i = i + 1;
        }
        assert(events.take(i as int) =~= events);
        proof {
            lemma_kept_in_front(self.slots(), slots, old(self).slots(), ix as int);
        }
        self.stored(ix)
    }
}

/// An event that lies within the first `n` bytes depends on no other bytes.
pub proof fn lemma_event_prefix(order: ByteOrder, b: Seq<u8>, n: int, at: int)
    requires
        0 <= at,
        at + EVENT_SIZE <= n <= b.len(),
    ensures
        event_at(order, b.take(n), at) == event_at(order, b, at),
{
}

/// Two parts of a number in the order that they lie in memory.
pub open spec fn placed(order: ByteOrder, low: Seq<u8>, high: Seq<u8>) -> Seq<u8> {
    if order == ByteOrder::LowestFirst {
        low + high
    } else {
        high + low
    }
}

/// The two bytes of a number.
pub open spec fn bytes16(order: ByteOrder, n: int) -> Seq<u8> {
    placed(order, seq![(n % 0x100) as u8], seq![(n / 0x100) as u8])
}

/// The four bytes of a number.
pub open spec fn bytes32(order: ByteOrder, n: int) -> Seq<u8> {
    placed(order, bytes16(order, n % 0x1_0000), bytes16(order, n / 0x1_0000))
}

/// The eight bytes of a number.
pub open spec fn bytes64(order: ByteOrder, n: int) -> Seq<u8> {
    placed(order, bytes32(order, n % 0x1_0000_0000), bytes32(order, n / 0x1_0000_0000))
}

/// The two's complement pattern of a number, where `bound` is the number of patterns.
pub open spec fn pattern(n: int, bound: int) -> int {
    if n < 0 {
        n + bound
    } else {
        n
    }
}

/// The bytes of an event.
#[verifier::opaque]
pub open spec fn event_bytes(order: ByteOrder, ev: InputEvent) -> Seq<u8> {
    bytes64(order, pattern(ev.time.tv_sec as int, 0x1_0000_0000_0000_0000)) + bytes64(
        order,
        pattern(ev.time.tv_usec as int, 0x1_0000_0000_0000_0000),
    ) + bytes16(order, ev.type_ as int) + bytes16(order, ev.code as int) + bytes32(
        order,
        pattern(ev.value as int, 0x1_0000_0000),
    )
}

/// The bytes of events.
pub open spec fn events_bytes(order: ByteOrder, events: Seq<InputEvent>) -> Seq<u8>
    decreases events.len(),
{
    if events.len() == 0 {
        Seq::empty()
    } else {
        events_bytes(order, events.drop_last()) + event_bytes(order, events.last())
    }
}

/// Two bytes give back their number.
proof fn lemma_number16(order: ByteOrder, b: Seq<u8>, at: int, n: int)
    requires
        0 <= at,
        at + 2 <= b.len(),
        0 <= n < 0x1_0000,
        b.subrange(at, at + 2) == bytes16(order, n),
    ensures
        number16(order, b, at) == n,
{
    let s = b.subrange(at, at + 2);
    assert(s[0] == b[at] && s[1] == b[at + 1]);
    assert(0 <= n % 0x100 < 0x100 && 0 <= n / 0x100 < 0x100);
}

/// Four bytes give back their number.
proof fn lemma_number32(order: ByteOrder, b: Seq<u8>, at: int, n: int)
    requires
        0 <= at,
        at + 4 <= b.len(),
        0 <= n < 0x1_0000_0000,
        b.subrange(at, at + 4) == bytes32(order, n),
    ensures
        number32(order, b, at) == n,
{
    let low = n % 0x1_0000;
    let high = n / 0x1_0000;
    let s = b.subrange(at, at + 4);
    assert(b.subrange(at, at + 2) =~= s.subrange(0, 2));
    assert(b.subrange(at + 2, at + 4) =~= s.subrange(2, 4));
    if order == ByteOrder::LowestFirst {
        assert(s.subrange(0, 2) =~= bytes16(order, low));
        assert(s.subrange(2, 4) =~= bytes16(order, high));
        lemma_number16(order, b, at, low);
        lemma_number16(order, b, at + 2, high);
    } else {
        assert(s.subrange(0, 2) =~= bytes16(order, high));
        assert(s.subrange(2, 4) =~= bytes16(order, low));
        lemma_number16(order, b, at, high);
        lemma_number16(order, b, at + 2, low);
    }
}

/// Eight bytes give back their number.
proof fn lemma_number64(order: ByteOrder, b: Seq<u8>, at: int, n: int)
    requires
        0 <= at,
        at + 8 <= b.len(),
        0 <= n < 0x1_0000_0000_0000_0000,
        b.subrange(at, at + 8) == bytes64(order, n),
    ensures
        number64(order, b, at) == n,
{
    let low = n % 0x1_0000_0000;
    let high = n / 0x1_0000_0000;
    let s = b.subrange(at, at + 8);
    assert(b.subrange(at, at + 4) =~= s.subrange(0, 4));
    assert(b.subrange(at + 4, at + 8) =~= s.subrange(4, 8));
    if order == ByteOrder::LowestFirst {
        assert(s.subrange(0, 4) =~= bytes32(order, low));
        assert(s.subrange(4, 8) =~= bytes32(order, high));
        lemma_number32(order, b, at, low);
        lemma_number32(order, b, at + 4, high);
    } else {
        assert(s.subrange(0, 4) =~= bytes32(order, high));
        assert(s.subrange(4, 8) =~= bytes32(order, low));
        lemma_number32(order, b, at, high);
        lemma_number32(order, b, at + 4, low);
    }
}

/// The bytes of an event give back the event.
pub proof fn law_bytes_give_back_the_event(order: ByteOrder, b: Seq<u8>, at: int, ev: InputEvent)
    requires
        0 <= at,
        at + EVENT_SIZE <= b.len(),
        b.subrange(at, at + EVENT_SIZE) == event_bytes(order, ev),
    ensures
        event_at(order, b, at) == ev,
{
    reveal(event_bytes);
    let s = b.subrange(at, at + EVENT_SIZE);
    let sec = pattern(ev.time.tv_sec as int, 0x1_0000_0000_0000_0000);
    let usec = pattern(ev.time.tv_usec as int, 0x1_0000_0000_0000_0000);
    let value = pattern(ev.value as int, 0x1_0000_0000);
    assert(b.subrange(at, at + 8) =~= s.subrange(0, 8));
    assert(b.subrange(at + 8, at + 16) =~= s.subrange(8, 16));
    assert(b.subrange(at + 16, at + 18) =~= s.subrange(16, 18));
    assert(b.subrange(at + 18, at + 20) =~= s.subrange(18, 20));
    assert(b.subrange(at + 20, at + 24) =~= s.subrange(20, 24));
    assert(s.subrange(0, 8) =~= bytes64(order, sec));
    assert(s.subrange(8, 16) =~= bytes64(order, usec));
    assert(s.subrange(16, 18) =~= bytes16(order, ev.type_ as int));
    assert(s.subrange(18, 20) =~= bytes16(order, ev.code as int));
    assert(s.subrange(20, 24) =~= bytes32(order, value));
    lemma_number64(order, b, at, sec);
    lemma_number64(order, b, at + 8, usec);
    lemma_number16(order, b, at + 16, ev.type_ as int);
    lemma_number16(order, b, at + 18, ev.code as int);
    lemma_number32(order, b, at + 20, value);
}

/// An event has as many bytes as every other.
proof fn lemma_event_len(order: ByteOrder, ev: InputEvent)
    ensures
        event_bytes(order, ev).len() == EVENT_SIZE,
{
    reveal(event_bytes);
}

/// Where chunks lie when one more is put behind them.
proof fn lemma_chunk(front: Seq<u8>, chunk: Seq<u8>, m: int, i: int)
    requires
        0 <= i <= m,
        front.len() == EVENT_SIZE * m,
        chunk.len() == EVENT_SIZE,
    ensures
        (front + chunk).subrange(EVENT_SIZE * i, EVENT_SIZE * i + EVENT_SIZE) == if i < m {
            front.subrange(EVENT_SIZE * i, EVENT_SIZE * i + EVENT_SIZE)
        } else {
            chunk
        },
{
    let part = (front + chunk).subrange(EVENT_SIZE * i, EVENT_SIZE * i + EVENT_SIZE);
    if i < m {
        assert(part =~= front.subrange(EVENT_SIZE * i, EVENT_SIZE * i + EVENT_SIZE));
    } else {
        assert(part =~= chunk);
    }
}

/// How many bytes events have.
proof fn lemma_events_len(order: ByteOrder, events: Seq<InputEvent>)
    ensures
        events_bytes(order, events).len() == EVENT_SIZE * events.len(),
    decreases events.len(),
{
    if events.len() > 0 {
        lemma_events_len(order, events.drop_last());
        lemma_event_len(order, events.last());
    }
}

/// Where the bytes of an event lie.
proof fn lemma_bytes_of_event(order: ByteOrder, events: Seq<InputEvent>, i: int)
    requires
        0 <= i < events.len(),
    ensures
        events_bytes(order, events).subrange(EVENT_SIZE * i, EVENT_SIZE * i + EVENT_SIZE)
            == event_bytes(order, events[i]),
    decreases events.len(),
{
    let rest = events.drop_last();
    lemma_events_len(order, rest);
    lemma_event_len(order, events.last());
    lemma_chunk(
        events_bytes(order, rest),
        event_bytes(order, events.last()),
        rest.len() as int,
        i,
    );
    if i < rest.len() {
        lemma_bytes_of_event(order, rest, i);
    }
}

/// The bytes of events give back the events.
pub proof fn law_bytes_give_back_the_events(order: ByteOrder, events: Seq<InputEvent>)
    ensures
        events_in(order, events_bytes(order, events)) == events,
{
    let b = events_bytes(order, events);
    lemma_events_len(order, events);
    assert forall|i: int| 0 <= i < events.len() implies event_at(order, b, EVENT_SIZE * i)
        == events[i] by {
        lemma_bytes_of_event(order, events, i);
        law_bytes_give_back_the_event(order, b, EVENT_SIZE * i, events[i]);
    }
    assert(events_in(order, b) =~= events);
}

/// Eight bytes read with the first as the lowest.
pub open spec fn from_lowest64(b: Seq<u8>, p: int) -> int {
    b[p] + 0x100 * b[p + 1] + 0x1_0000 * b[p + 2] + 0x100_0000 * b[p + 3] + 0x1_0000_0000 * b[p + 4]
        + 0x100_0000_0000 * b[p + 5] + 0x1_0000_0000_0000 * b[p + 6] + 0x100_0000_0000_0000 * b[p
        + 7]
}

/// Eight bytes read with the first as the highest.
pub open spec fn from_highest64(b: Seq<u8>, p: int) -> int {
    b[p + 7] + 0x100 * b[p + 6] + 0x1_0000 * b[p + 5] + 0x100_0000 * b[p + 4] + 0x1_0000_0000 * b[p
        + 3] + 0x100_0000_0000 * b[p + 2] + 0x1_0000_0000_0000 * b[p + 1] + 0x100_0000_0000_0000
        * b[p]
}

/// An event is laid out as the kernel does it: eight bytes of seconds, eight of
/// microseconds, two of type, two of code and four of value, each with its lowest byte
/// first, or each with its highest byte first; what is larger than half its range stands
/// for a negative number.
pub proof fn law_event_is_laid_out_as_the_kernel_does(order: ByteOrder, b: Seq<u8>, at: int)
    requires
        0 <= at,
        at + 24 <= b.len(),
    ensures
        ({
            let ev = event_at(order, b, at);
            let low = order == ByteOrder::LowestFirst;
            let sec = if low { from_lowest64(b, at) } else { from_highest64(b, at) };
            let usec = if low { from_lowest64(b, at + 8) } else { from_highest64(b, at + 8) };
            let value = if low {
                b[at + 20] + 0x100 * b[at + 21] + 0x1_0000 * b[at + 22] + 0x100_0000 * b[at + 23]
            } else {
                b[at + 23] + 0x100 * b[at + 22] + 0x1_0000 * b[at + 21] + 0x100_0000 * b[at + 20]
            };
            &&& ev.time.tv_sec == if sec >= 0x8000_0000_0000_0000 {
                sec - 0x1_0000_0000_0000_0000
            } else {
                sec
            }
            &&& ev.time.tv_usec == if usec >= 0x8000_0000_0000_0000 {
                usec - 0x1_0000_0000_0000_0000
            } else {
                usec
            }
            &&& ev.type_ == if low {
                b[at + 16] + 0x100 * b[at + 17]
            } else {
                b[at + 17] + 0x100 * b[at + 16]
            }
            &&& ev.code == if low {
                b[at + 18] + 0x100 * b[at + 19]
            } else {
                b[at + 19] + 0x100 * b[at + 18]
            }
            &&& ev.value == if value >= 0x8000_0000 {
                value - 0x1_0000_0000
            } else {
                value
            }
        }),
{
}

/// Events lie one behind the other, 24 bytes each.
pub proof fn law_events_lie_one_behind_the_other(order: ByteOrder, b: Seq<u8>)
    ensures
        events_in(order, b).len() == b.len() / 24,
        forall|i: int|
            0 <= i < b.len() / 24 ==> #[trigger] events_in(order, b)[i] == event_at(
                order,
                b,
                24 * i,
            ),
{
}

/// A read holds the events of its bytes.
pub proof fn law_read_holds_the_events_of_its_bytes(scratch: Scratch, read: int)
    ensures
        scratch.read_events(read) == events_in(scratch.order(), scratch.bytes().take(read)),
{
}

/// The values that are kept are those of the verdicts that say so, in their order.
pub proof fn law_kept_are_the_values_to_keep(verdicts: Seq<(bool, i64)>)
    ensures
        kept_values(verdicts) == verdicts.filter(|v: (bool, i64)| v.0).map_values(
            |v: (bool, i64)| v.1,
        ),
    decreases verdicts.len(),
{
    reveal(Seq::filter);
    let keep = |v: (bool, i64)| v.0;
    let value = |v: (bool, i64)| v.1;
    if verdicts.len() > 0 {
        law_kept_are_the_values_to_keep(verdicts.drop_last());
        let rest = verdicts.drop_last().filter(keep);
        assert(rest.push(verdicts.last()).map_values(value) =~= rest.map_values(value).push(
            verdicts.last().1,
        ));
    }
    assert(kept_values(verdicts) =~= verdicts.filter(keep).map_values(value));
}

/// A verdict on each event, in their order, is one that the judge may give.
pub proof fn law_every_event_is_judged<F: FnMut(&InputEvent) -> (bool, i64)>(
    f: F,
    events: Seq<InputEvent>,
    verdicts: Seq<(bool, i64)>,
)
    requires
        may_judge(f, events, verdicts),
    ensures
        verdicts.len() == events.len(),
        forall|i: int|
            0 <= i < events.len() ==> call_ensures(f, (&events[i],), #[trigger] verdicts[i]),
{
}

/// A read that fills the buffer has it doubled, and no other.
pub proof fn law_full_read_doubles_the_buffer(scratch: Scratch, read: int)
    requires
        scratch.wf(),
        0 <= read <= scratch.bytes().len(),
    ensures
        read == scratch.bytes().len() ==> scratch.capacity_after(read) == 2 * scratch.capacity(),
        read < scratch.bytes().len() ==> scratch.capacity_after(read) == scratch.capacity(),
        24 * scratch.capacity() == scratch.bytes().len(),
{
}

/// A read of whole events that fits the buffer can be gone through, where the buffer could
/// be doubled; a torn read cannot.
pub proof fn law_whole_events_can_be_recorded(scratch: Scratch, read: int)
    requires
        2 * scratch.bytes().len() <= usize::MAX,
    ensures
        scratch.can_record(read) <==> 0 <= read <= scratch.bytes().len() && read % 24 == 0,
        scratch.fits(read) <==> 0 <= read <= scratch.bytes().len(),
{
}

} // verus!
