//! Bounded FIFO queue of events with a power-of-two capacity.
use vstd::prelude::*;
use crate::event::StreamingEvent;

verus! {

/// Whether `n` is a power of two.
pub open spec fn is_pow2(n: nat) -> bool
    decreases n,
{
    if n == 1 {
        true
    } else if n < 2 || n % 2 != 0 {
        false
    } else {
        is_pow2((n / 2) as nat)
    }
}

/// The least power of two that is at least `n` (and at least 2).
pub open spec fn ring_capacity_for(n: nat, c: nat) -> bool {
    &&& is_pow2(c)
    &&& c >= 2
    &&& c >= n
    &&& (c == 2 || c / 2 < n)
}

/// The largest capacity a ring can be asked for.
pub const MAX_RING_CAPACITY: usize = 0x4000_0000;

/// Fixed-capacity ring of events; the producer is refused when it is full.
#[derive(Debug)]
pub struct EventRing {
    events: Vec<Option<StreamingEvent>>,
    read_pos: usize,
    write_pos: usize,
    count: usize,
    capacity: usize,
}

impl View for EventRing {
    type V = Seq<StreamingEvent>;

    /// The queued events, oldest first.
    closed spec fn view(&self) -> Seq<StreamingEvent> {
        Seq::new(self.count as nat, |i: int| self.events@[self.slot(i)]->Some_0)
    }
}

impl EventRing {
    /// The fixed number of slots.
    pub closed spec fn cap(&self) -> nat {
        self.capacity as nat
    }

    /// `x` folded back into the slot range, for `x < 2 * capacity`.
    closed spec fn wrap(&self, x: int) -> int {
        if x >= self.capacity {
            x - self.capacity
        } else {
            x
        }
    }

    /// Slot that holds the `i`-th queued event.
    closed spec fn slot(&self, i: int) -> int {
        self.wrap(self.read_pos + i)
    }

    /// How many slots after the read position slot `j` lies.
    closed spec fn dist(&self, j: int) -> int {
        if j >= self.read_pos {
            j - self.read_pos
        } else {
            j + self.capacity - self.read_pos
        }
    }

    /// Slots are laid out circularly: `count` live slots from `read_pos`, the
    /// others empty.
    pub closed spec fn wf(&self) -> bool {
        &&& self.capacity >= 2
        &&& is_pow2(self.capacity as nat)
        &&& self.events@.len() == self.capacity
        &&& self.read_pos < self.capacity
        &&& self.count <= self.capacity
        &&& self.write_pos == self.wrap(self.read_pos + self.count)
        &&& forall|j: int|
            0 <= j < self.capacity ==> ((#[trigger] self.events@[j]).is_some() <==> self.dist(j)
                < self.count)
    }

    /// A ring whose capacity is `min_capacity` rounded up to a power of two (at least 2).
    pub fn new(min_capacity: usize) -> (r: EventRing)
        requires
            min_capacity <= MAX_RING_CAPACITY,
        ensures
            r.wf(),
            r@ == Seq::<StreamingEvent>::empty(),
            ring_capacity_for(min_capacity as nat, r.cap()),
    {
        let mut capacity: usize = 2;
        assert(is_pow2(2)) by {
            reveal_with_fuel(is_pow2, 2);
        }
        while capacity < min_capacity
            invariant
                2 <= capacity <= 2 * MAX_RING_CAPACITY,
                is_pow2(capacity as nat),
                capacity == 2 || capacity / 2 < min_capacity,
                min_capacity <= MAX_RING_CAPACITY,
            decreases MAX_RING_CAPACITY * 2 - capacity,
        {
            assert(is_pow2((capacity * 2) as nat)) by {
                assert((capacity * 2) as nat / 2 == capacity as nat);
            }
            capacity = capacity * 2;
        }
        let mut events: Vec<Option<StreamingEvent>> = Vec::with_capacity(capacity);
        while events.len() < capacity
            invariant
                events.len() <= capacity,
                forall|j: int| 0 <= j < events.len() ==> (#[trigger] events@[j]).is_none(),
            decreases capacity - events.len(),
        {
            events.push(None);
        }
        let r = EventRing { events, read_pos: 0, write_pos: 0, count: 0, capacity };
        assert(r@ =~= Seq::<StreamingEvent>::empty());
        r
    }

    /// A ring of 1024 events.
    pub fn with_default_capacity() -> (r: EventRing)
        ensures
            r.wf(),
            r@ == Seq::<StreamingEvent>::empty(),
            r.cap() == 1024,
    {
        let r = EventRing::new(1024);
        assert(r.cap() == 1024) by {
            reveal_with_fuel(is_pow2, 12);
            if r.cap() < 1024 {
                assert(r.cap() / 2 < 1024);
            }
        }
        r
    }

    /// The number of slots.
    pub fn capacity(&self) -> (r: usize)
        ensures
            r == self.cap(),
    {
        self.capacity
    }

    /// Whether no slot is free.
    pub fn is_full(&self) -> (r: bool)
        requires
            self.wf(),
        ensures
            r == (self@.len() == self.cap()),
            self@.len() <= self.cap(),
    {
        self.count == self.capacity
    }

    /// Whether no event is queued.
    pub fn is_empty(&self) -> (r: bool)
        ensures
            r == (self@.len() == 0),
    {
        self.count == 0
    }

    /// Number of queued events.
    pub fn available(&self) -> (r: usize)
        ensures
            r == self@.len(),
    {
        self.count
    }

    /// Number of free slots.
    pub fn space(&self) -> (r: usize)
        requires
            self.wf(),
        ensures
            r == self.cap() - self@.len(),
    {
        self.capacity - self.count
    }

    proof fn lemma_slot(&self, i: int)
        requires
            self.wf(),
            0 <= i < self.count,
        ensures
            0 <= self.slot(i) < self.capacity,
            self.dist(self.slot(i)) == i,
            self.events@[self.slot(i)].is_some(),
    {
    }

    /// Append `event` at the back, or hand it back unchanged when the ring is full.
    pub fn try_push(&mut self, event: StreamingEvent) -> (r: Result<(), StreamingEvent>)
        requires
            old(self).wf(),
        ensures
            final(self).wf(),
            final(self).cap() == old(self).cap(),
            old(self)@.len() == old(self).cap() ==> r == Err::<(), StreamingEvent>(event)
                && final(self)@ == old(self)@,
            old(self)@.len() < old(self).cap() ==> r is Ok && final(self)@ == old(self)@.push(
                event,
            ),
    {
        if self.count == self.capacity {
            return Err(event);
        }
        let ghost old_self = *self;
        let c = self.capacity;
        let w = self.write_pos;
        assert(self.dist(w as int) == self.count);
        self.events.set(w, Some(event));
        self.write_pos = if w + 1 == c {
            0
        } else {
            w + 1
        };
        self.count = self.count + 1;
        proof {
            assert forall|j: int| 0 <= j < c implies ((#[trigger] self.events@[j]).is_some()
                <==> self.dist(j) < self.count) by {
                if j != w {
                    assert(old_self.events@[j] == self.events@[j]);
                }
            }
            assert forall|i: int| 0 <= i < old_self.count implies (#[trigger] self@[i])
                == old_self@[i] by {
                old_self.lemma_slot(i);
            }
            assert(self@ =~= old_self@.push(event));
        }
        Ok(())
    }

    /// Append `event`; the ring must have a free slot.
    pub fn push(&mut self, event: StreamingEvent)
        requires
            old(self).wf(),
            old(self)@.len() < old(self).cap(),
        ensures
            final(self).wf(),
            final(self).cap() == old(self).cap(),
            final(self)@ == old(self)@.push(event),
    {
        let _ = self.try_push(event);
    }

    /// Remove and return the oldest event, if any; its slot is cleared.
    pub fn pop(&mut self) -> (r: Option<StreamingEvent>)
        requires
            old(self).wf(),
        ensures
            final(self).wf(),
            final(self).cap() == old(self).cap(),
            old(self)@.len() == 0 ==> r is None && final(self)@ == old(self)@,
            old(self)@.len() > 0 ==> r == Some(old(self)@[0]) && final(self)@ == old(
                self,
            )@.subrange(1, old(self)@.len() as int),
    {
        if self.count == 0 {
            return None;
        }
        let ghost old_self = *self;
        let rp = self.read_pos;
        let c = self.capacity;
        proof {
            self.lemma_slot(0);
        }
        let mut slot: Option<StreamingEvent> = None;
        std::mem::swap(&mut slot, &mut self.events[rp]);
        self.read_pos = if rp + 1 == c {
            0
        } else {
            rp + 1
        };
        self.count = self.count - 1;
        proof {
            assert forall|j: int| 0 <= j < c implies ((#[trigger] self.events@[j]).is_some()
                <==> self.dist(j) < self.count) by {
                if j != rp {
                    assert(old_self.events@[j] == self.events@[j]);
                }
            }
            assert forall|i: int| 0 <= i < self.count implies (#[trigger] self@[i])
                == old_self@[i + 1] by {
                old_self.lemma_slot(i + 1);
            }
            assert(self@ =~= old_self@.subrange(1, old_self@.len() as int));
        }
        slot
    }

    /// The oldest event, if any, left in place.
    pub fn peek(&self) -> (r: Option<&StreamingEvent>)
        requires
            self.wf(),
        ensures
            self@.len() == 0 ==> r is None,
            self@.len() > 0 ==> r == Some(&self@[0]),
    {
        if self.count == 0 {
            return None;
        }
        proof {
            self.lemma_slot(0);
        }
        self.events[self.read_pos].as_ref()
    }

    /// The `i`-th queued event (0 is the oldest), if there are that many.
    pub fn get(&self, i: usize) -> (r: Option<&StreamingEvent>)
        requires
            self.wf(),
        ensures
            i >= self@.len() ==> r is None,
            i < self@.len() ==> r == Some(&self@[i as int]),
    {
        if i >= self.count {
            return None;
        }
        proof {
            self.lemma_slot(i as int);
        }
        let idx = if i >= self.capacity - self.read_pos {
            i - (self.capacity - self.read_pos)
        } else {
            self.read_pos + i
        };
        self.events[idx].as_ref()
    }

    /// Drop every queued event; the capacity is kept.
    pub fn clear(&mut self)
        requires
            old(self).wf(),
        ensures
            final(self).wf(),
            final(self).cap() == old(self).cap(),
            final(self)@ == Seq::<StreamingEvent>::empty(),
    {
        let mut j: usize = 0;
        while j < self.capacity
            invariant
                self.capacity == old(self).capacity,
                self.events@.len() == self.capacity,
                j <= self.capacity,
                forall|k: int| 0 <= k < j ==> (#[trigger] self.events@[k]).is_none(),
            decreases self.capacity - j,
        {
            self.events.set(j, None);
            j = j + 1;
        }
        self.read_pos = 0;
        self.write_pos = 0;
        self.count = 0;
        proof {
            assert(self@ =~= Seq::<StreamingEvent>::empty());
        }
    }
}

} // verus!
