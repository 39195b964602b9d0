//! The fixed-size byte ring that connects the two ends of a pipe.
use vstd::prelude::*;

verus! {

/// Bytes a pipe buffers at most.
pub const RING_BUFFER_SIZE: usize = 32;

#[derive(Copy, Clone, PartialEq, Eq, Structural)]
enum RingBufferStatus {
    Full,
    Empty,
    Normal,
}

/// A ring of `RING_BUFFER_SIZE` bytes, read at `head` and written at `tail`.
pub struct PipeRingBuffer {
    arr: [u8; RING_BUFFER_SIZE],
    head: usize,
    tail: usize,
    status: RingBufferStatus,
}

impl PipeRingBuffer {
    /// Number of bytes buffered.
    pub closed spec fn count(&self) -> nat {
        match self.status {
            RingBufferStatus::Empty => 0,
            RingBufferStatus::Full => RING_BUFFER_SIZE as nat,
            RingBufferStatus::Normal => ((self.tail + RING_BUFFER_SIZE - self.head) % (
            RING_BUFFER_SIZE as int)) as nat,
        }
    }

    /// The head and tail lie in the ring, and they meet exactly when the ring is empty or full.
    pub closed spec fn wf(&self) -> bool {
        &&& self.head < RING_BUFFER_SIZE
        &&& self.tail < RING_BUFFER_SIZE
        &&& (self.status == RingBufferStatus::Normal) == (self.head != self.tail)
    }

    /// The buffered bytes, oldest first.
    pub closed spec fn spec_view(&self) -> Seq<u8> {
        Seq::new(self.count(), |i: int| self.arr@[(self.head + i) % (RING_BUFFER_SIZE as int)])
    }
}

impl View for PipeRingBuffer {
    type V = Seq<u8>;

    open spec fn view(&self) -> Seq<u8> {
        self.spec_view()
    }
}

impl PipeRingBuffer {
    proof fn lemma_wf(&self)
        requires
            self.wf(),
        ensures
            self.count() <= RING_BUFFER_SIZE,
            (self.head + self.count()) % (RING_BUFFER_SIZE as int) == self.tail,
            self.status == RingBufferStatus::Empty ==> self.count() == 0,
            self.status == RingBufferStatus::Full ==> self.count() == RING_BUFFER_SIZE,
            self.status == RingBufferStatus::Normal ==> 0 < self.count() < RING_BUFFER_SIZE,
    {
    }

    /// An empty ring.
    pub fn new() -> (r: Self)
        ensures
            r.wf(),
            r@ == Seq::<u8>::empty(),
    {
        let r = Self { arr: [0u8; RING_BUFFER_SIZE], head: 0, tail: 0, status: RingBufferStatus::Empty };
        assert(r@ =~= Seq::<u8>::empty());
        r
    }

    /// Appends `byte`; the ring must not be full.
    pub fn write_byte(&mut self, byte: u8)
        requires
            old(self).wf(),
            old(self)@.len() < RING_BUFFER_SIZE,
        ensures
            final(self).wf(),
            final(self)@ == old(self)@.push(byte),
    {
        proof {
            self.lemma_wf();
        }
        self.status = RingBufferStatus::Normal;
        self.arr[self.tail] = byte;
        self.tail = (self.tail + 1) % RING_BUFFER_SIZE;
        if self.tail == self.head {
            self.status = RingBufferStatus::Full;
        }
        proof {
            let c = old(self).count() as int;
            let h = self.head as int;
            assert(self.count() == c + 1);
            assert forall|i: int| 0 <= i < c + 1 implies #[trigger] self@[i] == old(self)@.push(
                byte,
            )[i] by {
                if i < c {
                    assert((h + i) % 32 != old(self).tail);
                }
            }
            assert(self@ =~= old(self)@.push(byte));
        }
    }

    /// Removes and returns the oldest byte; the ring must not be empty.
    pub fn read_byte(&mut self) -> (r: u8)
        requires
            old(self).wf(),
            old(self)@.len() > 0,
        ensures
            final(self).wf(),
            r == old(self)@[0],
            final(self)@ == old(self)@.drop_first(),
    {
        proof {
            self.lemma_wf();
        }
        self.status = RingBufferStatus::Normal;
        let c = self.arr[self.head];
        self.head = (self.head + 1) % RING_BUFFER_SIZE;
        if self.head == self.tail {
            self.status = RingBufferStatus::Empty;
        }
        proof {
            let n = old(self).count() as int;
            assert(self.count() == n - 1);
            assert forall|i: int| 0 <= i < n - 1 implies #[trigger] self@[i] == old(
                self,
            )@.drop_first()[i] by {
                assert((self.head + i) % 32 == (old(self).head + i + 1) % 32);
            }
            assert(self@ =~= old(self)@.drop_first());
        }
        c
    }

    /// Number of bytes that can be read.
    pub fn available_read(&self) -> (r: usize)
        requires
            self.wf(),
        ensures
            r == self@.len(),
    {
        if self.status == RingBufferStatus::Empty {
            0
        } else if self.tail > self.head {
            self.tail - self.head
        } else {
            self.tail + RING_BUFFER_SIZE - self.head
        }
    }

    /// Number of bytes that can be written.
    pub fn available_write(&self) -> (r: usize)
        requires
            self.wf(),
        ensures
            r == RING_BUFFER_SIZE - self@.len(),
    {
        proof {
            self.lemma_wf();
        }
        if self.status == RingBufferStatus::Full {
            0
        } else {
            RING_BUFFER_SIZE - self.available_read()
        }
    }
}

} // verus!
