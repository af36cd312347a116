use vstd::prelude::*;
use std::collections::VecDeque;

verus! {

/// The shared state of the bounded byte channel that connects the archive
/// builder to the producer of the image stream: the bytes written and not yet
/// read, the fixed capacity, and whether the writing end is still open.
pub struct ChannelState {
    buffer: VecDeque<u8>,
    capacity: usize,
    writer_alive: bool,
}

/// What a write attempt does.
#[derive(PartialEq, Eq, Debug, Structural)]
pub enum WriteStep {
    /// The buffer is full and the writer is open: wait for the reader.
    Wait,
    /// The writing end is closed: the write fails (broken pipe).
    Closed,
    /// This many bytes from the front of the offered data were buffered.
    Accepted(usize),
}

/// What a read attempt does.
pub enum ReadStep {
    /// Nothing is buffered and the writer is open: wait for the writer.
    Wait,
    /// Nothing is buffered and the writer is closed: end of stream.
    End,
    /// These bytes were taken from the front of the buffer.
    Data(Vec<u8>),
}

/// The abstract channel: buffered bytes, capacity, writer open.
pub type ChannelModel = (Seq<u8>, nat, bool);

/// A well-formed channel has a positive capacity and never holds more than it.
pub open spec fn model_ok(m: ChannelModel) -> bool {
    m.1 > 0 && m.0.len() <= m.1 && m.1 <= usize::MAX
}

/// How many bytes a write of `len` bytes moves into the buffer once it may proceed.
pub open spec fn accepted_len(m: ChannelModel, len: nat) -> nat {
    let available = (m.1 - m.0.len()) as nat;
    if len < available {
        len
    } else {
        available
    }
}

/// The outcome of offering `buf` to the channel.
pub open spec fn model_write(m: ChannelModel, buf: Seq<u8>) -> (ChannelModel, WriteStep) {
    if m.0.len() == m.1 && m.2 {
        (m, WriteStep::Wait)
    } else if !m.2 {
        (m, WriteStep::Closed)
    } else {
        let n = accepted_len(m, buf.len());
        ((m.0 + buf.take(n as int), m.1, m.2), WriteStep::Accepted(n as usize))
    }
}

/// The spec of a read step: `None` to wait, `Some(None)` at the end of the
/// stream, `Some(Some(bytes))` for data.
pub open spec fn model_read(m: ChannelModel, max: nat) -> (ChannelModel, Option<Option<Seq<u8>>>) {
    if m.0.len() == 0 && m.2 {
        (m, None)
    } else if m.0.len() == 0 {
        (m, Some(None))
    } else {
        let n = if max < m.0.len() {
            max
        } else {
            m.0.len()
        };
        ((m.0.skip(n as int), m.1, m.2), Some(Some(m.0.take(n as int))))
    }
}

/// The spec of closing the writing end.
pub open spec fn model_close(m: ChannelModel) -> ChannelModel {
    (m.0, m.1, false)
}

/// The abstract view of a read step's result.
pub open spec fn read_step_view(r: ReadStep) -> Option<Option<Seq<u8>>> {
    match r {
        ReadStep::Wait => None,
        ReadStep::End => Some(None),
        ReadStep::Data(d) => Some(Some(d@)),
    }
}

impl ChannelState {
    #[verifier::type_invariant]
    spec fn inv(self) -> bool {
        self.capacity > 0 && self.buffer@.len() <= self.capacity
    }

    /// The abstract state.
    pub closed spec fn model(&self) -> ChannelModel {
        (self.buffer@, self.capacity as nat, self.writer_alive)
    }

    /// An empty channel with an open writer; `capacity` must be positive.
    pub fn new(capacity: usize) -> (r: ChannelState)
        requires
            capacity > 0,
        ensures
            r.model() == (Seq::<u8>::empty(), capacity as nat, true),
    {
        ChannelState { buffer: VecDeque::with_capacity(capacity), capacity, writer_alive: true }
    }

    /// How many bytes are buffered.
    pub fn buffered(&self) -> (n: usize)
        ensures
            n == self.model().0.len(),
    {
        self.buffer.len()
    }

    /// Offers `buf` to the channel: waits while it is full and the writer is
    /// open, fails once the writer is closed, and otherwise buffers as much of
    /// the front of `buf` as fits.
    pub fn write_step(&mut self, buf: &[u8]) -> (r: WriteStep)
        ensures
            model_ok(old(self).model()),
            (final(self).model(), r) == model_write(old(self).model(), buf@),
    {
        proof {
            use_type_invariant(&*self);
        }
        if self.buffer.len() == self.capacity && self.writer_alive {
            return WriteStep::Wait;
        }
        if !self.writer_alive {
            return WriteStep::Closed;
        }
        let available = self.capacity - self.buffer.len();
        let n = if buf.len() < available {
            buf.len()
        } else {
            available
        };
        let ghost start = self.buffer@;
        let mut data: VecDeque<u8> = VecDeque::new();
        std::mem::swap(&mut data, &mut self.buffer);
        let mut i: usize = 0;
        while i < n
            invariant
                n <= buf@.len(),
                i <= n,
                data@ == start + buf@.take(i as int),
            decreases n - i,
        {
            data.push_back(buf[i]);
            i = i + 1;
            assert(data@ =~= start + buf@.take(i as int));
        }
        self.buffer = data;
        WriteStep::Accepted(n)
    }

    /// Takes up to `max` bytes from the front of the buffer: waits while it
    /// is empty and the writer is open, reports the end of the stream once it
    /// is empty and the writer is closed.
    pub fn read_step(&mut self, max: usize) -> (r: ReadStep)
        ensures
            model_ok(old(self).model()),
            (final(self).model(), read_step_view(r)) == model_read(old(self).model(), max as nat),
    {
        proof {
            use_type_invariant(&*self);
        }
        if self.buffer.len() == 0 && self.writer_alive {
            return ReadStep::Wait;
        }
        if self.buffer.len() == 0 {
            return ReadStep::End;
        }
        let len = self.buffer.len();
        let n = if max < len {
            max
        } else {
            len
        };
        let ghost start = self.buffer@;
        let mut data: VecDeque<u8> = VecDeque::new();
        std::mem::swap(&mut data, &mut self.buffer);
        let mut out: Vec<u8> = Vec::new();
        let mut i: usize = 0;
        while i < n
            invariant
                n <= start.len(),
                i <= n,
                out@ == start.take(i as int),
                data@ == start.skip(i as int),
            decreases n - i,
        {
            let b = data.pop_front();
            proof {
                assert(start.skip(i as int).len() > 0);
            }
            match b {
                Some(x) => {
                    out.push(x);
                },
                None => {},
            }
            i = i + 1;
            assert(out@ =~= start.take(i as int));
            assert(data@ =~= start.skip(i as int));
        }
        self.buffer = data;
        ReadStep::Data(out)
    }

    /// Closes the writing end; what is buffered stays readable.
    pub fn close_writer(&mut self)
        ensures
            final(self).model() == model_close(old(self).model()),
    {
        proof {
            use_type_invariant(&*self);
        }
        self.writer_alive = false;
    }
}

/// One operation on the channel.
pub enum ChannelEvent {
    Write(Seq<u8>),
    Read(nat),
    Close,
}

/// Runs a sequence of operations from state `m`; gives the final state, the
/// bytes that reads returned, and the bytes that writes had accepted.
pub open spec fn run(m: ChannelModel, events: Seq<ChannelEvent>) -> (ChannelModel, Seq<u8>, Seq<u8>)
    decreases events.len(),
{
    if events.len() == 0 {
        (m, Seq::empty(), Seq::empty())
    } else {
        let prev = run(m, events.drop_last());
        let s = prev.0;
        match events.last() {
            ChannelEvent::Write(buf) => {
                let w = model_write(s, buf);
                let acc = match w.1 {
                    WriteStep::Accepted(n) => buf.take(n as int),
                    _ => Seq::empty(),
                };
                (w.0, prev.1, prev.2 + acc)
            },
            ChannelEvent::Read(max) => {
                let r = model_read(s, max);
                let got = match r.1 {
                    Some(Some(d)) => d,
                    _ => Seq::empty(),
                };
                (r.0, prev.1 + got, prev.2)
            },
            ChannelEvent::Close => (model_close(s), prev.1, prev.2),
        }
    }
}

/// Bytes come out of the channel in the order they went in, none lost and
/// none duplicated: what was read followed by what is still buffered equals
/// what was buffered at the start followed by everything the writes accepted.
/// The buffer never holds more than the capacity, and the capacity never changes.
pub proof fn lemma_channel_fifo(m: ChannelModel, events: Seq<ChannelEvent>)
    requires
        model_ok(m),
    ensures
        run(m, events).1 + run(m, events).0.0 == m.0 + run(m, events).2,
        model_ok(run(m, events).0),
        run(m, events).0.1 == m.1,
    decreases events.len(),
{
    if events.len() == 0 {
        assert(Seq::<u8>::empty() + m.0 =~= m.0 + Seq::<u8>::empty());
    } else {
        lemma_channel_fifo(m, events.drop_last());
        let prev = run(m, events.drop_last());
        let s = prev.0;
        match events.last() {
            ChannelEvent::Write(buf) => {
                if s.0.len() == s.1 && s.2 {
                    assert(prev.2 + Seq::<u8>::empty() =~= prev.2);
                } else if !s.2 {
                    assert(prev.2 + Seq::<u8>::empty() =~= prev.2);
                } else {
                    let n = accepted_len(s, buf.len());
                    assert((n as usize) as int == n);
                    assert(prev.1 + (s.0 + buf.take(n as int)) =~= (prev.1 + s.0) + buf.take(n as int));
                    assert(m.0 + (prev.2 + buf.take(n as int)) =~= (m.0 + prev.2) + buf.take(n as int));
                }
            },
            ChannelEvent::Read(max) => {
                if s.0.len() == 0 {
                    assert(prev.1 + Seq::<u8>::empty() =~= prev.1);
                } else {
                    let n = if max < s.0.len() {
                        max
                    } else {
                        s.0.len()
                    };
                    assert(s.0.take(n as int) + s.0.skip(n as int) =~= s.0);
                    assert((prev.1 + s.0.take(n as int)) + s.0.skip(n as int) =~= prev.1 + (s.0.take(n as int) + s.0.skip(n as int)));
                }
            },
            ChannelEvent::Close => {},
        }
    }
}

/// Once the writing end is closed it stays closed, and every later write fails.
pub proof fn lemma_closed_stays_closed(m: ChannelModel, events: Seq<ChannelEvent>, buf: Seq<u8>)
    requires
        !m.2,
    ensures
        !run(m, events).0.2,
        model_write(run(m, events).0, buf).1 == WriteStep::Closed,
    decreases events.len(),
{
    if events.len() > 0 {
        lemma_closed_stays_closed(m, events.drop_last(), buf);
    }
}

/// A write that may proceed always makes progress when it offers something:
/// it accepts at least one byte and never more than offered.
pub proof fn lemma_write_progress(m: ChannelModel, buf: Seq<u8>)
    requires
        model_ok(m),
        buf.len() > 0,
        model_write(m, buf).1 != WriteStep::Wait,
        m.2,
    ensures
        model_write(m, buf).1 matches WriteStep::Accepted(n) && 0 < n <= buf.len(),
{
}

} // verus!
