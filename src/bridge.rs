//! The bridge engine: the receive path from the radio to the UART, and the
//! buffering and flush policy of the path from the UART to the radio.
use vstd::prelude::*;
use vstd::slice::{slice_subrange, slice_to_vec};
use crate::codec::{decode_spec, encode_spec, hex_to_bytes, bytes_to_hex, lemma_decode_pairs_len};

verus! {

/// The largest datagram payload that the wireless protocol carries.
pub const MAX_DATAGRAM: usize = 250;

/// The periodic flush trigger: a non-empty buffer whose length is a multiple of
/// this is flushed when the serial input runs dry.
pub const FLUSH_CHUNK: usize = 32;

/// The serial buffer's capacity in the standard deployment.
pub const UART_BUFFER_CAPACITY: usize = 1024;

/// An inbound payload cut to the protocol's maximum size.
pub open spec fn clamp_datagram(data: Seq<u8>) -> Seq<u8> {
    if data.len() <= MAX_DATAGRAM {
        data
    } else {
        data.take(MAX_DATAGRAM as int)
    }
}

/// The bytes written to the UART for an inbound payload.
pub open spec fn receive_spec(data: Seq<u8>) -> Seq<u8> {
    decode_spec(clamp_datagram(data))
}

/// Whether the pending bytes are due for the periodic flush.
pub open spec fn flush_due(p: Seq<u8>) -> bool {
    p.len() > 0 && p.len() % (FLUSH_CHUNK as nat) == 0
}

/// The abstract outcome of one step: what is written to the UART, what is
/// broadcast, what stays buffered, and how many serial bytes were read.
pub struct StepView {
    pub to_serial: Option<Seq<u8>>,
    pub broadcast: Option<Seq<u8>>,
    pub pending: Seq<u8>,
    pub consumed: nat,
}

/// One step from pending bytes `p` in a buffer of capacity `cap`, with an
/// optional inbound payload and the bytes that the UART has ready. The inbound
/// payload is decoded for the UART. Serial bytes are read until the buffer
/// fills (then all of it is flushed and reading stops) or the input runs dry
/// (then the periodic trigger decides on a flush).
pub open spec fn step_spec(cap: nat, p: Seq<u8>, datagram: Option<Seq<u8>>, input: Seq<u8>) -> StepView {
    let to_serial = match datagram {
        Some(d) => Some(receive_spec(d)),
        None => None,
    };
    if p.len() + input.len() >= cap {
        let room = (cap - p.len()) as nat;
        StepView {
            to_serial,
            broadcast: Some(encode_spec(p + input.take(room as int))),
            pending: Seq::empty(),
            consumed: room,
        }
    } else if flush_due(p + input) {
        StepView {
            to_serial,
            broadcast: Some(encode_spec(p + input)),
            pending: Seq::empty(),
            consumed: input.len(),
        }
    } else {
        StepView { to_serial, broadcast: None, pending: p + input, consumed: input.len() }
    }
}

/// What a step broadcasts and what it leaves buffered do not depend on the
/// inbound payload: bytes decoded for the UART are never encoded back. Any
/// broadcast is the hex text of the earlier pending bytes followed by the
/// serial bytes the step read.
pub proof fn lemma_no_loopback(
    cap: nat,
    p: Seq<u8>,
    d1: Option<Seq<u8>>,
    d2: Option<Seq<u8>>,
    input: Seq<u8>,
)
    requires
        p.len() < cap,
    ensures
        step_spec(cap, p, d1, input).broadcast == step_spec(cap, p, d2, input).broadcast,
        step_spec(cap, p, d1, input).pending == step_spec(cap, p, d2, input).pending,
        step_spec(cap, p, d1, input).consumed == step_spec(cap, p, d2, input).consumed,
        step_spec(cap, p, d1, input).broadcast is Some ==> step_spec(cap, p, d1, input).broadcast
            == Some(encode_spec(p + input.take(step_spec(cap, p, d1, input).consumed as int))),
{
    if p.len() + input.len() < cap {
        assert(input.take(input.len() as int) =~= input);
    }
}

/// Decodes an inbound hex payload into the bytes to write to the UART: the
/// payload is cut to `MAX_DATAGRAM` characters and decoded pair by pair.
pub fn handle_esp_now_receive(data: &[u8]) -> (r: Vec<u8>)
    ensures
        r@ == receive_spec(data@),
{
    let msg_len = if data.len() < MAX_DATAGRAM {
        data.len()
    } else {
        MAX_DATAGRAM
    };
    let received = slice_subrange(data, 0, msg_len);
    assert(received@ =~= clamp_datagram(data@));
    proof {
        lemma_decode_pairs_len(received@, received@.len() / 2);
    }
    let mut out: Vec<u8> = vec![0u8; MAX_DATAGRAM / 2];
    let n = hex_to_bytes(received, out.as_mut_slice());
    out.truncate(n);
    assert(out@ =~= receive_spec(data@));
    out
}

/// The bridge never asks to be stopped.
pub fn stop_condition_fn() -> (r: bool)
    ensures
        !r,
{
    false
}

/// What the serial path asks of its driver after one serial event.
pub enum SerialAction {
    /// Read the next byte from the UART.
    ReadMore,
    /// Broadcast this hex payload; the step's serial work is over.
    Broadcast(Vec<u8>),
    /// Nothing to send; the step's serial work is over.
    Done,
}

impl SerialAction {
    /// The payload to broadcast, if any.
    pub open spec fn payload(&self) -> Option<Seq<u8>> {
        match self {
            SerialAction::Broadcast(v) => Some(v@),
            _ => None,
        }
    }
}

/// What one step did: the bytes to write to the UART, the hex payload to
/// broadcast, and how many bytes of the serial input were read.
pub struct StepOutcome {
    pub to_serial: Option<Vec<u8>>,
    pub broadcast: Option<Vec<u8>>,
    pub consumed: usize,
}

impl StepOutcome {
    pub open spec fn to_serial_view(&self) -> Option<Seq<u8>> {
        match self.to_serial {
            Some(v) => Some(v@),
            None => None,
        }
    }

    pub open spec fn broadcast_view(&self) -> Option<Seq<u8>> {
        match self.broadcast {
            Some(v) => Some(v@),
            None => None,
        }
    }
}

/// The inbound payload as a sequence.
pub open spec fn datagram_view(d: Option<&[u8]>) -> Option<Seq<u8>> {
    match d {
        Some(s) => Some(s@),
        None => None,
    }
}

/// The buffer of bytes read from the UART and not yet broadcast, with the
/// scratch space for their hex text.
pub struct Bridge {
    buf: Vec<u8>,
    len: usize,
    hex: Vec<u8>,
}

impl Bridge {
    /// The buffer is allocated, the cursor is below the capacity, and the
    /// scratch holds twice the capacity.
    pub closed spec fn wf(&self) -> bool {
        &&& 0 < self.buf@.len()
        &&& self.len < self.buf@.len()
        &&& self.hex@.len() == 2 * self.buf@.len()
        &&& self.hex@.len() <= usize::MAX
    }

    /// The number of bytes the buffer can hold.
    pub closed spec fn capacity(&self) -> nat {
        self.buf@.len()
    }

    /// The bytes read from the UART and not yet broadcast.
    pub closed spec fn pending(&self) -> Seq<u8> {
        self.buf@.take(self.len as int)
    }

    /// The hex scratch: after a flush its first bytes hold the payload sent.
    pub closed spec fn scratch(&self) -> Seq<u8> {
        self.hex@
    }

    /// A well-formed bridge has room: its capacity is positive and the
    /// pending bytes stay below it.
    pub proof fn lemma_wf_bounds(&self)
        requires
            self.wf(),
        ensures
            0 < self.capacity(),
            self.pending().len() < self.capacity(),
            self.scratch().len() == 2 * self.capacity(),
    {
    }

    /// An empty bridge whose serial buffer holds `capacity` bytes.
    pub fn new(capacity: usize) -> (r: Self)
        requires
            0 < capacity,
            2 * capacity <= usize::MAX,
        ensures
            r.wf(),
            r.capacity() == capacity,
            r.pending() == Seq::<u8>::empty(),
    {
        let r = Bridge { buf: vec![0u8; capacity], len: 0, hex: vec![0u8; 2 * capacity] };
        assert(r.pending() =~= Seq::<u8>::empty());
        r
    }

    /// The number of bytes waiting to be broadcast (the write cursor).
    pub fn pending_len(&self) -> (r: usize)
        requires
            self.wf(),
        ensures
            r == self.pending().len(),
    {
        self.len
    }

    /// The number of bytes the serial buffer holds.
    pub fn buffer_capacity(&self) -> (r: usize)
        requires
            self.wf(),
        ensures
            r == self.capacity(),
    {
        self.buf.len()
    }

    /// Encodes the pending bytes into the scratch buffer and returns the hex
    /// payload to broadcast. The pending bytes stay as they are.
    fn process_uart_buffer(&mut self) -> (r: Vec<u8>)
        requires
            old(self).buf@.len() > 0,
            old(self).len <= old(self).buf@.len(),
            old(self).hex@.len() == 2 * old(self).buf@.len(),
            old(self).hex@.len() <= usize::MAX,
        ensures
            r@ == encode_spec(old(self).pending()),
            final(self).buf == old(self).buf,
            final(self).len == old(self).len,
            final(self).hex@.len() == old(self).hex@.len(),
            final(self).hex@.take(2 * old(self).len as int) == r@,
            final(self).hex@.skip(2 * old(self).len as int) == old(self).hex@.skip(
                2 * old(self).len as int,
            ),
            old(self).len == 0 ==> final(self).hex@ == old(self).hex@,
    {
        let n = self.len;
        let pending = slice_subrange(self.buf.as_slice(), 0, n);
        assert(pending@ =~= self.pending());
        bytes_to_hex(pending, self.hex.as_mut_slice());
        let payload = slice_to_vec(slice_subrange(self.hex.as_slice(), 0, 2 * n));
        assert(payload@ =~= encode_spec(old(self).pending()));
        assert(self.hex@.take(2 * n as int) =~= payload@);
        assert(self.hex@.skip(2 * n as int) =~= old(self).hex@.skip(2 * n as int));
        if n == 0 {
            assert(self.hex@ =~= old(self).hex@);
        }
        payload
    }

    /// Handles one serial event: `Some(b)` when the UART yielded byte `b`,
    /// `None` when it had nothing. A byte is appended; if that fills the
    /// buffer, its contents are flushed. When the input runs dry, pending bytes
    /// whose count is a non-zero multiple of `FLUSH_CHUNK` are flushed. A
    /// flush empties the buffer and hands back the hex payload to broadcast.
    pub fn on_serial(&mut self, byte: Option<u8>) -> (r: SerialAction)
        requires
            old(self).wf(),
        ensures
            final(self).wf(),
            final(self).capacity() == old(self).capacity(),
            r.payload() is None ==> final(self).scratch() == old(self).scratch(),
            r.payload() matches Some(v) ==> final(self).scratch().take(v.len() as int) == v
                && final(self).scratch().skip(v.len() as int) == old(self).scratch().skip(
                v.len() as int,
            ),
            match byte {
                Some(b) => if old(self).pending().len() + 1 == old(self).capacity() {
                    &&& r.payload() == Some(encode_spec(old(self).pending().push(b)))
                    &&& final(self).pending() == Seq::<u8>::empty()
                } else {
                    &&& r == SerialAction::ReadMore
                    &&& final(self).pending() == old(self).pending().push(b)
                },
                None => if flush_due(old(self).pending()) {
                    &&& r.payload() == Some(encode_spec(old(self).pending()))
                    &&& final(self).pending() == Seq::<u8>::empty()
                } else {
                    &&& r == SerialAction::Done
                    &&& final(self).pending() == old(self).pending()
                },
            },
    {
        let ghost p0 = self.pending();
        match byte {
            Some(b) => {
                let i = self.len;
                self.buf.set(i, b);
                self.len = i + 1;
                assert(self.pending() =~= p0.push(b));
                if self.len == self.buf.len() {
                    let payload = self.process_uart_buffer();
                    self.len = 0;
                    assert(self.pending() =~= Seq::<u8>::empty());
                    SerialAction::Broadcast(payload)
                } else {
                    SerialAction::ReadMore
                }
            },
            None => {
                if self.len > 0 && self.len % FLUSH_CHUNK == 0 {
                    let payload = self.process_uart_buffer();
                    self.len = 0;
                    assert(self.pending() =~= Seq::<u8>::empty());
                    SerialAction::Broadcast(payload)
                } else {
                    SerialAction::Done
                }
            },
        }
    }
    /// One scheduling step: decodes the inbound payload, if any, for the UART,
    /// then reads from `serial` (the bytes the UART has ready) byte by byte
    /// under the flush policy of `on_serial`.
    pub fn step(&mut self, datagram: Option<&[u8]>, serial: &[u8]) -> (r: StepOutcome)
        requires
            old(self).wf(),
        ensures
            final(self).wf(),
            final(self).capacity() == old(self).capacity(),
            r.broadcast_view() is None ==> final(self).scratch() == old(self).scratch(),
            r.broadcast_view() matches Some(v) ==> final(self).scratch().take(v.len() as int) == v
                && final(self).scratch().skip(v.len() as int) == old(self).scratch().skip(
                v.len() as int,
            ),
            step_spec(old(self).capacity(), old(self).pending(), datagram_view(datagram), serial@)
                == (StepView {
                to_serial: r.to_serial_view(),
                broadcast: r.broadcast_view(),
                pending: final(self).pending(),
                consumed: r.consumed as nat,
            }),
    {
        let ghost p0 = self.pending();
        let ghost cap = self.capacity();
        let to_serial = match datagram {
            Some(d) => Some(handle_esp_now_receive(d)),
            None => None,
        };
        let mut i: usize = 0;
        loop
            invariant
                self.wf(),
                self.capacity() == cap,
                cap == old(self).capacity(),
                p0 == old(self).pending(),
                self.scratch() == old(self).scratch(),
                i <= serial@.len(),
                p0.len() + i < cap,
                self.pending() == p0 + serial@.take(i as int),
                to_serial matches Some(v) ==> datagram matches Some(d) && v@ == receive_spec(d@),
                to_serial is None ==> datagram is None,
            decreases serial@.len() - i,
        {
            if i == serial.len() {
                assert(serial@.take(i as int) =~= serial@);
                let action = self.on_serial(None);
                let broadcast = match action {
                    SerialAction::Broadcast(v) => Some(v),
                    _ => None,
                };
                return StepOutcome { to_serial, broadcast, consumed: i };
            }
            let b = serial[i];
            assert(serial@.take(i + 1) =~= serial@.take(i as int).push(b));
            let action = self.on_serial(Some(b));
            i = i + 1;
            match action {
                SerialAction::Broadcast(v) => {
                    return StepOutcome { to_serial, broadcast: Some(v), consumed: i };
                },
                _ => {},
            }
        }
    }
}

} // verus!
