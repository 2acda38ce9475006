use vstd::prelude::*;

verus! {

/// The TCP port on which the host listens and the guest dials.
pub const PORT: u16 = 31415;

/// Tag byte of `Command::StoneHover`.
pub const HOVER_TAG: u8 = 0;

/// Tag byte of `Command::StopStoneHover`.
pub const STOP_HOVER_TAG: u8 = 1;

/// Tag byte of `Command::Connected`.
pub const CONNECTED_TAG: u8 = 2;

/// The messages exchanged between two game instances.
#[derive(Copy, Clone, PartialEq, Eq, Structural, Debug)]
pub enum Command {
    /// The peer's pointer rests on tile `(x, y)`.
    StoneHover { x: i32, y: i32 },
    /// The peer's pointer left the board.
    StopStoneHover,
    /// A peer connected to the host; given to the host's own game loop only.
    Connected,
}

/// Why bytes did not decode to a message.
#[derive(Copy, Clone, PartialEq, Eq, Structural, Debug)]
pub enum DecodeError {
    /// The bytes end before the message does.
    Incomplete,
    /// The first byte is no message's tag.
    UnknownTag(u8),
}

/// The value of an `i32` read as unsigned 32-bit (two's complement).
pub open spec fn unsigned_of(v: i32) -> int {
    if v >= 0 {
        v as int
    } else {
        v + 0x1_0000_0000
    }
}

/// The four bytes of an `i32`, least significant first.
pub open spec fn le_bytes(v: i32) -> Seq<u8> {
    let u = unsigned_of(v);
    seq![
        (u % 256) as u8,
        ((u / 256) % 256) as u8,
        ((u / 65536) % 256) as u8,
        (u / 16777216) as u8,
    ]
}

/// The `i32` whose bytes, least significant first, are `b[0..4]`.
pub open spec fn le_value(b: Seq<u8>) -> int {
    let n = b[0] + 256 * b[1] + 65536 * b[2] + 16777216 * b[3];
    if n < 0x8000_0000 {
        n
    } else {
        n - 0x1_0000_0000
    }
}

/// The wire form of a message: its tag byte, then for a hover the column and
/// the row as little-endian `i32`.
pub open spec fn encoding(c: Command) -> Seq<u8> {
    match c {
        Command::StoneHover { x, y } => seq![HOVER_TAG] + le_bytes(x) + le_bytes(y),
        Command::StopStoneHover => seq![STOP_HOVER_TAG],
        Command::Connected => seq![CONNECTED_TAG],
    }
}

/// The message at the start of `b` and its length in bytes.
pub open spec fn decoded(b: Seq<u8>) -> Result<(Command, int), DecodeError> {
    if b.len() == 0 {
        Err(DecodeError::Incomplete)
    } else if b[0] == HOVER_TAG {
        if b.len() < 9 {
            Err(DecodeError::Incomplete)
        } else {
            Ok(
                (
                    Command::StoneHover {
                        x: le_value(b.subrange(1, 5)) as i32,
                        y: le_value(b.subrange(5, 9)) as i32,
                    },
                    9,
                ),
            )
        }
    } else if b[0] == STOP_HOVER_TAG {
        Ok((Command::StopStoneHover, 1))
    } else if b[0] == CONNECTED_TAG {
        Ok((Command::Connected, 1))
    } else {
        Err(DecodeError::UnknownTag(b[0]))
    }
}

proof fn lemma_le_round_trip(v: i32)
    ensures
        le_bytes(v).len() == 4,
        le_value(le_bytes(v)) == v,
{
    let u: u32 = unsigned_of(v) as u32;
    let a = u % 256;
    let b = (u / 256) % 256;
    let c = (u / 65536) % 256;
    let d = u / 16777216;
    assert(a + 256 * b + 65536 * c + 16777216 * d == u) by (bit_vector)
        requires
            a == u % 256,
            b == (u / 256) % 256,
            c == (u / 65536) % 256,
            d == u / 16777216,
    ;
}

/// Writes `v` as four bytes, least significant first.
fn push_le(out: &mut Vec<u8>, v: i32)
    ensures
        final(out)@ == old(out)@ + le_bytes(v),
{
    let u: u32 = if v >= 0 {
        v as u32
    } else {
        (v as i64 + 0x1_0000_0000i64) as u32
    };
    assert(u as int == unsigned_of(v));
    out.push((u % 256) as u8);
    out.push(((u / 256) % 256) as u8);
    out.push(((u / 65536) % 256) as u8);
    out.push((u / 16777216) as u8);
    assert(final(out)@ =~= old(out)@ + le_bytes(v));
}

/// Reads the `i32` stored least significant byte first at `b[at..at + 4]`.
fn read_le(b: &[u8], at: usize) -> (r: i32)
    requires
        at + 4 <= b@.len(),
    ensures
        r as int == le_value(b@.subrange(at as int, at + 4)),
{
    let n: u32 = b[at] as u32 + 256 * (b[at + 1] as u32) + 65536 * (b[at + 2] as u32) + 16777216 * (
    b[at + 3] as u32);
    if n < 0x8000_0000 {
        n as i32
    } else {
        (n as i64 - 0x1_0000_0000i64) as i32
    }
}

/// The wire form of a message.
pub fn encode(command: &Command) -> (r: Vec<u8>)
    ensures
        r@ == encoding(*command),
{
    let mut out: Vec<u8> = Vec::new();
    match command {
        Command::StoneHover { x, y } => {
            out.push(HOVER_TAG);
            push_le(&mut out, *x);
            push_le(&mut out, *y);
        },
        Command::StopStoneHover => out.push(STOP_HOVER_TAG),
        Command::Connected => out.push(CONNECTED_TAG),
    }
    assert(out@ =~= encoding(*command));
    out
}

/// Decodes the message at the start of `bytes`, and returns it with the
/// number of bytes it took.
pub fn decode(bytes: &[u8]) -> (r: Result<(Command, usize), DecodeError>)
    ensures
        r matches Ok((c, n)) ==> decoded(bytes@) == Ok::<(Command, int), DecodeError>((c, n as int)),
        r matches Err(e) ==> decoded(bytes@) == Err::<(Command, int), DecodeError>(e),
{
    if bytes.len() == 0 {
        Err(DecodeError::Incomplete)
    } else if bytes[0] == HOVER_TAG {
        if bytes.len() < 9 {
            Err(DecodeError::Incomplete)
        } else {
            let x = read_le(bytes, 1);
            let y = read_le(bytes, 5);
            Ok((Command::StoneHover { x, y }, 9))
        }
    } else if bytes[0] == STOP_HOVER_TAG {
        Ok((Command::StopStoneHover, 1))
    } else if bytes[0] == CONNECTED_TAG {
        Ok((Command::Connected, 1))
    } else {
        Err(DecodeError::UnknownTag(bytes[0]))
    }
}

/// A message decodes from its wire form, whatever bytes follow it, and takes
/// exactly the bytes of that form.
pub proof fn lemma_decode_encoding(c: Command, rest: Seq<u8>)
    ensures
        decoded(encoding(c) + rest) == Ok::<(Command, int), DecodeError>((c, encoding(c).len() as int)),
{
    let b = encoding(c) + rest;
    if let Command::StoneHover { x, y } = c {
        lemma_le_round_trip(x);
        lemma_le_round_trip(y);
        assert(b.subrange(1, 5) =~= le_bytes(x));
        assert(b.subrange(5, 9) =~= le_bytes(y));
    }
}

/// The messages that a stream of received bytes holds, in order, and the
/// bytes left over: the start of a message still incomplete, or nothing
/// after a byte that is no message's tag (the rest of the stream cannot be
/// framed and is dropped).
pub open spec fn drain(s: Seq<u8>) -> (Seq<Command>, Seq<u8>)
    decreases s.len(),
{
    match decoded(s) {
        Ok((c, n)) => if 1 <= n <= s.len() {
            let rest = drain(s.subrange(n, s.len() as int));
            (seq![c] + rest.0, rest.1)
        } else {
            (Seq::empty(), s)
        },
        Err(DecodeError::Incomplete) => (Seq::empty(), s),
        Err(DecodeError::UnknownTag(_)) => (Seq::empty(), Seq::empty()),
    }
}

/// The wire forms of several messages, one after the other.
pub open spec fn encodings(cs: Seq<Command>) -> Seq<u8>
    decreases cs.len(),
{
    if cs.len() == 0 {
        Seq::empty()
    } else {
        encoding(cs[0]) + encodings(cs.subrange(1, cs.len() as int))
    }
}

/// A stream that holds the wire forms of some messages yields exactly those
/// messages, in the order in which they were sent, with nothing left over.
pub proof fn lemma_drain_encodings(cs: Seq<Command>)
    ensures
        drain(encodings(cs)) == (cs, Seq::<u8>::empty()),
    decreases cs.len(),
{
    let s = encodings(cs);
    if cs.len() == 0 {
        assert(cs =~= Seq::<Command>::empty());
    } else {
        let tail = cs.subrange(1, cs.len() as int);
        lemma_decode_encoding(cs[0], encodings(tail));
        let n = encoding(cs[0]).len() as int;
        assert(s.subrange(n, s.len() as int) =~= encodings(tail));
        lemma_drain_encodings(tail);
        assert(seq![cs[0]] + tail =~= cs);
    }
}

proof fn lemma_drain_prefix(cs: Seq<Command>, k: int)
    requires
        0 <= k <= encodings(cs).len(),
    ensures
        exists|m: int|
            0 <= m <= cs.len() && #[trigger] drain(encodings(cs).take(k)).0 == cs.subrange(0, m)
                && drain(encodings(cs).take(k)).1 + encodings(cs).subrange(k, encodings(cs).len() as int)
                == encodings(cs.subrange(m, cs.len() as int)),
    decreases cs.len(),
{
    let s = encodings(cs);
    let first = s.take(k);
    if cs.len() == 0 {
        assert(first =~= Seq::<u8>::empty());
        assert(cs.subrange(0, 0) =~= Seq::<Command>::empty());
        assert(first + s.subrange(k, s.len() as int) =~= encodings(cs.subrange(0, cs.len() as int)));
    } else {
        let tail = cs.subrange(1, cs.len() as int);
        let e0 = encoding(cs[0]);
        let l0 = e0.len() as int;
        if k < l0 {
            assert(decoded(first) == Err::<(Command, int), DecodeError>(DecodeError::Incomplete)) by {
                if k > 0 {
                    assert(first[0] == e0[0]);
                }
            }
            assert(cs.subrange(0, 0) =~= Seq::<Command>::empty());
            assert(cs.subrange(0, cs.len() as int) =~= cs);
            assert(first + s.subrange(k, s.len() as int) =~= s);
        } else {
            let rest = encodings(tail).take(k - l0);
            assert(first =~= e0 + rest);
            lemma_decode_encoding(cs[0], rest);
            assert(first.subrange(l0, first.len() as int) =~= rest);
            lemma_drain_prefix(tail, k - l0);
            let m1 = choose|m: int|
                0 <= m <= tail.len() && #[trigger] drain(encodings(tail).take(k - l0)).0 == tail.subrange(0, m)
                    && drain(encodings(tail).take(k - l0)).1 + encodings(tail).subrange(
                    k - l0,
                    encodings(tail).len() as int,
                ) == encodings(tail.subrange(m, tail.len() as int));
            assert(seq![cs[0]] + tail.subrange(0, m1) =~= cs.subrange(0, m1 + 1));
            assert(s.subrange(k, s.len() as int) =~= encodings(tail).subrange(k - l0, encodings(tail).len() as int));
            assert(tail.subrange(m1, tail.len() as int) =~= cs.subrange(m1 + 1, cs.len() as int));
            assert(drain(first).0 == cs.subrange(0, m1 + 1));
        }
    }
}

/// However the bytes of a stream of messages are split between two reads,
/// the two reads together yield exactly those messages, in the order in which
/// they were sent, and nothing stays pending.
pub proof fn lemma_split_reads(cs: Seq<Command>, k: int)
    requires
        0 <= k <= encodings(cs).len(),
    ensures
        ({
            let s = encodings(cs);
            let first = drain(s.take(k));
            let second = drain(first.1 + s.subrange(k, s.len() as int));
            first.0 + second.0 == cs && second.1 == Seq::<u8>::empty()
        }),
{
    lemma_drain_prefix(cs, k);
    let s = encodings(cs);
    let m = choose|m: int|
        0 <= m <= cs.len() && #[trigger] drain(s.take(k)).0 == cs.subrange(0, m) && drain(s.take(k)).1
            + s.subrange(k, s.len() as int) == encodings(cs.subrange(m, cs.len() as int));
    lemma_drain_encodings(cs.subrange(m, cs.len() as int));
    assert(cs.subrange(0, m) + cs.subrange(m, cs.len() as int) =~= cs);
}

/// What one read from the socket gave.
#[derive(Debug)]
pub enum ReadOutcome {
    /// Some bytes arrived.
    Received(Vec<u8>),
    /// The read timed out with nothing to read.
    Idle,
    /// The peer closed the connection.
    Closed,
    /// The read failed.
    Failed,
}

/// Received bytes that do not yet make a whole message.
pub struct Inbox {
    pending: Vec<u8>,
}

impl View for Inbox {
    type V = Seq<u8>;

    closed spec fn view(&self) -> Seq<u8> {
        self.pending@
    }
}

impl Inbox {
    /// An inbox with nothing pending.
    pub fn new() -> (r: Inbox)
        ensures
            r@ == Seq::<u8>::empty(),
    {
        Inbox { pending: Vec::new() }
    }

    /// Decides one step of the link after a read: whether the connection goes
    /// on, and the messages to hand to the game loop. Only a closed or failed
    /// connection stops it; bytes that cannot be framed are dropped.
    pub fn after_read(&mut self, outcome: &ReadOutcome) -> (r: (bool, Vec<Command>))
        ensures
            match outcome {
                ReadOutcome::Received(b) => {
                    &&& r.0
                    &&& r.1@ == drain(old(self)@ + b@).0
                    &&& final(self)@ == drain(old(self)@ + b@).1
                },
                ReadOutcome::Idle => r.0 && r.1@.len() == 0 && final(self)@ == old(self)@,
                ReadOutcome::Closed | ReadOutcome::Failed => !r.0 && r.1@.len() == 0 && final(self)@
                    == old(self)@,
            },
    {
        match outcome {
            ReadOutcome::Received(b) => (true, self.receive(b.as_slice())),
            ReadOutcome::Idle => (true, Vec::new()),
            _ => (false, Vec::new()),
        }
    }

    /// Takes the bytes of one read and returns the whole messages that the
    /// pending bytes and these hold, in order; an incomplete message at the
    /// end stays pending for the next read.
    pub fn receive(&mut self, bytes: &[u8]) -> (r: Vec<Command>)
        ensures
            r@ == drain(old(self)@ + bytes@).0,
            final(self)@ == drain(old(self)@ + bytes@).1,
    {
        let mut stream: Vec<u8> = Vec::new();
        std::mem::swap(&mut stream, &mut self.pending);
        let mut i: usize = 0;
        while i < bytes.len()
            invariant
                0 <= i <= bytes@.len(),
                stream@ == old(self)@ + bytes@.subrange(0, i as int),
            decreases bytes@.len() - i,
        {
            stream.push(bytes[i]);
            i += 1;
            assert(stream@ =~= old(self)@ + bytes@.subrange(0, i as int));
        }
        assert(bytes@.subrange(0, i as int) =~= bytes@);
        let ghost all = stream@;
        let mut messages: Vec<Command> = Vec::new();
        let mut start: usize = 0;
        assert(all.subrange(0, all.len() as int) =~= all);
        assert(messages@ + drain(all).0 =~= drain(all).0);
        loop
            invariant
                stream@ == all,
                all == old(self)@ + bytes@,
                self.pending@ == Seq::<u8>::empty(),
                0 <= start <= all.len(),
                drain(all) == (messages@ + drain(all.subrange(start as int, all.len() as int)).0, drain(
                    all.subrange(start as int, all.len() as int),
                ).1),
            decreases all.len() - start,
        {
            let ghost rest = all.subrange(start as int, all.len() as int);
            let mut head: Vec<u8> = Vec::new();
            let mut k: usize = start;
            while k < stream.len() && k - start < 9
                invariant
                    stream@ == all,
                    start <= k <= all.len(),
                    k - start <= 9,
                    head@ == all.subrange(start as int, k as int),
                decreases all.len() - k,
            {
                head.push(stream[k]);
                k += 1;
                assert(head@ =~= all.subrange(start as int, k as int));
            }
            proof {
                assert(decoded(head@) == decoded(rest)) by {
                    if rest.len() > 0 {
                        assert(head@[0] == rest[0]);
                    }
                    if rest.len() >= 9 {
                        assert(head@.subrange(1, 5) =~= rest.subrange(1, 5));
                        assert(head@.subrange(5, 9) =~= rest.subrange(5, 9));
                    }
                }
            }
            match decode(head.as_slice()) {
                Ok((c, n)) => {
                    let ghost before = messages@;
                    messages.push(c);
                    proof {
                        let next = all.subrange(start + n, all.len() as int);
                        assert(rest.subrange(n as int, rest.len() as int) =~= next);
                        assert(before + (seq![c] + drain(next).0) =~= messages@ + drain(next).0);
                    }
                    start = start + n;
                },
                Err(DecodeError::Incomplete) => {
                    let mut left: Vec<u8> = Vec::new();
                    let mut k: usize = start;
                    while k < stream.len()
                        invariant
                            stream@ == all,
                            start <= k <= all.len(),
                            left@ == all.subrange(start as int, k as int),
                        decreases all.len() - k,
                    {
                        left.push(stream[k]);
                        k += 1;
                        assert(left@ =~= all.subrange(start as int, k as int));
                    }
                    self.pending = left;
                    assert(drain(rest) == (Seq::<Command>::empty(), rest));
                    assert(messages@ + Seq::<Command>::empty() =~= messages@);
                    return messages;
                },
                Err(DecodeError::UnknownTag(_)) => {
                    assert(drain(rest) == (Seq::<Command>::empty(), Seq::<u8>::empty()));
                    assert(messages@ + Seq::<Command>::empty() =~= messages@);
                    return messages;
                },
            }
        }
    }
}

} // verus!
