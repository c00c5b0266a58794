//! Length-prefixed frames: a big-endian `u32` length, then that many bytes.
use vstd::prelude::*;

verus! {

/// The four big-endian bytes of `n`.
pub open spec fn be32_bytes(n: u32) -> Seq<u8> {
    seq![
        #[verifier::truncate] ((n >> 24u32) as u8),
        #[verifier::truncate] ((n >> 16u32) as u8),
        #[verifier::truncate] ((n >> 8u32) as u8),
        #[verifier::truncate] (n as u8),
    ]
}

/// The number that four big-endian bytes spell.
pub open spec fn be32_value(b0: u8, b1: u8, b2: u8, b3: u8) -> u32 {
    ((b0 as u32) << 24u32) | ((b1 as u32) << 16u32) | ((b2 as u32) << 8u32) | (b3 as u32)
}

/// The frame that carries `payload` (its length must fit in a `u32`).
pub open spec fn frame_of(payload: Seq<u8>) -> Seq<u8> {
    be32_bytes(payload.len() as u32) + payload
}

/// The length that the header at the start of `buf` announces.
pub open spec fn header_len(buf: Seq<u8>) -> nat
    recommends
        buf.len() >= 4,
{
    be32_value(buf[0], buf[1], buf[2], buf[3]) as nat
}

/// Splits the first complete frame off `buf`: its payload and what follows it.
/// `None` while the header or the payload is still incomplete.
pub open spec fn parse_frame(buf: Seq<u8>) -> Option<(Seq<u8>, Seq<u8>)> {
    if buf.len() >= 4 && buf.len() - 4 >= header_len(buf) {
        let end = 4 + header_len(buf);
        Some((buf.subrange(4, end as int), buf.subrange(end as int, buf.len() as int)))
    } else {
        None
    }
}

pub proof fn lemma_be32_round_trip(n: u32)
    ensures
        be32_value(be32_bytes(n)[0], be32_bytes(n)[1], be32_bytes(n)[2], be32_bytes(n)[3]) == n,
{
    assert(((((n >> 24u32) as u8) as u32) << 24u32) | ((((n >> 16u32) as u8) as u32) << 16u32)
        | ((((n >> 8u32) as u8) as u32) << 8u32) | ((n as u8) as u32) == n) by (bit_vector);
}

/// A frame is parsed back into its payload, and whatever followed it is left over.
pub proof fn lemma_parse_frame_of(payload: Seq<u8>, rest: Seq<u8>)
    requires
        payload.len() <= u32::MAX,
    ensures
        parse_frame(frame_of(payload) + rest) == Some((payload, rest)),
{
    let n = payload.len() as u32;
    let buf = frame_of(payload) + rest;
    lemma_be32_round_trip(n);
    assert(buf[0] == be32_bytes(n)[0] && buf[1] == be32_bytes(n)[1]);
    assert(buf[2] == be32_bytes(n)[2] && buf[3] == be32_bytes(n)[3]);
    assert(header_len(buf) == payload.len());
    assert(buf.subrange(4, 4 + payload.len() as int) =~= payload);
    assert(buf.subrange(4 + payload.len() as int, buf.len() as int) =~= rest);
}

/// Until every byte of a frame has arrived, no frame is parsed from what has.
pub proof fn lemma_incomplete_frame(payload: Seq<u8>, i: int)
    requires
        payload.len() <= u32::MAX,
        0 <= i < frame_of(payload).len(),
    ensures
        parse_frame(frame_of(payload).take(i)) is None,
{
    let full = frame_of(payload);
    let part = full.take(i);
    if i >= 4 {
        lemma_be32_round_trip(payload.len() as u32);
        assert(part[0] == full[0] && part[1] == full[1] && part[2] == full[2] && part[3] == full[3]);
        assert(header_len(part) == payload.len());
    }
}

proof fn lemma_flatten_split(chunks: Seq<Seq<u8>>, k: int)
    requires
        0 <= k <= chunks.len(),
    ensures
        chunks.flatten() == chunks.take(k).flatten() + chunks.skip(k).flatten(),
    decreases chunks.len(),
{
    if k == 0 {
        assert(chunks.take(0) =~= Seq::<Seq<u8>>::empty());
        assert(chunks.skip(0) =~= chunks);
        assert(chunks.flatten() =~= Seq::<u8>::empty() + chunks.flatten());
    } else {
        let tail = chunks.drop_first();
        lemma_flatten_split(tail, k - 1);
        assert(chunks.take(k).drop_first() =~= tail.take(k - 1));
        assert(chunks.take(k).first() == chunks.first());
        assert(chunks.skip(k) =~= tail.skip(k - 1));
        assert(chunks.flatten() =~= chunks.take(k).flatten() + chunks.skip(k).flatten());
    }
}

/// However the bytes of a frame are cut into chunks, the chunks received so
/// far give no frame until the last byte is in, and then they give the
/// original payload with nothing left over.
pub proof fn lemma_fragmented_frame(chunks: Seq<Seq<u8>>, payload: Seq<u8>)
    requires
        payload.len() <= u32::MAX,
        chunks.flatten() == frame_of(payload),
    ensures
        parse_frame(chunks.flatten()) == Some((payload, Seq::<u8>::empty())),
        forall|k: int|
            0 <= k <= chunks.len() && chunks.skip(k).flatten().len() > 0 ==> parse_frame(
                #[trigger] chunks.take(k).flatten(),
            ) is None,
{
    lemma_parse_frame_of(payload, Seq::<u8>::empty());
    assert(frame_of(payload) + Seq::<u8>::empty() =~= frame_of(payload));
    assert forall|k: int|
        0 <= k <= chunks.len() && chunks.skip(k).flatten().len() > 0 implies parse_frame(
            #[trigger] chunks.take(k).flatten(),
        ) is None by {
        lemma_flatten_split(chunks, k);
        let got = chunks.take(k).flatten();
        assert(got =~= frame_of(payload).take(got.len() as int));
        lemma_incomplete_frame(payload, got.len() as int);
    }
}

/// Wraps `payload` in a frame: its big-endian length, then the payload.
pub fn encode_frame(payload: &[u8]) -> (r: Vec<u8>)
    requires
        payload@.len() <= u32::MAX,
    ensures
        r@ == frame_of(payload@),
{
    let n = payload.len() as u32;
    let mut r: Vec<u8> = Vec::new();
    r.push(#[verifier::truncate] ((n >> 24u32) as u8));
    r.push(#[verifier::truncate] ((n >> 16u32) as u8));
    r.push(#[verifier::truncate] ((n >> 8u32) as u8));
    r.push(#[verifier::truncate] (n as u8));
    r.extend_from_slice(payload);
    assert(r@ =~= frame_of(payload@));
    r
}

/// Collects bytes as they arrive, in chunks of any size, and hands out each
/// frame's payload once all of it is there.
pub struct FrameReader {
    buf: Vec<u8>,
}

impl View for FrameReader {
    type V = Seq<u8>;

    /// The bytes received and not yet handed out as a frame.
    closed spec fn view(&self) -> Seq<u8> {
        self.buf@
    }
}

impl FrameReader {
    pub fn new() -> (r: FrameReader)
        ensures
            r@ == Seq::<u8>::empty(),
    {
        FrameReader { buf: Vec::new() }
    }

    /// Appends bytes that arrived on the stream.
    pub fn push(&mut self, bytes: &[u8])
        ensures
            final(self)@ == old(self)@ + bytes@,
    {
        self.buf.extend_from_slice(bytes);
        assert(final(self)@ =~= old(self)@ + bytes@);
    }

    /// The number of bytes held.
    pub fn buffered(&self) -> (r: usize)
        ensures
            r == self@.len(),
    {
        self.buf.len()
    }

    /// Takes the next complete frame's payload, or returns `None` and keeps
    /// every byte while that frame is still incomplete.
    pub fn next_frame(&mut self) -> (r: Option<Vec<u8>>)
        ensures
            match parse_frame(old(self)@) {
                Some((payload, rest)) => r is Some && r->Some_0@ == payload && final(self)@ == rest,
                None => r is None && final(self)@ == old(self)@,
            },
    {
        if self.buf.len() < 4 {
            return None;
        }
        let len = be32_from(self.buf[0], self.buf[1], self.buf[2], self.buf[3]) as usize;
        if self.buf.len() - 4 < len {
            return None;
        }
        let rest = self.buf.split_off(4 + len);
        let payload = self.buf.split_off(4);
        self.buf = rest;
        assert(payload@ =~= old(self)@.subrange(4, 4 + len));
        Some(payload)
    }
}

pub(crate) fn be32_from(b0: u8, b1: u8, b2: u8, b3: u8) -> (r: u32)
    ensures
        r == be32_value(b0, b1, b2, b3),
{
    ((b0 as u32) << 24u32) | ((b1 as u32) << 16u32) | ((b2 as u32) << 8u32) | (b3 as u32)
}

} // verus!
