//! Framing of long messages into datagrams.
//!
//! A message is sent as consecutive chunks of at most `MAX_MESSAGE_SIZE`
//! bytes; all chunks but the last are full. The receiver appends chunks
//! until one is shorter than `MAX_MESSAGE_SIZE`.

use vstd::prelude::*;

verus! {

/// The largest payload of a datagram.
pub const MAX_MESSAGE_SIZE: usize = 65507;

/// Chunk `i` of a message: bytes `i * MAX_MESSAGE_SIZE` up to the next
/// multiple of `MAX_MESSAGE_SIZE` or the end.
pub open spec fn chunk(bytes: Seq<u8>, i: int) -> Seq<u8> {
    let lo = i * MAX_MESSAGE_SIZE;
    let hi = if (i + 1) * MAX_MESSAGE_SIZE <= bytes.len() {
        (i + 1) * MAX_MESSAGE_SIZE
    } else {
        bytes.len() as int
    };
    bytes.subrange(lo, hi)
}

/// The number of chunks of a message of `len` bytes.
pub open spec fn chunk_count(len: nat) -> nat {
    ((len + MAX_MESSAGE_SIZE - 1) / (MAX_MESSAGE_SIZE as int)) as nat
}

/// The chunks of a message, in order.
pub open spec fn chunks(bytes: Seq<u8>) -> Seq<Seq<u8>> {
    Seq::new(chunk_count(bytes.len()), |i: int| chunk(bytes, i))
}

/// Cuts a message into the chunks that are sent one after the other.
pub fn split_message(bytes: &[u8]) -> (parts: Vec<Vec<u8>>)
    ensures
        parts.deep_view() == chunks(bytes@),
{
    let mut parts: Vec<Vec<u8>> = Vec::new();
    let len = bytes.len();
    let mut offset: usize = 0;
    while offset < len
        invariant
            len == bytes@.len(),
            offset <= len,
            offset < len ==> offset == parts@.len() * MAX_MESSAGE_SIZE,
            offset <= parts@.len() * MAX_MESSAGE_SIZE,
            parts@.len() > 0 ==> (parts@.len() - 1) * MAX_MESSAGE_SIZE < offset,
            forall|i: int| 0 <= i < parts@.len() ==> (#[trigger] parts@[i])@ == chunk(bytes@, i),
        decreases len - offset,
    {
        let end = if len - offset <= MAX_MESSAGE_SIZE {
            len
        } else {
            offset + MAX_MESSAGE_SIZE
        };
        let mut part: Vec<u8> = Vec::new();
        for k in offset..end
            invariant
                offset <= end <= len,
                len == bytes@.len(),
                part@ == bytes@.subrange(offset as int, k as int),
        {
            part.push(bytes[k]);
            proof {
                assert(part@ =~= bytes@.subrange(offset as int, k + 1));
            }
        }
        let ghost i = parts@.len() as int;
        proof {
            assert((i + 1) * MAX_MESSAGE_SIZE == offset + MAX_MESSAGE_SIZE);
            assert(part@ =~= chunk(bytes@, i));
        }
        parts.push(part);
        offset = end;
    }
    proof {
        let n = parts@.len();
        let m = MAX_MESSAGE_SIZE as int;
        assert(n == chunk_count(len as nat)) by (nonlinear_arith)
            requires
                m == 65507,
                offset == len,
                offset <= n * m,
                n > 0 ==> (n - 1) * m < offset,
                n == 0 ==> offset == 0,
                chunk_count(len as nat) == (len + m - 1) / m,
        {
        }
        assert forall|i: int| 0 <= i < n implies #[trigger] parts.deep_view()[i] == chunks(bytes@)[i] by {
            assert(parts.deep_view()[i] =~= parts@[i]@);
        }
        assert(parts.deep_view() =~= chunks(bytes@));
    }
    parts
}

/// What a receiver makes of the datagrams `parts`, taken in order: the
/// message ends with the first datagram shorter than `MAX_MESSAGE_SIZE`,
/// and is the concatenation of the datagrams up to it; `None` while no such
/// datagram has come.
pub open spec fn receive(parts: Seq<Seq<u8>>) -> Option<Seq<u8>>
    decreases parts.len(),
{
    if parts.len() == 0 {
        None
    } else if parts[0].len() < MAX_MESSAGE_SIZE {
        Some(parts[0])
    } else {
        match receive(parts.drop_first()) {
            Some(rest) => Some(parts[0] + rest),
            None => None,
        }
    }
}

proof fn lemma_chunks_shift(bytes: Seq<u8>)
    requires
        bytes.len() > MAX_MESSAGE_SIZE,
    ensures
        chunks(bytes).len() > 0,
        chunks(bytes)[0] == bytes.subrange(0, MAX_MESSAGE_SIZE as int),
        chunks(bytes).drop_first() == chunks(bytes.subrange(MAX_MESSAGE_SIZE as int, bytes.len() as int)),
{
    let m = MAX_MESSAGE_SIZE as int;
    let rest = bytes.subrange(m, bytes.len() as int);
    assert(chunk_count(bytes.len()) == chunk_count(rest.len()) + 1) by (nonlinear_arith)
        requires
            m == 65507,
            rest.len() == bytes.len() - m,
            chunk_count(bytes.len()) == (bytes.len() + m - 1) / m,
            chunk_count(rest.len()) == (rest.len() + m - 1) / m,
    {
    }
    assert forall|i: int| 0 <= i < chunk_count(rest.len()) implies #[trigger] chunks(bytes).drop_first()[i]
        == chunks(rest)[i] by {
        assert((i + 1) * m == i * m + m) by (nonlinear_arith);
        assert((i + 2) * m == (i + 1) * m + m) by (nonlinear_arith);
        assert(chunk(bytes, i + 1) =~= chunk(rest, i));
    }
    assert(chunks(bytes).drop_first() =~= chunks(rest));
}

/// A message whose length is not a multiple of `MAX_MESSAGE_SIZE` comes
/// back whole from its chunks: the receiver stops at the last chunk, with
/// the message.
pub proof fn lemma_split_then_receive(bytes: Seq<u8>)
    requires
        bytes.len() % (MAX_MESSAGE_SIZE as nat) != 0,
    ensures
        receive(chunks(bytes)) == Some(bytes),
    decreases bytes.len(),
{
    let m = MAX_MESSAGE_SIZE as int;
    if bytes.len() < m {
        assert(chunk_count(bytes.len()) == 1) by (nonlinear_arith)
            requires
                m == 65507,
                0 < bytes.len() < m,
                chunk_count(bytes.len()) == (bytes.len() + m - 1) / m,
        {
        }
        assert(chunks(bytes)[0] =~= bytes);
    } else {
        let rest = bytes.subrange(m, bytes.len() as int);
        assert(rest.len() % (MAX_MESSAGE_SIZE as nat) != 0) by (nonlinear_arith)
            requires
                m == 65507,
                rest.len() == bytes.len() - m,
                bytes.len() % (m as nat) != 0,
        {
        }
        lemma_chunks_shift(bytes);
        lemma_split_then_receive(rest);
        assert(chunks(bytes)[0] + rest =~= bytes);
    }
}

/// A message whose length is a nonzero multiple of `MAX_MESSAGE_SIZE` ends
/// with a full chunk, so the receiver keeps waiting after its last chunk.
pub proof fn lemma_full_last_chunk(bytes: Seq<u8>)
    requires
        bytes.len() > 0,
        bytes.len() % (MAX_MESSAGE_SIZE as nat) == 0,
    ensures
        receive(chunks(bytes)) is None,
    decreases bytes.len(),
{
    let m = MAX_MESSAGE_SIZE as int;
    if bytes.len() == m {
        assert(chunk_count(bytes.len()) == 1) by (nonlinear_arith)
            requires
                m == 65507,
                bytes.len() == m,
                chunk_count(bytes.len()) == (bytes.len() + m - 1) / m,
        {
        }
        assert(chunks(bytes)[0].len() == m);
        assert(chunks(bytes).drop_first().len() == 0);
        assert(receive(chunks(bytes).drop_first()) is None);
    } else {
        assert(bytes.len() > m) by (nonlinear_arith)
            requires
                m == 65507,
                bytes.len() > 0,
                bytes.len() % (m as nat) == 0,
                bytes.len() != m,
        {
        }
        let rest = bytes.subrange(m, bytes.len() as int);
        assert(rest.len() % (MAX_MESSAGE_SIZE as nat) == 0) by (nonlinear_arith)
            requires
                m == 65507,
                rest.len() == bytes.len() - m,
                bytes.len() % (m as nat) == 0,
        {
        }
        lemma_chunks_shift(bytes);
        lemma_full_last_chunk(rest);
        assert(chunks(bytes)[0].len() == m);
    }
}

/// The chunks of a message are, one after the other, the message; each
/// holds between 1 and `MAX_MESSAGE_SIZE` bytes, and all but the last are
/// full.
pub proof fn lemma_chunks_cover(bytes: Seq<u8>)
    ensures
        chunks(bytes).flatten() == bytes,
        forall|i: int|
            0 <= i < chunks(bytes).len() ==> 0 < (#[trigger] chunks(bytes)[i]).len()
                <= MAX_MESSAGE_SIZE,
        forall|i: int|
            0 <= i < chunks(bytes).len() - 1 ==> (#[trigger] chunks(bytes)[i]).len()
                == MAX_MESSAGE_SIZE,
    decreases bytes.len(),
{
    let m = MAX_MESSAGE_SIZE as int;
    if bytes.len() == 0 {
        assert(chunk_count(0) == 0);
        assert(chunks(bytes) =~= Seq::<Seq<u8>>::empty());
    } else if bytes.len() <= m {
        assert(chunk_count(bytes.len()) == 1) by (nonlinear_arith)
            requires
                m == 65507,
                0 < bytes.len() <= m,
                chunk_count(bytes.len()) == (bytes.len() + m - 1) / m,
        {
        }
        assert(chunks(bytes)[0] =~= bytes);
        assert(chunks(bytes).drop_first().len() == 0);
        assert(chunks(bytes).drop_first().flatten() =~= Seq::<u8>::empty());
        assert(chunks(bytes).flatten() =~= bytes);
    } else {
        let rest = bytes.subrange(m, bytes.len() as int);
        lemma_chunks_shift(bytes);
        lemma_chunks_cover(rest);
        assert(chunks(bytes)[0] + rest =~= bytes);
        assert forall|i: int| 0 <= i < chunks(bytes).len() implies 0 < (
        #[trigger] chunks(bytes)[i]).len() <= MAX_MESSAGE_SIZE by {
            if i > 0 {
                assert(chunks(bytes)[i] == chunks(rest)[i - 1]);
            }
        }
        assert forall|i: int| 0 <= i < chunks(bytes).len() - 1 implies (
        #[trigger] chunks(bytes)[i]).len() == MAX_MESSAGE_SIZE by {
            if i > 0 {
                assert(chunks(bytes)[i] == chunks(rest)[i - 1]);
            }
        }
    }
}

/// The port to try after `port` fails to bind, or `None` past the last
/// port number.
pub fn next_port(port: i32) -> (r: Option<i32>)
    ensures
        r == (if port < i32::MAX {
            Some((port + 1) as i32)
        } else {
            None::<i32>
        }),
{
    if port < i32::MAX {
        Some(port + 1)
    } else {
        None
    }
}

/// Feeding datagrams to a `Reassembler` one after the other, as long as
/// each one fills a datagram, collects what `receive` says: when datagram
/// `n - 1` is the first short one, the message is the first `n` datagrams
/// joined; when none is short, the message is not complete.
pub proof fn lemma_receive_is_feeding(parts: Seq<Seq<u8>>, n: int)
    requires
        0 <= n <= parts.len(),
        forall|i: int| 0 <= i < n - 1 ==> (#[trigger] parts[i]).len() >= MAX_MESSAGE_SIZE,
        n > 0 ==> parts[n - 1].len() < MAX_MESSAGE_SIZE,
        n == 0 ==> forall|i: int| 0 <= i < parts.len() ==> (#[trigger] parts[i]).len() >= MAX_MESSAGE_SIZE,
    ensures
        n > 0 ==> receive(parts) == Some(parts.take(n).flatten_alt()),
        n == 0 ==> receive(parts) is None,
    decreases parts.len(),
{
    if parts.len() > 0 {
        let rest = parts.drop_first();
        if parts[0].len() < MAX_MESSAGE_SIZE {
            assert(n == 1);
            assert(parts.take(1).drop_last() =~= Seq::<Seq<u8>>::empty());
            assert(Seq::<Seq<u8>>::empty().flatten_alt() == Seq::<u8>::empty());
            assert(parts.take(1).last() == parts[0]);
            assert(parts.take(1).flatten_alt() =~= parts[0]);
        } else {
            let m = if n > 0 { n - 1 } else { 0 };
            assert forall|i: int| 0 <= i < m - 1 implies (#[trigger] rest[i]).len() >= MAX_MESSAGE_SIZE by {
                assert(rest[i] == parts[i + 1]);
            }
            if n == 0 {
                assert forall|i: int| 0 <= i < rest.len() implies (#[trigger] rest[i]).len() >= MAX_MESSAGE_SIZE by {
                    assert(rest[i] == parts[i + 1]);
                }
            } else {
                assert(n >= 2);
                assert(rest[m - 1] == parts[n - 1]);
            }
            lemma_receive_is_feeding(rest, m);
            if n > 0 {
                parts.take(n).lemma_flatten_and_flatten_alt_are_equivalent();
                rest.take(m).lemma_flatten_and_flatten_alt_are_equivalent();
                assert(parts.take(n).drop_first() =~= rest.take(m));
                assert(parts.take(n).first() == parts[0]);
            }
        }
    }
}

/// What a receiver has collected of a message.
pub struct Reassembler {
    pub data: Vec<u8>,
}

impl Reassembler {
    /// Nothing collected yet.
    pub fn new() -> (r: Reassembler)
        ensures
            r.data@ == Seq::<u8>::empty(),
    {
        Reassembler { data: Vec::new() }
    }

    /// Appends a datagram; tells whether it ends the message.
    pub fn add_chunk(&mut self, part: &[u8]) -> (done: bool)
        ensures
            final(self).data@ == old(self).data@ + part@,
            done == (part@.len() < MAX_MESSAGE_SIZE),
    {
        let ghost start = self.data@;
        for i in 0..part.len()
            invariant
                self.data@ == start + part@.take(i as int),
        {
            self.data.push(part[i]);
            proof {
                assert(self.data@ =~= start + part@.take(i + 1));
            }
        }
        proof {
            assert(part@.take(part@.len() as int) =~= part@);
        }
        part.len() < MAX_MESSAGE_SIZE
    }
}

} // verus!
