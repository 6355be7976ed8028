//! Newline framing: the whole wire format of the protocol.

use vstd::prelude::*;

verus! {

/// The line delimiter: a single newline byte.
pub const DELIMITER: u8 = 10;

/// The wire form of one message: the payload followed by exactly one
/// delimiter byte.
pub open spec fn framed(msg: Seq<u8>) -> Seq<u8> {
    msg.push(DELIMITER)
}

/// Builds the wire form of `msg`.
pub fn frame(msg: &Vec<u8>) -> (out: Vec<u8>)
    ensures
        out@ == framed(msg@),
{
    let mut out: Vec<u8> = Vec::new();
    let mut i: usize = 0;
    while i < msg.len()
        invariant
            i <= msg@.len(),
            out@ == msg@.subrange(0, i as int),
        decreases msg@.len() - i,
    {
        out.push(msg[i]);
        proof {
            assert(out@ =~= msg@.subrange(0, i + 1 as int));
        }
        i += 1;
    }
    proof {
        assert(msg@.subrange(0, msg@.len() as int) =~= msg@);
    }
    out.push(DELIMITER);
    out
}

/// The payload carried by one received chunk: the chunk without its
/// trailing delimiter, or the chunk itself when none ends it (as at end
/// of stream).
pub open spec fn payload_of(buf: Seq<u8>) -> Seq<u8> {
    if buf.len() > 0 && buf.last() == DELIMITER {
        buf.drop_last()
    } else {
        buf
    }
}

/// Recovers the payload from one received chunk.
#[verifier::loop_isolation(false)]
pub fn unframe(buf: &Vec<u8>) -> (msg: Vec<u8>)
    ensures
        msg@ == payload_of(buf@),
{
    let n = buf.len();
    let keep = if n > 0 && buf[n - 1] == DELIMITER {
        n - 1
    } else {
        n
    };
    let mut msg: Vec<u8> = Vec::new();
    let mut i: usize = 0;
    while i < keep
        invariant
            i <= keep,
            msg@ == buf@.subrange(0, i as int),
        decreases keep - i,
    {
        msg.push(buf[i]);
        proof {
            assert(msg@ =~= buf@.subrange(0, i + 1 as int));
        }
        i += 1;
    }
    proof {
        if keep == n {
            assert(buf@.subrange(0, n as int) =~= buf@);
        } else {
            assert(buf@.subrange(0, n - 1 as int) =~= buf@.drop_last());
        }
    }
    msg
}

/// How many times the byte `b` occurs in `s`.
pub open spec fn count_byte(s: Seq<u8>, b: u8) -> nat
    decreases s.len(),
{
    if s.len() == 0 {
        0
    } else {
        count_byte(s.drop_last(), b) + (if s.last() == b {
            1nat
        } else {
            0nat
        })
    }
}

/// A byte that never occurs is counted zero times.
pub proof fn lemma_absent_count_zero(s: Seq<u8>, b: u8)
    requires
        !s.contains(b),
    ensures
        count_byte(s, b) == 0,
    decreases s.len(),
{
    if s.len() > 0 {
        assert(!s.drop_last().contains(b)) by {
            if s.drop_last().contains(b) {
                let k = choose|k: int| 0 <= k < s.drop_last().len() && s.drop_last()[k] == b;
                assert(s[k] == b);
            }
        }
        lemma_absent_count_zero(s.drop_last(), b);
        assert(s.last() != b) by {
            if s.last() == b {
                assert(s[s.len() - 1] == b);
            }
        }
    }
}

/// A message that itself contains no delimiter goes on the wire
/// terminated by exactly one.
pub proof fn lemma_frame_single_delimiter(msg: Seq<u8>)
    requires
        !msg.contains(DELIMITER),
    ensures
        framed(msg).len() == msg.len() + 1,
        framed(msg).last() == DELIMITER,
        count_byte(framed(msg), DELIMITER) == 1,
{
    assert(framed(msg).drop_last() =~= msg);
    lemma_absent_count_zero(msg, DELIMITER);
}

/// Round trip: stripping the delimiter from a framed message recovers
/// the message, whatever bytes it held.
pub proof fn lemma_frame_round_trip(msg: Seq<u8>)
    ensures
        framed(msg).len() == msg.len() + 1,
        framed(msg).last() == DELIMITER,
        payload_of(framed(msg)) == msg,
{
    assert(framed(msg).drop_last() =~= msg);
}

/// The byte stream one sender produces by writing its messages in order,
/// each framed.
pub open spec fn wire_of(msgs: Seq<Seq<u8>>) -> Seq<u8>
    decreases msgs.len(),
{
    if msgs.len() == 0 {
        Seq::empty()
    } else {
        framed(msgs[0]) + wire_of(msgs.drop_first())
    }
}

/// `i` is the position of the first delimiter in `stream`.
pub open spec fn is_first_delim(stream: Seq<u8>, i: int) -> bool {
    &&& 0 <= i < stream.len()
    &&& stream[i] == DELIMITER
    &&& forall|j: int| 0 <= j < i ==> stream[j] != DELIMITER
}

/// How a reader cuts a byte stream back into lines: at each delimiter,
/// in order; a trailing chunk with no delimiter stays as it is.
pub open spec fn split_lines(stream: Seq<u8>) -> Seq<Seq<u8>>
    decreases stream.len(),
{
    if exists|i: int| is_first_delim(stream, i) {
        let i = choose|i: int| is_first_delim(stream, i);
        seq![stream.take(i)] + split_lines(stream.skip(i + 1))
    } else if stream.len() == 0 {
        Seq::empty()
    } else {
        seq![stream]
    }
}

/// At most one position is the first delimiter.
proof fn lemma_first_delim_unique(stream: Seq<u8>, i: int, j: int)
    requires
        is_first_delim(stream, i),
        is_first_delim(stream, j),
    ensures
        i == j,
{
}

/// Per-sender order survives the wire: the byte stream built from a
/// sender's messages, none of which contains the delimiter, splits back
/// into exactly those messages, in the order they were written.
pub proof fn lemma_wire_preserves_lines(msgs: Seq<Seq<u8>>)
    requires
        forall|k: int| 0 <= k < msgs.len() ==> !(#[trigger] msgs[k]).contains(DELIMITER),
    ensures
        split_lines(wire_of(msgs)) == msgs,
    decreases msgs.len(),
{
    let w = wire_of(msgs);
    if msgs.len() == 0 {
        assert(!exists|i: int| is_first_delim(w, i));
        assert(split_lines(w) =~= msgs);
    } else {
        let m0 = msgs[0];
        let rest = msgs.drop_first();
        assert(!m0.contains(DELIMITER));
        assert(w == framed(m0) + wire_of(rest));
        let f = m0.len() as int;
        assert(w[f] == DELIMITER);
        assert forall|j: int| 0 <= j < f implies w[j] != DELIMITER by {
            assert(w[j] == m0[j]);
            if m0[j] == DELIMITER {
                assert(m0.contains(DELIMITER));
            }
        }
        assert(is_first_delim(w, f));
        let i = choose|i: int| is_first_delim(w, i);
        lemma_first_delim_unique(w, i, f);
        assert(w.take(i) =~= m0);
        assert(w.skip(i + 1) =~= wire_of(rest));
        assert(forall|k: int| 0 <= k < rest.len() ==> rest[k] == msgs[k + 1]);
        lemma_wire_preserves_lines(rest);
        assert(seq![m0] + rest =~= msgs);
    }
}

} // verus!
