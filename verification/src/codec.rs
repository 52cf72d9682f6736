//! Decoding buffers into packets and encoding packets into frames.

use crate::frame::{
    all_zero, decoded, drop_spaces, drop_zeros, encoded, join, leading_space, lemma_split_len,
    lemma_split_push, skip_spaces, skip_zeros, split, trailing_space, trim_spaces, trimmed, views,
    window, DecodeError, Packet, PacketView, MAX_FRAME, SPACE,
};
use vstd::prelude::*;
use vstd::slice::slice_subrange;
use vstd::slice::slice_to_vec;
use vstd::utf8::valid_utf8;

verus! {

/// Calls `std::str::from_utf8` and tells whether it accepted the bytes. That
/// function accepts exactly the byte strings that are UTF-8, which is what
/// `valid_utf8` states.
#[verifier::external_body]
fn is_utf8(bytes: &[u8]) -> (ok: bool)
    ensures
        ok == valid_utf8(bytes@),
{
    std::str::from_utf8(bytes).is_ok()
}

/// Tells whether two byte strings are the same.
pub fn same_bytes(a: &[u8], b: &[u8]) -> (same: bool)
    ensures
        same == (a@ == b@),
{
    if a.len() != b.len() {
        return false;
    }
    let mut i: usize = 0;
    while i < a.len()
        invariant
            a@.len() == b@.len(),
            i <= a@.len(),
            forall|j: int| 0 <= j < i ==> a@[j] == b@[j],
        decreases a@.len() - i,
    {
        if a[i] != b[i] {
            return false;
        }
        i += 1;
    }
    assert(a@ =~= b@);
    true
}

/// Tells whether `bytes` holds nothing but zero bytes.
fn is_all_zero(bytes: &[u8]) -> (zero: bool)
    ensures
        zero == all_zero(bytes@),
{
    let mut i: usize = 0;
    while i < bytes.len()
        invariant
            i <= bytes@.len(),
            forall|j: int| 0 <= j < i ==> bytes@[j] == 0,
        decreases bytes@.len() - i,
    {
        if bytes[i] != 0 {
            return false;
        }
        i += 1;
    }
    true
}

/// The length of the white-space character at the start of `bytes[from..to]`.
fn space_ahead(bytes: &[u8], from: usize, to: usize) -> (k: usize)
    requires
        from <= to <= bytes@.len(),
    ensures
        k == leading_space(bytes@.subrange(from as int, to as int)),
        from + k <= to,
{
    let n: usize = to - from;
    let ghost s = bytes@.subrange(from as int, to as int);
    if n >= 1 {
        let a: u8 = bytes[from];
        assert(a == s[0]);
        if (0x09 <= a && a <= 0x0d) || a == 0x20 {
            return 1;
        }
        if n >= 2 {
            let b: u8 = bytes[from + 1];
            assert(b == s[1]);
            if a == 0xc2 && (b == 0x85 || b == 0xa0) {
                return 2;
            }
            if n >= 3 {
                let c: u8 = bytes[from + 2];
                assert(c == s[2]);
                if (a == 0xe1 && b == 0x9a && c == 0x80) || (a == 0xe2 && b == 0x80 && ((0x80 <= c
                    && c <= 0x8a) || c == 0xa8 || c == 0xa9 || c == 0xaf)) || (a == 0xe2 && b
                    == 0x81 && c == 0x9f) || (a == 0xe3 && b == 0x80 && c == 0x80) {
                    return 3;
                }
            }
        }
    }
    0
}

/// The length of the white-space character at the end of `bytes[from..to]`.
fn space_behind(bytes: &[u8], from: usize, to: usize) -> (k: usize)
    requires
        from <= to <= bytes@.len(),
    ensures
        k == trailing_space(bytes@.subrange(from as int, to as int)),
        from + k <= to,
{
    let n: usize = to - from;
    let ghost s = bytes@.subrange(from as int, to as int);
    if n >= 1 {
        let c: u8 = bytes[to - 1];
        assert(c == s[n - 1]);
        if (0x09 <= c && c <= 0x0d) || c == 0x20 {
            return 1;
        }
        if n >= 2 {
            let b: u8 = bytes[to - 2];
            assert(b == s[n - 2]);
            if b == 0xc2 && (c == 0x85 || c == 0xa0) {
                return 2;
            }
            if n >= 3 {
                let a: u8 = bytes[to - 3];
                assert(a == s[n - 3]);
                if (a == 0xe1 && b == 0x9a && c == 0x80) || (a == 0xe2 && b == 0x80 && ((0x80 <= c
                    && c <= 0x8a) || c == 0xa8 || c == 0xa9 || c == 0xaf)) || (a == 0xe2 && b
                    == 0x81 && c == 0x9f) || (a == 0xe3 && b == 0x80 && c == 0x80) {
                    return 3;
                }
            }
        }
    }
    0
}

/// Where the text of `bytes[from..to]` starts and ends once the white space
/// around it is left out.
fn space_bounds(bytes: &[u8], from: usize, to: usize) -> (at: (usize, usize))
    requires
        from <= to <= bytes@.len(),
    ensures
        from <= at.0 <= at.1 <= to,
        bytes@.subrange(at.0 as int, at.1 as int) == trim_spaces(
            bytes@.subrange(from as int, to as int),
        ),
{
    let mut a: usize = from;
    let mut k: usize = space_ahead(bytes, a, to);
    while k > 0
        invariant
            from <= a <= to <= bytes@.len(),
            a + k <= to,
            k == leading_space(bytes@.subrange(a as int, to as int)),
            skip_spaces(bytes@.subrange(from as int, to as int)) == skip_spaces(
                bytes@.subrange(a as int, to as int),
            ),
        decreases to - a,
    {
        assert(bytes@.subrange(a as int, to as int).skip(k as int) =~= bytes@.subrange(
            a + k,
            to as int,
        ));
        a += k;
        k = space_ahead(bytes, a, to);
    }
    let mut b: usize = to;
    k = space_behind(bytes, a, b);
    while k > 0
        invariant
            a <= b <= to <= bytes@.len(),
            a + k <= b,
            k == trailing_space(bytes@.subrange(a as int, b as int)),
            drop_spaces(bytes@.subrange(a as int, to as int)) == drop_spaces(
                bytes@.subrange(a as int, b as int),
            ),
        decreases b - a,
    {
        assert(bytes@.subrange(a as int, b as int).take(b - a - k) =~= bytes@.subrange(
            a as int,
            b - k,
        ));
        b -= k;
        k = space_behind(bytes, a, b);
    }
    (a, b)
}

/// `bytes` without the white space on either side.
pub fn trim(bytes: &[u8]) -> (text: &[u8])
    ensures
        text@ == trim_spaces(bytes@),
{
    let (from, to) = space_bounds(bytes, 0, bytes.len());
    assert(bytes@.subrange(0, bytes@.len() as int) =~= bytes@);
    slice_subrange(bytes, from, to)
}

/// Where the text of `bytes` starts and ends once its zero padding and the
/// white space around what is left are left out.
fn text_bounds(bytes: &[u8]) -> (at: (usize, usize))
    ensures
        at.0 <= at.1 <= bytes@.len(),
        bytes@.subrange(at.0 as int, at.1 as int) == trimmed(bytes@),
{
    let n: usize = bytes.len();
    let mut lo: usize = 0;
    assert(bytes@.skip(0) =~= bytes@);
    while lo < n && bytes[lo] == 0
        invariant
            lo <= n == bytes@.len(),
            skip_zeros(bytes@) == skip_zeros(bytes@.skip(lo as int)),
        decreases n - lo,
    {
        assert(bytes@.skip(lo as int).skip(1) =~= bytes@.skip(lo + 1));
        lo += 1;
    }
    assert(bytes@.skip(lo as int) =~= bytes@.subrange(lo as int, n as int));
    let mut hi: usize = n;
    while hi > lo && bytes[hi - 1] == 0
        invariant
            lo <= hi <= n == bytes@.len(),
            drop_zeros(bytes@.subrange(lo as int, n as int)) == drop_zeros(
                bytes@.subrange(lo as int, hi as int),
            ),
        decreases hi - lo,
    {
        assert(bytes@.subrange(lo as int, hi as int).drop_last() =~= bytes@.subrange(
            lo as int,
            hi - 1,
        ));
        hi -= 1;
    }
    space_bounds(bytes, lo, hi)
}

/// The tokens of `bytes[from..to]`.
fn tokens_between(bytes: &[u8], from: usize, to: usize) -> (tokens: Vec<Vec<u8>>)
    requires
        from <= to <= bytes@.len(),
    ensures
        views(tokens@) == split(bytes@.subrange(from as int, to as int)),
{
    let mut tokens: Vec<Vec<u8>> = Vec::new();
    let mut current: Vec<u8> = Vec::new();
    let mut i: usize = from;
    proof {
        let nothing = bytes@.subrange(from as int, i as int);
        assert(nothing =~= Seq::<u8>::empty());
        assert(split(nothing) =~= views(tokens@).push(current@));
    }
    while i < to
        invariant
            from <= i <= to <= bytes@.len(),
            split(bytes@.subrange(from as int, i as int)) == views(tokens@).push(current@),
        decreases to - i,
    {
        let byte: u8 = bytes[i];
        proof {
            let seen = bytes@.subrange(from as int, i as int);
            lemma_split_push(seen, byte);
            assert(seen.push(byte) =~= bytes@.subrange(from as int, i + 1));
        }
        let ghost before = views(tokens@);
        if byte == SPACE {
            tokens.push(current);
            current = Vec::new();
            assert(views(tokens@).push(current@) =~= before.push(tokens@.last()@).push(
                Seq::empty(),
            ));
        } else {
            let ghost last = current@;
            current.push(byte);
            assert(views(tokens@).push(current@) =~= before.push(last).drop_last().push(
                last.push(byte),
            ));
        }
        i += 1;
    }
    let ghost before = views(tokens@);
    let ghost last = current@;
    tokens.push(current);
    assert(views(tokens@) =~= before.push(last));
    tokens
}

/// Decodes one buffer. Of a buffer longer than [`MAX_FRAME`] only the first
/// [`MAX_FRAME`] bytes count. A buffer that is empty or all zero reports that
/// the peer has gone; one that is not UTF-8 is malformed; any other buffer
/// holds a packet, whose tokens are what stands between the spaces of its
/// trimmed text.
pub fn decode(raw: &[u8]) -> (result: Result<Packet, DecodeError>)
    ensures
        match result {
            Ok(packet) => decoded(raw@) == Ok::<PacketView, DecodeError>(packet@),
            Err(error) => decoded(raw@) == Err::<PacketView, DecodeError>(error),
        },
{
    let n: usize = if raw.len() <= MAX_FRAME {
        raw.len()
    } else {
        MAX_FRAME
    };
    let frame = slice_subrange(raw, 0, n);
    assert(frame@ =~= window(raw@));
    if is_all_zero(frame) {
        return Err(DecodeError::PeerClosed);
    }
    if !is_utf8(frame) {
        return Err(DecodeError::MalformedFrame);
    }
    let (lo, hi) = text_bounds(frame);
    let mut tokens = tokens_between(frame, lo, hi);
    proof {
        lemma_split_len(trimmed(frame@));
    }
    let ghost all = views(tokens@);
    let header = tokens.remove(0);
    let packet = Packet { header, arguments: tokens };
    assert(packet@.arguments =~= all.skip(1));
    Ok(packet)
}

/// Encodes a header and its arguments: the tokens in order, a single space
/// between neighbours, nothing before or after.
pub fn encode(header: &[u8], arguments: &Vec<Vec<u8>>) -> (frame: Vec<u8>)
    ensures
        frame@ == encoded(header@, views(arguments@)),
{
    let mut frame: Vec<u8> = slice_to_vec(header);
    let ghost tokens = seq![header@] + views(arguments@);
    let mut i: usize = 0;
    assert(tokens.take(1) =~= seq![header@]);
    while i < arguments.len()
        invariant
            i <= arguments@.len(),
            tokens == seq![header@] + views(arguments@),
            frame@ == join(tokens.take(i + 1)),
        decreases arguments@.len() - i,
    {
        frame.push(SPACE);
        frame.extend_from_slice(arguments[i].as_slice());
        proof {
            let now = tokens.take(i + 2);
            assert(now.drop_last() =~= tokens.take(i + 1));
            assert(now.last() == arguments@[i as int]@);
            assert(frame@ =~= join(tokens.take(i + 1)) + seq![SPACE] + arguments@[i as int]@);
        }
        i += 1;
    }
    assert(tokens.take(i + 1) =~= tokens);
    frame
}

impl Packet {
    /// The text that the arguments spell: the arguments with a single space
    /// between neighbours, so that the spaces of the sender's text are kept.
    pub fn text(&self) -> (text: Vec<u8>)
        ensures
            text@ == join(self@.arguments),
    {
        let mut text: Vec<u8> = Vec::new();
        let ghost tokens = views(self.arguments@);
        let mut i: usize = 0;
        assert(tokens.take(0) =~= Seq::<Seq<u8>>::empty());
        while i < self.arguments.len()
            invariant
                i <= self.arguments@.len(),
                tokens == views(self.arguments@),
                text@ == join(tokens.take(i as int)),
            decreases self.arguments@.len() - i,
        {
            if i > 0 {
                text.push(SPACE);
            }
            text.extend_from_slice(self.arguments[i].as_slice());
            proof {
                let now = tokens.take(i + 1);
                assert(now.drop_last() =~= tokens.take(i as int));
                assert(now.last() == self.arguments@[i as int]@);
                if i > 0 {
                    assert(text@ =~= join(tokens.take(i as int)) + seq![SPACE]
                        + self.arguments@[i as int]@);
                } else {
                    assert(text@ =~= self.arguments@[i as int]@);
                }
            }
            i += 1;
        }
        assert(tokens.take(i as int) =~= tokens);
        text
    }
}

} // verus!
