//! The wire format: one frame of at most [`MAX_FRAME`] bytes carries one packet,
//! a header token followed by argument tokens, all separated by single spaces.

use vstd::prelude::*;
use vstd::utf8::valid_utf8;

verus! {

/// The largest number of bytes that one frame carries. Bytes beyond it are cut off.
pub const MAX_FRAME: usize = 128;

/// The byte that separates the tokens of a frame.
pub const SPACE: u8 = 0x20;

/// Why a frame holds no packet.
#[derive(Debug, Clone, Copy, PartialEq, Eq, Structural)]
pub enum DecodeError {
    /// The frame is not valid UTF-8.
    MalformedFrame,
    /// The frame is empty or holds nothing but zero bytes: the peer has gone.
    PeerClosed,
}

/// One decoded packet.
#[derive(Debug)]
pub struct Packet {
    pub header: Vec<u8>,
    pub arguments: Vec<Vec<u8>>,
}

/// What a [`Packet`] stands for: its header and its arguments as byte sequences.
pub struct PacketView {
    pub header: Seq<u8>,
    pub arguments: Seq<Seq<u8>>,
}

/// The byte sequences that a vector of tokens holds.
pub open spec fn views(tokens: Seq<Vec<u8>>) -> Seq<Seq<u8>> {
    Seq::new(tokens.len(), |i: int| tokens[i]@)
}

impl View for Packet {
    type V = PacketView;

    open spec fn view(&self) -> PacketView {
        PacketView { header: self.header@, arguments: views(self.arguments@) }
    }
}

// ---------------------------------------------------------------------------
// The part of a buffer that counts
// ---------------------------------------------------------------------------

/// The bytes of `raw` that belong to the frame: the first [`MAX_FRAME`] of them.
pub open spec fn window(raw: Seq<u8>) -> Seq<u8> {
    if raw.len() <= MAX_FRAME {
        raw
    } else {
        raw.take(MAX_FRAME as int)
    }
}

/// True when `s` holds no byte other than zero (an empty `s` included).
pub open spec fn all_zero(s: Seq<u8>) -> bool {
    forall|i: int| 0 <= i < s.len() ==> s[i] == 0
}

// ---------------------------------------------------------------------------
// Trimming
// ---------------------------------------------------------------------------

/// `s` without the zero bytes it begins with.
pub open spec fn skip_zeros(s: Seq<u8>) -> Seq<u8>
    decreases s.len(),
{
    if s.len() > 0 && s[0] == 0 {
        skip_zeros(s.skip(1))
    } else {
        s
    }
}

/// `s` without the zero bytes it ends with.
pub open spec fn drop_zeros(s: Seq<u8>) -> Seq<u8>
    decreases s.len(),
{
    if s.len() > 0 && s.last() == 0 {
        drop_zeros(s.drop_last())
    } else {
        s
    }
}

/// A white-space character that UTF-8 writes in one byte: U+0009 to U+000D, U+0020.
pub open spec fn is_space_1(a: u8) -> bool {
    (0x09 <= a <= 0x0d) || a == 0x20
}

/// A white-space character that UTF-8 writes in two bytes: U+0085, U+00A0.
pub open spec fn is_space_2(a: u8, b: u8) -> bool {
    a == 0xc2 && (b == 0x85 || b == 0xa0)
}

/// A white-space character that UTF-8 writes in three bytes: U+1680, U+2000 to
/// U+200A, U+2028, U+2029, U+202F, U+205F, U+3000.
pub open spec fn is_space_3(a: u8, b: u8, c: u8) -> bool {
    ||| (a == 0xe1 && b == 0x9a && c == 0x80)
    ||| (a == 0xe2 && b == 0x80 && ((0x80 <= c <= 0x8a) || c == 0xa8 || c == 0xa9 || c == 0xaf))
    ||| (a == 0xe2 && b == 0x81 && c == 0x9f)
    ||| (a == 0xe3 && b == 0x80 && c == 0x80)
}

/// The number of bytes of the white-space character that `s` begins with,
/// 0 where it begins with none.
pub open spec fn leading_space(s: Seq<u8>) -> int {
    if s.len() >= 1 && is_space_1(s[0]) {
        1
    } else if s.len() >= 2 && is_space_2(s[0], s[1]) {
        2
    } else if s.len() >= 3 && is_space_3(s[0], s[1], s[2]) {
        3
    } else {
        0
    }
}

/// The number of bytes of the white-space character that `s` ends with,
/// 0 where it ends with none.
pub open spec fn trailing_space(s: Seq<u8>) -> int {
    let n = s.len() as int;
    if n >= 1 && is_space_1(s[n - 1]) {
        1
    } else if n >= 2 && is_space_2(s[n - 2], s[n - 1]) {
        2
    } else if n >= 3 && is_space_3(s[n - 3], s[n - 2], s[n - 1]) {
        3
    } else {
        0
    }
}

/// `s` without the white space it begins with.
pub open spec fn skip_spaces(s: Seq<u8>) -> Seq<u8>
    decreases s.len(),
{
    let k = leading_space(s);
    if k > 0 {
        skip_spaces(s.skip(k))
    } else {
        s
    }
}

/// `s` without the white space it ends with.
pub open spec fn drop_spaces(s: Seq<u8>) -> Seq<u8>
    decreases s.len(),
{
    let k = trailing_space(s);
    if k > 0 {
        drop_spaces(s.take(s.len() - k))
    } else {
        s
    }
}

/// `s` without the white space on either side.
pub open spec fn trim_spaces(s: Seq<u8>) -> Seq<u8> {
    drop_spaces(skip_spaces(s))
}

/// The text of a frame: its zero padding removed on both sides, then the white
/// space around what is left.
pub open spec fn trimmed(s: Seq<u8>) -> Seq<u8> {
    trim_spaces(drop_zeros(skip_zeros(s)))
}

// ---------------------------------------------------------------------------
// Tokens
// ---------------------------------------------------------------------------

/// The place of the last [`SPACE`] in `s`, or -1 where `s` holds none.
pub open spec fn last_space(s: Seq<u8>) -> int
    decreases s.len(),
{
    if s.len() == 0 {
        -1
    } else if s.last() == SPACE {
        s.len() - 1
    } else {
        last_space(s.drop_last())
    }
}

/// True when no byte of `s` is a [`SPACE`].
pub open spec fn spaceless(s: Seq<u8>) -> bool {
    forall|i: int| 0 <= i < s.len() ==> s[i] != SPACE
}

/// The tokens of `s`: the stretches between its spaces, empty ones included.
/// There is always at least one.
pub open spec fn split(s: Seq<u8>) -> Seq<Seq<u8>>
    decreases s.len(),
{
    let j = last_space(s);
    if 0 <= j < s.len() {
        split(s.take(j)).push(s.skip(j + 1))
    } else {
        seq![s]
    }
}

/// The tokens written one after the other with a single [`SPACE`] between
/// neighbours.
pub open spec fn join(tokens: Seq<Seq<u8>>) -> Seq<u8>
    decreases tokens.len(),
{
    if tokens.len() == 0 {
        Seq::empty()
    } else if tokens.len() == 1 {
        tokens[0]
    } else {
        join(tokens.drop_last()) + seq![SPACE] + tokens.last()
    }
}

/// The packet that the text of a frame spells: the first token is the header,
/// the others are the arguments.
pub open spec fn parsed(text: Seq<u8>) -> PacketView {
    let tokens = split(text);
    PacketView { header: tokens[0], arguments: tokens.skip(1) }
}

/// What a buffer decodes to.
pub open spec fn decoded(raw: Seq<u8>) -> Result<PacketView, DecodeError> {
    let frame = window(raw);
    if all_zero(frame) {
        Err(DecodeError::PeerClosed)
    } else if !valid_utf8(frame) {
        Err(DecodeError::MalformedFrame)
    } else {
        Ok(parsed(trimmed(frame)))
    }
}

/// The frame for a header and its arguments.
pub open spec fn encoded(header: Seq<u8>, arguments: Seq<Seq<u8>>) -> Seq<u8> {
    join(seq![header] + arguments)
}

// ---------------------------------------------------------------------------
// Facts about tokens
// ---------------------------------------------------------------------------

/// Where [`last_space`] points there is a space, and none comes after it.
pub proof fn lemma_last_space(s: Seq<u8>)
    ensures
        -1 <= last_space(s) < s.len(),
        last_space(s) >= 0 ==> s[last_space(s)] == SPACE,
        forall|i: int| last_space(s) < i < s.len() ==> s[i] != SPACE,
    decreases s.len(),
{
    if s.len() > 0 && s.last() != SPACE {
        let t = s.drop_last();
        lemma_last_space(t);
        assert forall|i: int| last_space(s) < i < s.len() implies s[i] != SPACE by {
            if i < t.len() {
                assert(t[i] == s[i]);
            }
        }
    }
}

/// Every text has at least one token.
pub proof fn lemma_split_len(s: Seq<u8>)
    ensures
        split(s).len() >= 1,
    decreases s.len(),
{
    lemma_last_space(s);
    let j = last_space(s);
    if 0 <= j < s.len() {
        lemma_split_len(s.take(j));
    }
}

/// One more byte: a space opens a new, empty token; any other byte lengthens
/// the last token.
pub proof fn lemma_split_push(s: Seq<u8>, byte: u8)
    ensures
        byte == SPACE ==> split(s.push(byte)) == split(s).push(Seq::empty()),
        byte != SPACE ==> split(s.push(byte)) == split(s).drop_last().push(
            split(s).last().push(byte),
        ),
{
    let t = s.push(byte);
    lemma_last_space(s);
    lemma_split_len(s);
    assert(t.drop_last() =~= s);
    if byte == SPACE {
        assert(t.take(s.len() as int) =~= s);
        assert(t.skip(s.len() as int + 1) =~= Seq::<u8>::empty());
    } else {
        let j = last_space(s);
        assert(last_space(t) == j);
        if 0 <= j < s.len() {
            assert(t.take(j) =~= s.take(j));
            assert(t.skip(j + 1) =~= s.skip(j + 1).push(byte));
            assert(split(s).drop_last() =~= split(s.take(j)));
        } else {
            assert(split(s).drop_last().push(split(s).last().push(byte)) =~= seq![t]);
        }
    }
}

/// Splitting loses nothing: the tokens of a text, joined again, are the text,
/// with every space where it was.
pub proof fn lemma_join_split(s: Seq<u8>)
    ensures
        join(split(s)) == s,
    decreases s.len(),
{
    lemma_last_space(s);
    let j = last_space(s);
    if 0 <= j < s.len() {
        let head = split(s.take(j));
        let tail = s.skip(j + 1);
        lemma_join_split(s.take(j));
        lemma_split_len(s.take(j));
        assert(head.push(tail).drop_last() =~= head);
        assert(s.take(j) + seq![SPACE] + tail =~= s);
    }
}

/// Joining adds nothing: tokens that hold no space, joined and split again,
/// are the same tokens.
pub proof fn lemma_split_join(tokens: Seq<Seq<u8>>)
    requires
        tokens.len() >= 1,
        forall|i: int| 0 <= i < tokens.len() ==> spaceless(#[trigger] tokens[i]),
    ensures
        split(join(tokens)) == tokens,
    decreases tokens.len(),
{
    if tokens.len() == 1 {
        lemma_spaceless_has_no_last_space(tokens[0]);
        assert(seq![tokens[0]] =~= tokens);
    } else {
        let init = tokens.drop_last();
        let last = tokens.last();
        assert forall|i: int| 0 <= i < init.len() implies spaceless(#[trigger] init[i]) by {
            assert(init[i] == tokens[i]);
        }
        lemma_split_join(init);
        let whole = join(init) + seq![SPACE] + last;
        lemma_last_space_before(join(init), last);
        assert(whole.take(join(init).len() as int) =~= join(init));
        assert(whole.skip(join(init).len() as int + 1) =~= last);
        assert(init.push(last) =~= tokens);
    }
}

/// A text without a space has no last space.
pub proof fn lemma_spaceless_has_no_last_space(s: Seq<u8>)
    requires
        spaceless(s),
    ensures
        last_space(s) == -1,
    decreases s.len(),
{
    if s.len() > 0 {
        let t = s.drop_last();
        assert forall|i: int| 0 <= i < t.len() implies t[i] != SPACE by {
            assert(t[i] == s[i]);
        }
        lemma_spaceless_has_no_last_space(t);
    }
}

/// The last space of `a`, a space, then a spaceless `b` is the one between them.
pub proof fn lemma_last_space_before(a: Seq<u8>, b: Seq<u8>)
    requires
        spaceless(b),
    ensures
        last_space(a + seq![SPACE] + b) == a.len(),
    decreases b.len(),
{
    let whole = a + seq![SPACE] + b;
    if b.len() == 0 {
        assert(whole.last() == SPACE);
    } else {
        let t = b.drop_last();
        assert forall|i: int| 0 <= i < t.len() implies t[i] != SPACE by {
            assert(t[i] == b[i]);
        }
        lemma_last_space_before(a, t);
        assert(whole.last() == b.last());
        assert(whole.drop_last() =~= a + seq![SPACE] + t);
    }
}

/// A spaceless text is its own single token.
pub proof fn lemma_split_spaceless(s: Seq<u8>)
    requires
        spaceless(s),
    ensures
        split(s) == seq![s],
{
    lemma_spaceless_has_no_last_space(s);
}

/// What stands before the first space is the first token, and the tokens
/// behind it are the tokens of what stands behind that space.
pub proof fn lemma_split_behind_header(header: Seq<u8>, rest: Seq<u8>)
    requires
        spaceless(header),
    ensures
        split(header + seq![SPACE] + rest) == seq![header] + split(rest),
    decreases rest.len(),
{
    let whole = header + seq![SPACE] + rest;
    lemma_last_space(rest);
    let j = last_space(rest);
    if 0 <= j < rest.len() {
        let at = header.len() + 1 + j;
        lemma_last_space_behind(header + seq![SPACE], rest);
        assert(header + seq![SPACE] + rest =~= (header + seq![SPACE]) + rest);
        assert(last_space(whole) == at);
        assert(whole.take(at) =~= header + seq![SPACE] + rest.take(j));
        assert(whole.skip(at + 1) =~= rest.skip(j + 1));
        lemma_split_behind_header(header, rest.take(j));
        assert((seq![header] + split(rest.take(j))).push(rest.skip(j + 1)) =~= seq![header]
            + split(rest.take(j)).push(rest.skip(j + 1)));
    } else {
        lemma_spaceless_has_no_last_space_converse(rest);
        lemma_last_space_before(header, rest);
        lemma_split_spaceless(header);
        lemma_split_spaceless(rest);
        assert(whole.take(header.len() as int) =~= header);
        assert(whole.skip(header.len() as int + 1) =~= rest);
        assert(seq![header].push(rest) =~= seq![header] + seq![rest]);
    }
}

/// A text whose last space is nowhere holds no space.
pub proof fn lemma_spaceless_has_no_last_space_converse(s: Seq<u8>)
    requires
        last_space(s) < 0,
    ensures
        spaceless(s),
{
    lemma_last_space(s);
}

/// The last space of a text behind a prefix is the last space of the text,
/// moved by the length of the prefix.
pub proof fn lemma_last_space_behind(prefix: Seq<u8>, s: Seq<u8>)
    requires
        last_space(s) >= 0,
    ensures
        last_space(prefix + s) == prefix.len() + last_space(s),
    decreases s.len(),
{
    let whole = prefix + s;
    if s.len() > 0 {
        assert(whole.last() == s.last());
        if s.last() != SPACE {
            assert(whole.drop_last() =~= prefix + s.drop_last());
            lemma_last_space_behind(prefix, s.drop_last());
        }
    }
}

/// What is sent behind a header arrives as it was sent: the arguments of the
/// packet, joined, are the text behind the header's space, byte for byte.
pub proof fn lemma_text_behind_header(header: Seq<u8>, text: Seq<u8>)
    requires
        spaceless(header),
    ensures
        parsed(header + seq![SPACE] + text).header == header,
        parsed(header + seq![SPACE] + text).arguments == split(text),
        join(parsed(header + seq![SPACE] + text).arguments) == text,
{
    lemma_split_behind_header(header, text);
    lemma_join_split(text);
    let tokens = seq![header] + split(text);
    assert(tokens.skip(1) =~= split(text));
}

/// The header and the arguments of a packet, joined, are the text that was
/// parsed.
pub proof fn lemma_parsed_spells_text(text: Seq<u8>)
    ensures
        encoded(parsed(text).header, parsed(text).arguments) == text,
{
    lemma_split_len(text);
    lemma_join_split(text);
    let tokens = split(text);
    assert(seq![tokens[0]] + tokens.skip(1) =~= tokens);
}

// ---------------------------------------------------------------------------
// Frames that decode to what was encoded
// ---------------------------------------------------------------------------

/// True when neither zero bytes nor white space stand at either end of `s`,
/// and `s` is not empty.
pub open spec fn tidy(s: Seq<u8>) -> bool {
    &&& s.len() > 0
    &&& s[0] != 0
    &&& s.last() != 0
    &&& leading_space(s) == 0
    &&& trailing_space(s) == 0
}

/// Trimming leaves a tidy text as it is.
pub proof fn lemma_tidy_is_trimmed(s: Seq<u8>)
    requires
        tidy(s),
    ensures
        trimmed(s) == s,
        !all_zero(s),
{
}

/// Decoding undoes encoding, where the frame fits, is UTF-8 and tidy, and no
/// token holds a space.
pub proof fn lemma_decode_encode(header: Seq<u8>, arguments: Seq<Seq<u8>>)
    requires
        encoded(header, arguments).len() <= MAX_FRAME,
        valid_utf8(encoded(header, arguments)),
        tidy(encoded(header, arguments)),
        spaceless(header),
        forall|i: int| 0 <= i < arguments.len() ==> spaceless(#[trigger] arguments[i]),
    ensures
        decoded(encoded(header, arguments)) == Ok::<PacketView, DecodeError>(
            PacketView { header, arguments },
        ),
{
    let tokens = seq![header] + arguments;
    let frame = encoded(header, arguments);
    lemma_tidy_is_trimmed(frame);
    assert forall|i: int| 0 <= i < tokens.len() implies spaceless(#[trigger] tokens[i]) by {
        if i > 0 {
            assert(tokens[i] == arguments[i - 1]);
        }
    }
    lemma_split_join(tokens);
    assert(tokens.skip(1) =~= arguments);
}

} // verus!
