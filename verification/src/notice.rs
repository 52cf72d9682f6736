//! The frames that the server and its clients exchange.

use crate::codec::encode;
use crate::frame::{encoded, join, spaceless, SPACE};
use crate::identity::{hyphenated, identity_text};
use vstd::prelude::*;
use vstd::string::StringSliceAdditionalSpecFns;

verus! {

/// The header by which a client registers.
pub open spec fn newu() -> Seq<u8> {
    "NEWU".spec_bytes()
}

/// The header by which the server tells a client its identity.
pub open spec fn user() -> Seq<u8> {
    "USER".spec_bytes()
}

/// The header of a chat message, and of a line that the server broadcasts.
pub open spec fn mess() -> Seq<u8> {
    "MESS".spec_bytes()
}

/// The header by which a client leaves, and by which the server lets it go.
pub open spec fn exit() -> Seq<u8> {
    "EXIT".spec_bytes()
}

/// What the server answers to a request that it does not take.
pub open spec fn unknown_request() -> Seq<u8> {
    "Unknown Request".spec_bytes()
}

/// The line that tells of a member who came.
pub open spec fn entered_line(name: Seq<u8>) -> Seq<u8> {
    name + " has entered the channel".spec_bytes()
}

/// The line that tells of a member who went.
pub open spec fn left_line(name: Seq<u8>) -> Seq<u8> {
    name + " has left the channel".spec_bytes()
}

/// The line that carries what a member said: the name, the time that the
/// server read off its clock, and the text, byte for byte.
pub open spec fn chat_line(name: Seq<u8>, stamp: Seq<u8>, text: Seq<u8>) -> Seq<u8> {
    name + " at ".spec_bytes() + stamp + ": ".spec_bytes() + text
}

/// The frame that carries a line to a client.
pub open spec fn mess_frame(line: Seq<u8>) -> Seq<u8> {
    mess() + seq![SPACE] + line
}

/// The frame that tells a client its identity.
pub open spec fn user_frame(identity: u128) -> Seq<u8> {
    user() + seq![SPACE] + hyphenated(identity)
}

/// The frame by which a client registers under a name.
pub open spec fn newu_frame(name: Seq<u8>) -> Seq<u8> {
    newu() + seq![SPACE] + name
}

/// The frame by which a client leaves, naming its identity.
pub open spec fn exit_frame(identity: Seq<u8>) -> Seq<u8> {
    exit() + seq![SPACE] + identity
}

/// The headers are four different words.
pub proof fn lemma_headers_differ()
    ensures
        newu() != user(),
        newu() != mess(),
        newu() != exit(),
        user() != mess(),
        user() != exit(),
        mess() != exit(),
{
    reveal_strlit("NEWU");
    reveal_strlit("USER");
    reveal_strlit("MESS");
    reveal_strlit("EXIT");
    vstd::string::is_ascii_spec_bytes("NEWU");
    vstd::string::is_ascii_spec_bytes("USER");
    vstd::string::is_ascii_spec_bytes("MESS");
    vstd::string::is_ascii_spec_bytes("EXIT");
    assert(newu()[0] == 0x4e);
    assert(user()[0] == 0x55);
    assert(mess()[0] == 0x4d);
    assert(exit()[0] == 0x45);
}

/// No header holds a space, and each begins with a letter of its own kind:
/// `E` for `EXIT`, `M` for `MESS`, `N` for `NEWU`, `U` for `USER` and for the
/// answer to an unknown request.
pub proof fn lemma_headers_shape()
    ensures
        spaceless(newu()),
        spaceless(user()),
        spaceless(mess()),
        spaceless(exit()),
        newu().len() == 4 && newu()[0] == 0x4e,
        user().len() == 4 && user()[0] == 0x55,
        mess().len() == 4 && mess()[0] == 0x4d,
        exit().len() == 4 && exit()[0] == 0x45,
        unknown_request().len() == 15 && unknown_request()[0] == 0x55,
{
    reveal_strlit("NEWU");
    reveal_strlit("USER");
    reveal_strlit("MESS");
    reveal_strlit("EXIT");
    reveal_strlit("Unknown Request");
    vstd::string::is_ascii_spec_bytes("NEWU");
    vstd::string::is_ascii_spec_bytes("USER");
    vstd::string::is_ascii_spec_bytes("MESS");
    vstd::string::is_ascii_spec_bytes("EXIT");
    vstd::string::is_ascii_spec_bytes("Unknown Request");
}

/// A header and one argument make the header, a space and the argument.
pub proof fn lemma_encoded_one(header: Seq<u8>, argument: Seq<u8>)
    ensures
        encoded(header, seq![argument]) == header + seq![SPACE] + argument,
{
    let tokens = seq![header] + seq![argument];
    assert(tokens.drop_last() =~= seq![header]);
    assert(join(tokens.drop_last()) == header);
}

/// A header without arguments makes the header alone.
pub proof fn lemma_encoded_none(header: Seq<u8>)
    ensures
        encoded(header, Seq::empty()) == header,
{
    assert(seq![header] + Seq::<Seq<u8>>::empty() =~= seq![header]);
}

/// The frame of a header and one argument.
pub(crate) fn frame_of(header: &str, argument: Vec<u8>) -> (frame: Vec<u8>)
    ensures
        frame@ == header.spec_bytes() + seq![SPACE] + argument@,
{
    let mut arguments: Vec<Vec<u8>> = Vec::new();
    arguments.push(argument);
    proof {
        lemma_encoded_one(header.spec_bytes(), argument@);
        assert(crate::frame::views(arguments@) =~= seq![argument@]);
    }
    encode(header.as_bytes(), &arguments)
}

/// `head`, then `tail`.
fn chained(head: &[u8], tail: &[u8]) -> (all: Vec<u8>)
    ensures
        all@ == head@ + tail@,
{
    let mut all: Vec<u8> = Vec::new();
    all.extend_from_slice(head);
    all.extend_from_slice(tail);
    assert(all@ =~= head@ + tail@);
    all
}

/// The frame `USER <identity>`, the identity in its hyphenated text.
pub fn user_frame_of(identity: u128) -> (frame: Vec<u8>)
    ensures
        frame@ == user_frame(identity),
{
    frame_of("USER", identity_text(identity))
}

/// The frame `MESS <name> has entered the channel`.
pub fn entered_frame_of(name: &[u8]) -> (frame: Vec<u8>)
    ensures
        frame@ == mess_frame(entered_line(name@)),
{
    frame_of("MESS", chained(name, " has entered the channel".as_bytes()))
}

/// The frame `MESS <name> has left the channel`.
pub fn left_frame_of(name: &[u8]) -> (frame: Vec<u8>)
    ensures
        frame@ == mess_frame(left_line(name@)),
{
    frame_of("MESS", chained(name, " has left the channel".as_bytes()))
}

/// The frame `MESS <name> at <stamp>: <text>`.
pub fn chat_frame_of(name: &[u8], stamp: &[u8], text: &[u8]) -> (frame: Vec<u8>)
    ensures
        frame@ == mess_frame(chat_line(name@, stamp@, text@)),
{
    let mut line: Vec<u8> = Vec::new();
    line.extend_from_slice(name);
    line.extend_from_slice(" at ".as_bytes());
    line.extend_from_slice(stamp);
    line.extend_from_slice(": ".as_bytes());
    line.extend_from_slice(text);
    assert(line@ =~= chat_line(name@, stamp@, text@));
    frame_of("MESS", line)
}

/// The frame `EXIT`, by which the server lets a client go.
pub fn exit_frame_of() -> (frame: Vec<u8>)
    ensures
        frame@ == exit(),
{
    let arguments: Vec<Vec<u8>> = Vec::new();
    proof {
        lemma_encoded_none(exit());
        assert(crate::frame::views(arguments@) =~= Seq::<Seq<u8>>::empty());
    }
    encode("EXIT".as_bytes(), &arguments)
}

/// The frame `Unknown Request`.
pub fn unknown_frame_of() -> (frame: Vec<u8>)
    ensures
        frame@ == unknown_request(),
{
    vstd::slice::slice_to_vec("Unknown Request".as_bytes())
}

} // verus!
