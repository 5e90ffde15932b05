//! The wire grammar, at the specification level.
//!
//! A frame is a 2-byte big-endian unsigned length `n` followed by `n` payload
//! bytes. The payload is one message in a compact self-describing binary
//! encoding (CBOR): a map of one or two entries, whose `"cmd"` entry carries
//! the variant name as a text string and whose `"data"` entry, where the
//! variant has a payload, carries that payload as a text string or as an
//! array of text strings. Length headers are always minimal-length and
//! definite; the decoder accepts exactly what the encoder produces.
//!
//! This module defines the encoding and the decoding as spec functions and
//! proves the round-trip and incremental-feed laws about them; the
//! executable codecs in [`crate::codec`] are verified against these
//! functions.

use vstd::prelude::*;
use vstd::utf8::{decode_utf8, encode_utf8, valid_utf8};

verus! {

/// An inbound command, at the specification level: the view of
/// [`crate::codec::ChatRequest`].
pub enum ReqView {
    NickName(Seq<char>),
    List,
    Join(Seq<char>),
    Message(Seq<char>),
    Ping,
}

/// An outbound response, at the specification level: the view of
/// [`crate::codec::ChatResponse`].
pub enum RespView {
    Ping,
    Rooms(Seq<Seq<char>>),
    Joined(Seq<char>),
    Message(Seq<char>),
    SetNickName(Seq<char>),
}

/// Why a complete frame's payload was rejected.
///
/// `Syntax`: the bytes do not parse as the tagged-union grammar at all
/// (bad header bytes, a truncated item, trailing bytes, or a text item
/// that is not valid UTF-8). `Data`: the bytes are structurally well
/// formed but violate the expected value shape (an unknown variant tag,
/// or a payload entry where the variant takes none, and the other way
/// round). An incomplete frame is never an error.
#[derive(Clone, Copy, PartialEq, Eq, Debug, Structural)]
pub enum DecodeError {
    Syntax,
    Data,
}

/// Why a message could not be encoded: its serialized payload would not
/// fit the 2-byte length prefix. Nothing is ever truncated.
#[derive(Clone, Copy, PartialEq, Eq, Debug, Structural)]
pub enum EncodeError {
    FrameTooLarge,
}

// ---------------------------------------------------------------------------
// Encoding
// ---------------------------------------------------------------------------

/// The minimal-length header for an item of the given major type and
/// length (or element count) `n`.
pub open spec fn len_header(major: u8, n: nat) -> Seq<u8> {
    if n <= 23 {
        seq![((major as nat) * 32 + n) as u8]
    } else if n <= 0xff {
        seq![((major as nat) * 32 + 24) as u8, n as u8]
    } else if n <= 0xffff {
        seq![((major as nat) * 32 + 25) as u8, (n / 256) as u8, (n % 256) as u8]
    } else if n <= 0xffff_ffff {
        seq![
            ((major as nat) * 32 + 26) as u8,
            (n / 0x1000000) as u8,
            ((n / 0x10000) % 256) as u8,
            ((n / 256) % 256) as u8,
            (n % 256) as u8,
        ]
    } else {
        seq![
            ((major as nat) * 32 + 27) as u8,
            (n / 0x100000000000000) as u8,
            ((n / 0x1000000000000) % 256) as u8,
            ((n / 0x10000000000) % 256) as u8,
            ((n / 0x100000000) % 256) as u8,
            ((n / 0x1000000) % 256) as u8,
            ((n / 0x10000) % 256) as u8,
            ((n / 256) % 256) as u8,
            (n % 256) as u8,
        ]
    }
}

/// A text item: header of major type 3, then the UTF-8 bytes.
pub open spec fn text_enc(s: Seq<char>) -> Seq<u8> {
    len_header(3, encode_utf8(s).len()) + encode_utf8(s)
}

/// The concatenation of the encodings of a sequence of text items.
pub open spec fn texts_enc(l: Seq<Seq<char>>) -> Seq<u8>
    decreases l.len(),
{
    if l.len() == 0 {
        Seq::empty()
    } else {
        text_enc(l[0]) + texts_enc(l.drop_first())
    }
}

/// An array of text items: header of major type 4, then the elements.
pub open spec fn array_enc(l: Seq<Seq<char>>) -> Seq<u8> {
    len_header(4, l.len()) + texts_enc(l)
}

/// The encoded map key `"cmd"`.
pub open spec fn key_cmd() -> Seq<u8> {
    seq![0x63u8, 0x63u8, 0x6du8, 0x64u8]
}

/// The encoded map key `"data"`.
pub open spec fn key_data() -> Seq<u8> {
    seq![0x64u8, 0x64u8, 0x61u8, 0x74u8, 0x61u8]
}

/// The raw bytes of the variant name `NickName`.
pub open spec fn name_nick_name() -> Seq<u8> {
    seq![0x4eu8, 0x69u8, 0x63u8, 0x6bu8, 0x4eu8, 0x61u8, 0x6du8, 0x65u8]
}

/// The raw bytes of the variant name `List`.
pub open spec fn name_list() -> Seq<u8> {
    seq![0x4cu8, 0x69u8, 0x73u8, 0x74u8]
}

/// The raw bytes of the variant name `Join`.
pub open spec fn name_join() -> Seq<u8> {
    seq![0x4au8, 0x6fu8, 0x69u8, 0x6eu8]
}

/// The raw bytes of the variant name `Message`.
pub open spec fn name_message() -> Seq<u8> {
    seq![0x4du8, 0x65u8, 0x73u8, 0x73u8, 0x61u8, 0x67u8, 0x65u8]
}

/// The raw bytes of the variant name `Ping`.
pub open spec fn name_ping() -> Seq<u8> {
    seq![0x50u8, 0x69u8, 0x6eu8, 0x67u8]
}

/// The raw bytes of the variant name `Rooms`.
pub open spec fn name_rooms() -> Seq<u8> {
    seq![0x52u8, 0x6fu8, 0x6fu8, 0x6du8, 0x73u8]
}

/// The raw bytes of the variant name `Joined`.
pub open spec fn name_joined() -> Seq<u8> {
    seq![0x4au8, 0x6fu8, 0x69u8, 0x6eu8, 0x65u8, 0x64u8]
}

/// The raw bytes of the variant name `SetNickName`.
pub open spec fn name_set_nick_name() -> Seq<u8> {
    seq![0x53u8, 0x65u8, 0x74u8, 0x4eu8, 0x69u8, 0x63u8, 0x6bu8, 0x4eu8, 0x61u8, 0x6du8, 0x65u8]
}

/// A variant name as a text item.
pub open spec fn tag_enc(name: Seq<u8>) -> Seq<u8> {
    len_header(3, name.len()) + name
}

/// A message with no payload: a one-entry map holding only the tag.
pub open spec fn unit_msg_enc(name: Seq<u8>) -> Seq<u8> {
    seq![0xa1u8] + key_cmd() + tag_enc(name)
}

/// A message with a text payload: a two-entry map.
pub open spec fn text_msg_enc(name: Seq<u8>, s: Seq<char>) -> Seq<u8> {
    seq![0xa2u8] + key_cmd() + tag_enc(name) + key_data() + text_enc(s)
}

/// A message whose payload is an array of text items.
pub open spec fn array_msg_enc(name: Seq<u8>, l: Seq<Seq<char>>) -> Seq<u8> {
    seq![0xa2u8] + key_cmd() + tag_enc(name) + key_data() + array_enc(l)
}

/// The payload bytes of a command.
pub open spec fn req_enc(r: ReqView) -> Seq<u8> {
    match r {
        ReqView::NickName(s) => text_msg_enc(name_nick_name(), s),
        ReqView::List => unit_msg_enc(name_list()),
        ReqView::Join(s) => text_msg_enc(name_join(), s),
        ReqView::Message(s) => text_msg_enc(name_message(), s),
        ReqView::Ping => unit_msg_enc(name_ping()),
    }
}

/// The payload bytes of a response.
pub open spec fn resp_enc(r: RespView) -> Seq<u8> {
    match r {
        RespView::Ping => unit_msg_enc(name_ping()),
        RespView::Rooms(l) => array_msg_enc(name_rooms(), l),
        RespView::Joined(s) => text_msg_enc(name_joined(), s),
        RespView::Message(s) => text_msg_enc(name_message(), s),
        RespView::SetNickName(s) => text_msg_enc(name_set_nick_name(), s),
    }
}

/// A whole frame: 2-byte big-endian length, then the payload.
/// Meaningful when the payload fits, `payload.len() <= 0xffff`.
pub open spec fn frame_enc(payload: Seq<u8>) -> Seq<u8> {
    seq![(payload.len() / 256) as u8, (payload.len() % 256) as u8] + payload
}

// ---------------------------------------------------------------------------
// Decoding
// ---------------------------------------------------------------------------

/// The payload length announced by a buffered frame's first two bytes.
/// Meaningful when `b.len() >= 2`.
pub open spec fn frame_len(b: Seq<u8>) -> nat {
    (b[0] as nat) * 256 + (b[1] as nat)
}

/// Whether a buffer does not yet hold a complete frame. An incomplete
/// buffer is consumed by nothing and is never an error.
pub open spec fn incomplete(b: Seq<u8>) -> bool {
    b.len() < 2 || b.len() < 2 + frame_len(b)
}

/// Whether the bytes `pat` stand in `b` at position `i`.
pub open spec fn bytes_at(b: Seq<u8>, i: int, pat: Seq<u8>) -> bool {
    0 <= i && i + pat.len() <= b.len() && b.subrange(i, i + pat.len() as int) == pat
}

/// Parses a minimal-length item header of the given major type at
/// position `i`: the item's length and the position after the header.
/// Lengths above `0xffff` never fit a frame and are rejected.
pub open spec fn parse_len(b: Seq<u8>, i: int, major: u8) -> Option<(nat, int)> {
    if !(0 <= i < b.len()) {
        None
    } else {
        let byte = b[i];
        if byte / 32 != major {
            None
        } else {
            let info = byte % 32;
            if info <= 23 {
                Some(((info as nat), i + 1))
            } else if info == 24 {
                if i + 1 < b.len() && b[i + 1] >= 24 {
                    Some(((b[i + 1] as nat), i + 2))
                } else {
                    None
                }
            } else if info == 25 {
                if i + 2 < b.len() && (b[i + 1] as nat) * 256 + (b[i + 2] as nat) >= 256 {
                    Some(((b[i + 1] as nat) * 256 + (b[i + 2] as nat), i + 3))
                } else {
                    None
                }
            } else {
                None
            }
        }
    }
}

/// Parses a text item at position `i`: the decoded characters and the
/// position after the item.
pub open spec fn parse_text(b: Seq<u8>, i: int) -> Option<(Seq<char>, int)> {
    match parse_len(b, i, 3) {
        Some((n, j)) => {
            if j + n <= b.len() && valid_utf8(b.subrange(j, j + n as int)) {
                Some((decode_utf8(b.subrange(j, j + n as int)), j + n))
            } else {
                None
            }
        },
        None => None,
    }
}

/// Parses `count` consecutive text items starting at position `i`.
pub open spec fn parse_texts(b: Seq<u8>, i: int, count: nat) -> Option<(Seq<Seq<char>>, int)>
    decreases count,
{
    if count == 0 {
        Some((Seq::empty(), i))
    } else {
        match parse_text(b, i) {
            Some((s, j)) => match parse_texts(b, j, (count - 1) as nat) {
                Some((l, k)) => Some((seq![s] + l, k)),
                None => None,
            },
            None => None,
        }
    }
}

/// Parses an array of text items at position `i`.
pub open spec fn parse_array(b: Seq<u8>, i: int) -> Option<(Seq<Seq<char>>, int)> {
    match parse_len(b, i, 4) {
        Some((n, j)) => parse_texts(b, j, n),
        None => None,
    }
}

/// Whether a payload opens as a one- or two-entry map whose first key is
/// `"cmd"`.
pub open spec fn msg_prelude_ok(b: Seq<u8>) -> bool {
    b.len() >= 1 && (b[0] == 0xa1 || b[0] == 0xa2) && bytes_at(b, 1, key_cmd())
}

/// The raw bytes of the variant tag and the position after it.
pub open spec fn tag_of(b: Seq<u8>) -> Option<(Seq<u8>, int)> {
    match parse_len(b, 5, 3) {
        Some((n, j)) => {
            if j + n <= b.len() {
                Some((b.subrange(j, j + n as int), j + n))
            } else {
                None
            }
        },
        None => None,
    }
}

/// What remains of a message with no payload, after its tag at position
/// `k`: nothing. A `"data"` entry here is a shape (data) error.
pub open spec fn parse_unit_rest(b: Seq<u8>, k: int) -> Result<(), DecodeError> {
    if b[0] == 0xa2 {
        Err(DecodeError::Data)
    } else if k == b.len() {
        Ok(())
    } else {
        Err(DecodeError::Syntax)
    }
}

/// What remains of a message with a text payload, after its tag at
/// position `k`: the key `"data"` and one text item, ending the payload.
/// A missing `"data"` entry is a shape (data) error.
pub open spec fn parse_text_rest(b: Seq<u8>, k: int) -> Result<Seq<char>, DecodeError> {
    if b[0] == 0xa1 {
        Err(DecodeError::Data)
    } else if !bytes_at(b, k, key_data()) {
        Err(DecodeError::Syntax)
    } else {
        match parse_text(b, k + 5) {
            Some((s, m)) => {
                if m == b.len() {
                    Ok(s)
                } else {
                    Err(DecodeError::Syntax)
                }
            },
            None => Err(DecodeError::Syntax),
        }
    }
}

/// What remains of a message whose payload is an array of text items,
/// after its tag at position `k`.
pub open spec fn parse_array_rest(b: Seq<u8>, k: int) -> Result<Seq<Seq<char>>, DecodeError> {
    if b[0] == 0xa1 {
        Err(DecodeError::Data)
    } else if !bytes_at(b, k, key_data()) {
        Err(DecodeError::Syntax)
    } else {
        match parse_array(b, k + 5) {
            Some((l, m)) => {
                if m == b.len() {
                    Ok(l)
                } else {
                    Err(DecodeError::Syntax)
                }
            },
            None => Err(DecodeError::Syntax),
        }
    }
}

/// Decodes a complete payload as a command. An unknown tag is a data
/// error; the tag is matched exhaustively against the known variants.
pub open spec fn req_dec(b: Seq<u8>) -> Result<ReqView, DecodeError> {
    if !msg_prelude_ok(b) {
        Err(DecodeError::Syntax)
    } else {
        match tag_of(b) {
            None => Err(DecodeError::Syntax),
            Some((tag, k)) => {
                if tag == name_nick_name() {
                    match parse_text_rest(b, k) {
                        Ok(s) => Ok(ReqView::NickName(s)),
                        Err(e) => Err(e),
                    }
                } else if tag == name_list() {
                    match parse_unit_rest(b, k) {
                        Ok(u) => Ok(ReqView::List),
                        Err(e) => Err(e),
                    }
                } else if tag == name_join() {
                    match parse_text_rest(b, k) {
                        Ok(s) => Ok(ReqView::Join(s)),
                        Err(e) => Err(e),
                    }
                } else if tag == name_message() {
                    match parse_text_rest(b, k) {
                        Ok(s) => Ok(ReqView::Message(s)),
                        Err(e) => Err(e),
                    }
                } else if tag == name_ping() {
                    match parse_unit_rest(b, k) {
                        Ok(u) => Ok(ReqView::Ping),
                        Err(e) => Err(e),
                    }
                } else {
                    Err(DecodeError::Data)
                }
            },
        }
    }
}

/// Decodes a complete payload as a response.
pub open spec fn resp_dec(b: Seq<u8>) -> Result<RespView, DecodeError> {
    if !msg_prelude_ok(b) {
        Err(DecodeError::Syntax)
    } else {
        match tag_of(b) {
            None => Err(DecodeError::Syntax),
            Some((tag, k)) => {
                if tag == name_ping() {
                    match parse_unit_rest(b, k) {
                        Ok(u) => Ok(RespView::Ping),
                        Err(e) => Err(e),
                    }
                } else if tag == name_rooms() {
                    match parse_array_rest(b, k) {
                        Ok(l) => Ok(RespView::Rooms(l)),
                        Err(e) => Err(e),
                    }
                } else if tag == name_joined() {
                    match parse_text_rest(b, k) {
                        Ok(s) => Ok(RespView::Joined(s)),
                        Err(e) => Err(e),
                    }
                } else if tag == name_message() {
                    match parse_text_rest(b, k) {
                        Ok(s) => Ok(RespView::Message(s)),
                        Err(e) => Err(e),
                    }
                } else if tag == name_set_nick_name() {
                    match parse_text_rest(b, k) {
                        Ok(s) => Ok(RespView::SetNickName(s)),
                        Err(e) => Err(e),
                    }
                } else {
                    Err(DecodeError::Data)
                }
            },
        }
    }
}

// ---------------------------------------------------------------------------
// Well-formedness for round trips
// ---------------------------------------------------------------------------

/// Whether every text in the sequence fits a minimal header the decoder
/// accepts.
pub open spec fn texts_fit(l: Seq<Seq<char>>) -> bool {
    forall|i: int| 0 <= i < l.len() ==> encode_utf8(#[trigger] l[i]).len() <= 0xffff
}

/// Whether every text item of the command fits the grammar's headers.
/// Implied whenever the whole payload fits a frame.
pub open spec fn req_fits(r: ReqView) -> bool {
    match r {
        ReqView::NickName(s) => encode_utf8(s).len() <= 0xffff,
        ReqView::List => true,
        ReqView::Join(s) => encode_utf8(s).len() <= 0xffff,
        ReqView::Message(s) => encode_utf8(s).len() <= 0xffff,
        ReqView::Ping => true,
    }
}

/// Whether every item of the response fits the grammar's headers.
pub open spec fn resp_fits(r: RespView) -> bool {
    match r {
        RespView::Ping => true,
        RespView::Rooms(l) => l.len() <= 0xffff && texts_fit(l),
        RespView::Joined(s) => encode_utf8(s).len() <= 0xffff,
        RespView::Message(s) => encode_utf8(s).len() <= 0xffff,
        RespView::SetNickName(s) => encode_utf8(s).len() <= 0xffff,
    }
}

// ---------------------------------------------------------------------------
// Length facts about the encoding
// ---------------------------------------------------------------------------

/// A minimal-length header parses back to the length it was written for.
pub proof fn lemma_parse_len_at(b: Seq<u8>, i: int, major: u8, n: nat)
    requires
        major == 3 || major == 4,
        n <= 0xffff,
        bytes_at(b, i, len_header(major, n)),
    ensures
        parse_len(b, i, major) == Some((n, i + len_header(major, n).len())),
{
    let hdr = len_header(major, n);
    assert(b[i] == hdr[0]) by {
        assert(b.subrange(i, i + hdr.len() as int)[0] == b[i]);
    }
    if n <= 23 {
        assert(b[i] == ((major as nat) * 32 + n) as u8);
        assert(b[i] / 32 == major && b[i] % 32 == n);
    } else if n <= 0xff {
        assert(b[i + 1] == hdr[1]) by {
            assert(b.subrange(i, i + hdr.len() as int)[1] == b[i + 1]);
        }
        assert(b[i] == ((major as nat) * 32 + 24) as u8);
        assert(b[i] / 32 == major && b[i] % 32 == 24);
        assert(b[i + 1] == n as u8);
    } else {
        assert(b[i + 1] == hdr[1] && b[i + 2] == hdr[2]) by {
            assert(b.subrange(i, i + hdr.len() as int)[1] == b[i + 1]);
            assert(b.subrange(i, i + hdr.len() as int)[2] == b[i + 2]);
        }
        assert(b[i] == ((major as nat) * 32 + 25) as u8);
        assert(b[i] / 32 == major && b[i] % 32 == 25);
        assert((b[i + 1] as nat) * 256 + (b[i + 2] as nat) == n);
    }
}

/// A text item parses back to the characters it was written for.
pub proof fn lemma_parse_text_at(b: Seq<u8>, i: int, s: Seq<char>)
    requires
        encode_utf8(s).len() <= 0xffff,
        bytes_at(b, i, text_enc(s)),
    ensures
        parse_text(b, i) == Some((s, i + text_enc(s).len())),
{
    let u = encode_utf8(s);
    let hdr = len_header(3, u.len());
    let j = i + hdr.len();
    assert(b.subrange(i, i + hdr.len() as int) =~= hdr) by {
        assert forall|t: int| 0 <= t < hdr.len() implies b[i + t] == hdr[t] by {
            assert(b.subrange(i, i + text_enc(s).len() as int)[t] == b[i + t]);
        }
    }
    lemma_parse_len_at(b, i, 3, u.len());
    assert(b.subrange(j, j + u.len() as int) =~= u) by {
        assert forall|t: int| 0 <= t < u.len() implies b[j + t] == u[t] by {
            assert(b.subrange(i, i + text_enc(s).len() as int)[hdr.len() + t] == b[j + t]);
        }
    }
    vstd::utf8::encode_utf8_valid_utf8(s);
    vstd::utf8::encode_utf8_decode_utf8(s);
}

/// Consecutive text items parse back to the sequence they were written
/// for.
pub proof fn lemma_parse_texts_at(b: Seq<u8>, i: int, l: Seq<Seq<char>>)
    requires
        texts_fit(l),
        bytes_at(b, i, texts_enc(l)),
    ensures
        parse_texts(b, i, l.len()) == Some((l, i + texts_enc(l).len())),
    decreases l.len(),
{
    if l.len() == 0 {
        assert(l =~= Seq::<Seq<char>>::empty());
    } else {
        let e0 = text_enc(l[0]);
        let r = texts_enc(l.drop_first());
        assert(texts_enc(l) == e0 + r);
        assert(bytes_at(b, i, e0)) by {
            assert(b.subrange(i, i + e0.len() as int) =~= e0) by {
                assert forall|t: int| 0 <= t < e0.len() implies b[i + t] == e0[t] by {
                    assert(b.subrange(i, i + texts_enc(l).len() as int)[t] == b[i + t]);
                }
            }
        }
        lemma_parse_text_at(b, i, l[0]);
        let j = i + e0.len();
        assert(bytes_at(b, j, r)) by {
            assert(b.subrange(j, j + r.len() as int) =~= r) by {
                assert forall|t: int| 0 <= t < r.len() implies b[j + t] == r[t] by {
                    assert(b.subrange(i, i + texts_enc(l).len() as int)[e0.len() + t] == b[j + t]);
                }
            }
        }
        assert(texts_fit(l.drop_first()));
        lemma_parse_texts_at(b, j, l.drop_first());
        assert(seq![l[0]] + l.drop_first() =~= l);
    }
}

/// The shared head of every message parses back: the map opening, the
/// `"cmd"` key, and the tag.
pub proof fn lemma_head_parse(b: Seq<u8>, name: Seq<u8>)
    requires
        1 <= name.len() <= 23,
        b.len() >= 6 + name.len(),
        b[0] == 0xa1 || b[0] == 0xa2,
        b.subrange(1, 5) == key_cmd(),
        b.subrange(5, 6 + name.len() as int) == tag_enc(name),
    ensures
        msg_prelude_ok(b),
        tag_of(b) == Some((name, 6 + name.len() as int)),
{
    assert(bytes_at(b, 1, key_cmd()));
    assert(bytes_at(b, 5, len_header(3, name.len()))) by {
        assert(b.subrange(5, 6int) =~= len_header(3, name.len())) by {
            assert(b.subrange(5, 6 + name.len() as int)[0] == b[5]);
            assert(tag_enc(name)[0] == len_header(3, name.len())[0]);
        }
    }
    lemma_parse_len_at(b, 5, 3, name.len());
    assert(b.subrange(6, 6 + name.len() as int) =~= name) by {
        assert forall|t: int| 0 <= t < name.len() implies b[6 + t] == name[t] by {
            assert(b.subrange(5, 6 + name.len() as int)[1 + t] == b[6 + t]);
        }
    }
}

/// A message with no payload decodes back to its tag.
pub proof fn lemma_unit_msg_dec(name: Seq<u8>)
    requires
        1 <= name.len() <= 23,
    ensures
        msg_prelude_ok(unit_msg_enc(name)),
        tag_of(unit_msg_enc(name)) == Some((name, 6 + name.len() as int)),
        parse_unit_rest(unit_msg_enc(name), 6 + name.len() as int) == Ok::<(), DecodeError>(()),
{
    let b = unit_msg_enc(name);
    assert(b.len() == 6 + name.len());
    assert(b[0] == 0xa1);
    assert(b.subrange(1, 5) =~= key_cmd());
    assert(b.subrange(5, 6 + name.len() as int) =~= tag_enc(name));
    lemma_head_parse(b, name);
}

/// A message with a text payload decodes back to its tag and text.
pub proof fn lemma_text_msg_dec(name: Seq<u8>, s: Seq<char>)
    requires
        1 <= name.len() <= 23,
        encode_utf8(s).len() <= 0xffff,
    ensures
        msg_prelude_ok(text_msg_enc(name, s)),
        tag_of(text_msg_enc(name, s)) == Some((name, 6 + name.len() as int)),
        parse_text_rest(text_msg_enc(name, s), 6 + name.len() as int) == Ok::<
            Seq<char>,
            DecodeError,
        >(s),
{
    let b = text_msg_enc(name, s);
    let k = 6 + name.len() as int;
    assert(b.len() == k + 5 + text_enc(s).len());
    assert(b[0] == 0xa2);
    assert(b.subrange(1, 5) =~= key_cmd());
    assert(b.subrange(5, k) =~= tag_enc(name));
    lemma_head_parse(b, name);
    assert(bytes_at(b, k, key_data())) by {
        assert(b.subrange(k, k + 5) =~= key_data());
    }
    assert(bytes_at(b, k + 5, text_enc(s))) by {
        assert(b.subrange(k + 5, k + 5 + text_enc(s).len() as int) =~= text_enc(s));
    }
    lemma_parse_text_at(b, k + 5, s);
}

/// A message with an array payload decodes back to its tag and elements.
pub proof fn lemma_array_msg_dec(name: Seq<u8>, l: Seq<Seq<char>>)
    requires
        1 <= name.len() <= 23,
        l.len() <= 0xffff,
        texts_fit(l),
    ensures
        msg_prelude_ok(array_msg_enc(name, l)),
        tag_of(array_msg_enc(name, l)) == Some((name, 6 + name.len() as int)),
        parse_array_rest(array_msg_enc(name, l), 6 + name.len() as int) == Ok::<
            Seq<Seq<char>>,
            DecodeError,
        >(l),
{
    let b = array_msg_enc(name, l);
    let k = 6 + name.len() as int;
    let hdr = len_header(4, l.len());
    assert(b.len() == k + 5 + hdr.len() + texts_enc(l).len());
    assert(b[0] == 0xa2);
    assert(b.subrange(1, 5) =~= key_cmd());
    assert(b.subrange(5, k) =~= tag_enc(name));
    lemma_head_parse(b, name);
    assert(bytes_at(b, k, key_data())) by {
        assert(b.subrange(k, k + 5) =~= key_data());
    }
    assert(bytes_at(b, k + 5, hdr)) by {
        assert(b.subrange(k + 5, k + 5 + hdr.len() as int) =~= hdr);
    }
    lemma_parse_len_at(b, k + 5, 4, l.len());
    let j = k + 5 + hdr.len();
    assert(bytes_at(b, j, texts_enc(l))) by {
        assert(b.subrange(j, j + texts_enc(l).len() as int) =~= texts_enc(l));
    }
    lemma_parse_texts_at(b, j, l);
}

/// Round trip for commands: decoding an encoded command yields exactly
/// that command, for every command whose texts fit the wire headers —
/// in particular for every command that fits a frame.
pub proof fn lemma_req_round_trip(v: ReqView)
    requires
        req_fits(v),
    ensures
        req_dec(req_enc(v)) == Ok::<ReqView, DecodeError>(v),
{
    assert(name_list()[0] != name_join()[0] && name_list()[0] != name_ping()[0] && name_join()[0]
        != name_ping()[0]);
    match v {
        ReqView::NickName(s) => {
            lemma_text_msg_dec(name_nick_name(), s);
        },
        ReqView::List => {
            lemma_unit_msg_dec(name_list());
        },
        ReqView::Join(s) => {
            lemma_text_msg_dec(name_join(), s);
        },
        ReqView::Message(s) => {
            lemma_text_msg_dec(name_message(), s);
        },
        ReqView::Ping => {
            lemma_unit_msg_dec(name_ping());
        },
    }
}

/// Round trip for responses: decoding an encoded response yields exactly
/// that response, for every response whose items fit the wire headers —
/// in particular for every response that fits a frame.
#[verifier::rlimit(60)]
pub proof fn lemma_resp_round_trip(v: RespView)
    requires
        resp_fits(v),
    ensures
        resp_dec(resp_enc(v)) == Ok::<RespView, DecodeError>(v),
{
    match v {
        RespView::Ping => {
            lemma_unit_msg_dec(name_ping());
        },
        RespView::Rooms(l) => {
            lemma_array_msg_dec(name_rooms(), l);
        },
        RespView::Joined(s) => {
            lemma_text_msg_dec(name_joined(), s);
        },
        RespView::Message(s) => {
            lemma_text_msg_dec(name_message(), s);
        },
        RespView::SetNickName(s) => {
            lemma_text_msg_dec(name_set_nick_name(), s);
        },
    }
}

/// A framed payload, with anything buffered after it, is complete and
/// splits back into exactly that payload and the rest.
pub proof fn lemma_frame_parse(payload: Seq<u8>, rest: Seq<u8>)
    requires
        payload.len() <= 0xffff,
    ensures
        !incomplete(frame_enc(payload) + rest),
        frame_len(frame_enc(payload) + rest) == payload.len(),
        (frame_enc(payload) + rest).subrange(2, 2 + payload.len() as int) == payload,
        (frame_enc(payload) + rest).skip(2 + payload.len() as int) == rest,
{
    let b = frame_enc(payload) + rest;
    assert(b[0] == (payload.len() / 256) as u8 && b[1] == (payload.len() % 256) as u8);
    assert(frame_len(b) == payload.len());
    assert(b.subrange(2, 2 + payload.len() as int) =~= payload);
    assert(b.skip(2 + payload.len() as int) =~= rest);
}

/// Round trip through the framing, for commands: a buffer holding the
/// encoder's frame for `v` (and anything after it) is complete, its
/// payload decodes to exactly `v`, and consuming the frame leaves the
/// rest.
pub proof fn lemma_request_frame_round_trip(v: ReqView, rest: Seq<u8>)
    requires
        req_enc(v).len() <= 0xffff,
    ensures
        !incomplete(frame_enc(req_enc(v)) + rest),
        frame_len(frame_enc(req_enc(v)) + rest) == req_enc(v).len(),
        req_dec((frame_enc(req_enc(v)) + rest).subrange(2, 2 + req_enc(v).len() as int)) == Ok::<
            ReqView,
            DecodeError,
        >(v),
        (frame_enc(req_enc(v)) + rest).skip(2 + req_enc(v).len() as int) == rest,
{
    lemma_frame_parse(req_enc(v), rest);
    assert(req_fits(v)) by {
        match v {
            ReqView::NickName(s) => lemma_text_in_msg_fits(name_nick_name(), s),
            ReqView::Join(s) => lemma_text_in_msg_fits(name_join(), s),
            ReqView::Message(s) => lemma_text_in_msg_fits(name_message(), s),
            _ => {},
        }
    }
    lemma_req_round_trip(v);
}

/// Round trip through the framing, for responses.
pub proof fn lemma_response_frame_round_trip(v: RespView, rest: Seq<u8>)
    requires
        resp_enc(v).len() <= 0xffff,
    ensures
        !incomplete(frame_enc(resp_enc(v)) + rest),
        frame_len(frame_enc(resp_enc(v)) + rest) == resp_enc(v).len(),
        resp_dec((frame_enc(resp_enc(v)) + rest).subrange(2, 2 + resp_enc(v).len() as int)) == Ok::<
            RespView,
            DecodeError,
        >(v),
        (frame_enc(resp_enc(v)) + rest).skip(2 + resp_enc(v).len() as int) == rest,
{
    lemma_frame_parse(resp_enc(v), rest);
    assert(resp_fits(v)) by {
        match v {
            RespView::Joined(s) => lemma_text_in_msg_fits(name_joined(), s),
            RespView::Message(s) => lemma_text_in_msg_fits(name_message(), s),
            RespView::SetNickName(s) => lemma_text_in_msg_fits(name_set_nick_name(), s),
            RespView::Rooms(l) => {
                lemma_texts_enc_len_ge_count(l);
                assert forall|i: int| 0 <= i < l.len() implies encode_utf8(
                    #[trigger] l[i],
                ).len() <= 0xffff by {
                    lemma_texts_enc_len_ge_elem(l, i);
                }
            },
            RespView::Ping => {},
        }
    }
    lemma_resp_round_trip(v);
}

/// The text of a fitting message fits its own header: the payload is at
/// least as long as the text's UTF-8 form.
proof fn lemma_text_in_msg_fits(name: Seq<u8>, s: Seq<char>)
    requires
        text_msg_enc(name, s).len() <= 0xffff,
    ensures
        encode_utf8(s).len() <= 0xffff,
{
}

/// Incremental feed: every proper prefix of a frame is incomplete and
/// consumed by nothing; only the whole frame decodes.
pub proof fn lemma_incremental_feed(payload: Seq<u8>, i: int)
    requires
        payload.len() <= 0xffff,
        0 <= i < frame_enc(payload).len(),
    ensures
        incomplete(frame_enc(payload).take(i)),
        !incomplete(frame_enc(payload)),
{
    let b = frame_enc(payload);
    let p = b.take(i);
    lemma_frame_parse(payload, Seq::empty());
    assert(b + Seq::empty() =~= b);
    if i >= 2 {
        assert(p[0] == b[0] && p[1] == b[1]);
        assert(frame_len(p) == payload.len());
    }
}

/// An encoded array is at least as long as its element count.
pub proof fn lemma_texts_enc_len_ge_count(l: Seq<Seq<char>>)
    ensures
        texts_enc(l).len() >= l.len(),
    decreases l.len(),
{
    if l.len() > 0 {
        lemma_texts_enc_len_ge_count(l.drop_first());
    }
}

/// An encoded array is at least as long as any one element's UTF-8 form.
pub proof fn lemma_texts_enc_len_ge_elem(l: Seq<Seq<char>>, i: int)
    requires
        0 <= i < l.len(),
    ensures
        texts_enc(l).len() >= encode_utf8(l[i]).len(),
    decreases l.len(),
{
    if i > 0 {
        lemma_texts_enc_len_ge_elem(l.drop_first(), i - 1);
    }
}

} // verus!
