//! Executable frame codecs for both transport directions.
//!
//! [`ChatCodec`] is the server-side codec: it decodes inbound
//! [`ChatRequest`] frames and encodes outbound [`ChatResponse`] frames.
//! [`ClientChatCodec`] is the mirror codec for writing a conformance
//! client against the same protocol.
//!
//! Decoding works on a growable buffer of already-received bytes and
//! consumes nothing until a whole frame is buffered; encoding rejects any
//! message whose serialized payload exceeds `0xffff` bytes, since the
//! 2-byte length prefix cannot represent more.

use vstd::prelude::*;
use vstd::string::StringSliceAdditionalSpecFns;
use vstd::utf8::{encode_utf8, valid_utf8};

use crate::wire::{
    bytes_at, frame_len, incomplete, key_cmd, key_data, msg_prelude_ok, name_join, name_joined,
    name_list, name_message, name_nick_name, name_ping, name_rooms, name_set_nick_name,
    parse_array_rest, parse_len, parse_text, parse_text_rest, parse_texts, parse_unit_rest,
    req_dec, resp_dec, DecodeError, ReqView, RespView,
};
use crate::wire::{
    array_msg_enc, frame_enc, lemma_texts_enc_len_ge_count, lemma_texts_enc_len_ge_elem,
    len_header, req_enc, resp_enc, tag_enc, text_enc, text_msg_enc,
    texts_enc, unit_msg_enc, EncodeError,
};

verus! {

/// A client request.
#[derive(Debug, Clone, PartialEq, Eq)]
pub enum ChatRequest {
    /// Set the nickname.
    NickName(String),
    /// List the rooms.
    List,
    /// Join a room.
    Join(String),
    /// Send a message to the current room.
    Message(String),
    /// Keepalive.
    Ping,
}

/// A server response.
#[derive(Debug, Clone, PartialEq, Eq)]
pub enum ChatResponse {
    /// Keepalive echo.
    Ping,
    /// The list of rooms.
    Rooms(Vec<String>),
    /// The room that was joined.
    Joined(String),
    /// A message broadcast within a room.
    Message(String),
    /// The nickname that was set.
    SetNickName(String),
}

impl View for ChatRequest {
    type V = ReqView;

    open spec fn view(&self) -> ReqView {
        match self {
            ChatRequest::NickName(s) => ReqView::NickName(s@),
            ChatRequest::List => ReqView::List,
            ChatRequest::Join(s) => ReqView::Join(s@),
            ChatRequest::Message(s) => ReqView::Message(s@),
            ChatRequest::Ping => ReqView::Ping,
        }
    }
}

impl View for ChatResponse {
    type V = RespView;

    open spec fn view(&self) -> RespView {
        match self {
            ChatResponse::Ping => RespView::Ping,
            ChatResponse::Rooms(l) => RespView::Rooms(l.deep_view()),
            ChatResponse::Joined(s) => RespView::Joined(s@),
            ChatResponse::Message(s) => RespView::Message(s@),
            ChatResponse::SetNickName(s) => RespView::SetNickName(s@),
        }
    }
}

/// Relies on `String::from_utf8`: it returns `Ok` exactly when the bytes
/// are valid UTF-8, and then the returned string is the one whose UTF-8
/// encoding is those bytes.
#[verifier::external_body]
fn string_from_utf8(bytes: Vec<u8>) -> (r: Option<String>)
    ensures
        match r {
            Some(s) => valid_utf8(bytes@) && encode_utf8(s@) == bytes@,
            None => !valid_utf8(bytes@),
        },
{
    String::from_utf8(bytes).ok()
}

/// Whether the bytes `pat` stand in `b` at position `i`.
fn match_at(b: &Vec<u8>, i: usize, pat: &Vec<u8>) -> (r: bool)
    ensures
        r == bytes_at(b@, i as int, pat@),
{
    let blen = b.len();
    let plen = pat.len();
    if blen < plen || i > blen - plen {
        return false;
    }
    let mut k: usize = 0;
    while k < plen
        invariant
            blen == b@.len(),
            plen == pat@.len(),
            i + plen <= blen,
            k <= plen,
            forall|t: int| 0 <= t < k ==> b@[i + t] == pat@[t],
        decreases plen - k,
    {
        if b[i + k] != pat[k] {
            proof {
                assert(b@.subrange(i as int, i + pat@.len() as int)[k as int] == b@[i + k]);
            }
            return false;
        }
        k += 1;
    }
    proof {
        assert(b@.subrange(i as int, i + pat@.len() as int) =~= pat@);
    }
    true
}

/// Parses a minimal-length item header of the given major type.
fn parse_len_at(b: &Vec<u8>, i: usize, major: u8) -> (r: Option<(u16, usize)>)
    requires
        b@.len() <= 0xffff,
        major == 3 || major == 4,
    ensures
        match r {
            Some(p) => parse_len(b@, i as int, major) == Some(((p.0 as nat), p.1 as int))
                && i < p.1 <= b@.len(),
            None => parse_len(b@, i as int, major) is None,
        },
{
    if i >= b.len() {
        return None;
    }
    let byte = b[i];
    if byte / 32 != major {
        return None;
    }
    let info = byte % 32;
    if info <= 23 {
        Some((info as u16, i + 1))
    } else if info == 24 {
        if i + 1 < b.len() && b[i + 1] >= 24 {
            Some((b[i + 1] as u16, i + 2))
        } else {
            None
        }
    } else if info == 25 {
        if i + 2 < b.len() && (b[i + 1] as u16) * 256 + (b[i + 2] as u16) >= 256 {
            Some(((b[i + 1] as u16) * 256 + (b[i + 2] as u16), i + 3))
        } else {
            None
        }
    } else {
        None
    }
}

/// Copies `b[from..to]` into a fresh buffer.
fn copy_range(b: &Vec<u8>, from: usize, to: usize) -> (r: Vec<u8>)
    requires
        from <= to <= b@.len(),
    ensures
        r@ == b@.subrange(from as int, to as int),
{
    let mut r: Vec<u8> = Vec::new();
    let mut k: usize = from;
    while k < to
        invariant
            from <= k <= to <= b@.len(),
            r@ == b@.subrange(from as int, k as int),
        decreases to - k,
    {
        r.push(b[k]);
        proof {
            assert(r@ =~= b@.subrange(from as int, k + 1 as int));
        }
        k += 1;
    }
    r
}

/// Parses one text item at position `i`.
fn parse_text_at(b: &Vec<u8>, i: usize) -> (r: Option<(String, usize)>)
    requires
        b@.len() <= 0xffff,
    ensures
        match r {
            Some(p) => parse_text(b@, i as int) == Some((p.0@, p.1 as int)) && i < p.1 <= b@.len(),
            None => parse_text(b@, i as int) is None,
        },
{
    match parse_len_at(b, i, 3) {
        None => None,
        Some((n, j)) => {
            let n_us = n as usize;
            if b.len() - j < n_us {
                return None;
            }
            let bytes = copy_range(b, j, j + n_us);
            match string_from_utf8(bytes) {
                Some(s) => {
                    proof {
                        vstd::utf8::encode_utf8_decode_utf8(s@);
                    }
                    Some((s, j + n_us))
                },
                None => None,
            }
        },
    }
}

/// Parses `count` consecutive text items starting at position `i`.
fn parse_texts_at(b: &Vec<u8>, i: usize, count: u16) -> (r: Option<(Vec<String>, usize)>)
    requires
        b@.len() <= 0xffff,
        i <= b@.len(),
    ensures
        match r {
            Some(p) => parse_texts(b@, i as int, count as nat) == Some((p.0.deep_view(), p.1 as int))
                && i <= p.1 <= b@.len(),
            None => parse_texts(b@, i as int, count as nat) is None,
        },
    decreases count,
{
    if count == 0 {
        let l: Vec<String> = Vec::new();
        proof {
            assert(l.deep_view() =~= Seq::<Seq<char>>::empty());
        }
        return Some((l, i));
    }
    match parse_text_at(b, i) {
        None => None,
        Some((s, j)) => match parse_texts_at(b, j, count - 1) {
            None => None,
            Some((mut l, k)) => {
                let ghost rest = l.deep_view();
                l.insert(0, s);
                proof {
                    assert(l.deep_view() =~= seq![s@] + rest);
                }
                Some((l, k))
            },
        },
    }
}

/// What remains of a message with no payload, after its tag.
fn unit_rest(p: &Vec<u8>, k: usize) -> (r: Result<(), DecodeError>)
    requires
        1 <= p@.len(),
        k <= p@.len(),
    ensures
        match r {
            Ok(u) => parse_unit_rest(p@, k as int) == Ok::<(), DecodeError>(()),
            Err(e) => parse_unit_rest(p@, k as int) == Err::<(), DecodeError>(e),
        },
{
    if p[0] == 0xa2 {
        Err(DecodeError::Data)
    } else if k == p.len() {
        Ok(())
    } else {
        Err(DecodeError::Syntax)
    }
}

/// What remains of a message with a text payload, after its tag.
fn text_rest(p: &Vec<u8>, k: usize) -> (r: Result<String, DecodeError>)
    requires
        1 <= p@.len() <= 0xffff,
        k <= p@.len(),
    ensures
        match r {
            Ok(s) => parse_text_rest(p@, k as int) == Ok::<Seq<char>, DecodeError>(s@),
            Err(e) => parse_text_rest(p@, k as int) == Err::<Seq<char>, DecodeError>(e),
        },
{
    if p[0] == 0xa1 {
        return Err(DecodeError::Data);
    }
    let pat_data: Vec<u8> = vec![0x64u8, 0x64u8, 0x61u8, 0x74u8, 0x61u8];
    proof {
        assert(pat_data@ =~= key_data());
    }
    if !match_at(p, k, &pat_data) {
        return Err(DecodeError::Syntax);
    }
    match parse_text_at(p, k + 5) {
        Some((s, m)) => {
            if m == p.len() {
                Ok(s)
            } else {
                Err(DecodeError::Syntax)
            }
        },
        None => Err(DecodeError::Syntax),
    }
}

/// What remains of a message whose payload is an array of text items.
fn array_rest(p: &Vec<u8>, k: usize) -> (r: Result<Vec<String>, DecodeError>)
    requires
        1 <= p@.len() <= 0xffff,
        k <= p@.len(),
    ensures
        match r {
            Ok(l) => parse_array_rest(p@, k as int) == Ok::<Seq<Seq<char>>, DecodeError>(
                l.deep_view(),
            ),
            Err(e) => parse_array_rest(p@, k as int) == Err::<Seq<Seq<char>>, DecodeError>(e),
        },
{
    if p[0] == 0xa1 {
        return Err(DecodeError::Data);
    }
    let pat_data: Vec<u8> = vec![0x64u8, 0x64u8, 0x61u8, 0x74u8, 0x61u8];
    proof {
        assert(pat_data@ =~= key_data());
    }
    if !match_at(p, k, &pat_data) {
        return Err(DecodeError::Syntax);
    }
    match parse_len_at(p, k + 5, 4) {
        None => Err(DecodeError::Syntax),
        Some((n, j)) => match parse_texts_at(p, j, n) {
            None => Err(DecodeError::Syntax),
            Some((l, m)) => {
                if m == p.len() {
                    Ok(l)
                } else {
                    Err(DecodeError::Syntax)
                }
            },
        },
    }
}

/// Checks the map header and the `"cmd"` key.
fn check_prelude(p: &Vec<u8>) -> (r: bool)
    ensures
        r == msg_prelude_ok(p@),
{
    if p.len() < 1 {
        return false;
    }
    if !(p[0] == 0xa1 || p[0] == 0xa2) {
        return false;
    }
    let pat_cmd: Vec<u8> = vec![0x63u8, 0x63u8, 0x6du8, 0x64u8];
    proof {
        assert(pat_cmd@ =~= key_cmd());
    }
    match_at(p, 1, &pat_cmd)
}

/// Decodes a complete payload as a command, as [`req_dec`] says.
fn req_payload_dec(p: &Vec<u8>) -> (r: Result<ChatRequest, DecodeError>)
    requires
        p@.len() <= 0xffff,
    ensures
        match r {
            Ok(m) => req_dec(p@) == Ok::<ReqView, DecodeError>(m@),
            Err(e) => req_dec(p@) == Err::<ReqView, DecodeError>(e),
        },
{
    if !check_prelude(p) {
        return Err(DecodeError::Syntax);
    }
    match parse_len_at(p, 5, 3) {
        None => Err(DecodeError::Syntax),
        Some((n, j)) => {
            let n_us = n as usize;
            if p.len() - j < n_us {
                return Err(DecodeError::Syntax);
            }
            let k = j + n_us;
            let ghost tag = p@.subrange(j as int, k as int);
            let pat_nick: Vec<u8> = vec![
                0x4eu8,
                0x69u8,
                0x63u8,
                0x6bu8,
                0x4eu8,
                0x61u8,
                0x6du8,
                0x65u8,
            ];
            let pat_list: Vec<u8> = vec![0x4cu8, 0x69u8, 0x73u8, 0x74u8];
            let pat_join: Vec<u8> = vec![0x4au8, 0x6fu8, 0x69u8, 0x6eu8];
            let pat_message: Vec<u8> = vec![0x4du8, 0x65u8, 0x73u8, 0x73u8, 0x61u8, 0x67u8, 0x65u8];
            let pat_ping: Vec<u8> = vec![0x50u8, 0x69u8, 0x6eu8, 0x67u8];
            proof {
                assert(pat_nick@ =~= name_nick_name());
                assert(pat_list@ =~= name_list());
                assert(pat_join@ =~= name_join());
                assert(pat_message@ =~= name_message());
                assert(pat_ping@ =~= name_ping());
                assert(bytes_at(p@, j as int, tag));
            }
            if match_at(p, j, &pat_nick) && n == 8 {
                match text_rest(p, k) {
                    Ok(s) => Ok(ChatRequest::NickName(s)),
                    Err(e) => Err(e),
                }
            } else if match_at(p, j, &pat_list) && n == 4 {
                match unit_rest(p, k) {
                    Ok(u) => Ok(ChatRequest::List),
                    Err(e) => Err(e),
                }
            } else if match_at(p, j, &pat_join) && n == 4 {
                match text_rest(p, k) {
                    Ok(s) => Ok(ChatRequest::Join(s)),
                    Err(e) => Err(e),
                }
            } else if match_at(p, j, &pat_message) && n == 7 {
                match text_rest(p, k) {
                    Ok(s) => Ok(ChatRequest::Message(s)),
                    Err(e) => Err(e),
                }
            } else if match_at(p, j, &pat_ping) && n == 4 {
                match unit_rest(p, k) {
                    Ok(u) => Ok(ChatRequest::Ping),
                    Err(e) => Err(e),
                }
            } else {
                Err(DecodeError::Data)
            }
        },
    }
}

/// Decodes a complete payload as a response, as [`resp_dec`] says.
fn resp_payload_dec(p: &Vec<u8>) -> (r: Result<ChatResponse, DecodeError>)
    requires
        p@.len() <= 0xffff,
    ensures
        match r {
            Ok(m) => resp_dec(p@) == Ok::<RespView, DecodeError>(m@),
            Err(e) => resp_dec(p@) == Err::<RespView, DecodeError>(e),
        },
{
    if !check_prelude(p) {
        return Err(DecodeError::Syntax);
    }
    match parse_len_at(p, 5, 3) {
        None => Err(DecodeError::Syntax),
        Some((n, j)) => {
            let n_us = n as usize;
            if p.len() - j < n_us {
                return Err(DecodeError::Syntax);
            }
            let k = j + n_us;
            let ghost tag = p@.subrange(j as int, k as int);
            let pat_ping: Vec<u8> = vec![0x50u8, 0x69u8, 0x6eu8, 0x67u8];
            let pat_rooms: Vec<u8> = vec![0x52u8, 0x6fu8, 0x6fu8, 0x6du8, 0x73u8];
            let pat_joined: Vec<u8> = vec![0x4au8, 0x6fu8, 0x69u8, 0x6eu8, 0x65u8, 0x64u8];
            let pat_message: Vec<u8> = vec![0x4du8, 0x65u8, 0x73u8, 0x73u8, 0x61u8, 0x67u8, 0x65u8];
            let pat_set: Vec<u8> = vec![
                0x53u8,
                0x65u8,
                0x74u8,
                0x4eu8,
                0x69u8,
                0x63u8,
                0x6bu8,
                0x4eu8,
                0x61u8,
                0x6du8,
                0x65u8,
            ];
            proof {
                assert(pat_ping@ =~= name_ping());
                assert(pat_rooms@ =~= name_rooms());
                assert(pat_joined@ =~= name_joined());
                assert(pat_message@ =~= name_message());
                assert(pat_set@ =~= name_set_nick_name());
                assert(bytes_at(p@, j as int, tag));
            }
            if match_at(p, j, &pat_ping) && n == 4 {
                match unit_rest(p, k) {
                    Ok(u) => Ok(ChatResponse::Ping),
                    Err(e) => Err(e),
                }
            } else if match_at(p, j, &pat_rooms) && n == 5 {
                match array_rest(p, k) {
                    Ok(l) => Ok(ChatResponse::Rooms(l)),
                    Err(e) => Err(e),
                }
            } else if match_at(p, j, &pat_joined) && n == 6 {
                match text_rest(p, k) {
                    Ok(s) => Ok(ChatResponse::Joined(s)),
                    Err(e) => Err(e),
                }
            } else if match_at(p, j, &pat_message) && n == 7 {
                match text_rest(p, k) {
                    Ok(s) => Ok(ChatResponse::Message(s)),
                    Err(e) => Err(e),
                }
            } else if match_at(p, j, &pat_set) && n == 11 {
                match text_rest(p, k) {
                    Ok(s) => Ok(ChatResponse::SetNickName(s)),
                    Err(e) => Err(e),
                }
            } else {
                Err(DecodeError::Data)
            }
        },
    }
}

/// Takes one complete frame off the front of the buffer, if one is
/// buffered, and hands back its payload.
fn take_frame(src: &mut Vec<u8>) -> (r: Option<Vec<u8>>)
    ensures
        incomplete(old(src)@) ==> r is None && final(src)@ == old(src)@,
        !incomplete(old(src)@) ==> match r {
            Some(p) => p@ == old(src)@.subrange(2, 2 + frame_len(old(src)@) as int) && final(src)@ == old(src)@.skip(2 + frame_len(old(src)@) as int) && p@.len() <= 0xffff,
            None => false,
        },
{
    if src.len() < 2 {
        return None;
    }
    let n: usize = (src[0] as usize) * 256 + (src[1] as usize);
    if src.len() - 2 < n {
        return None;
    }
    let mut rest = src.split_off(2);
    let tail = rest.split_off(n);
    *src = tail;
    proof {
        assert(rest@ =~= old(src)@.subrange(2, 2 + frame_len(old(src)@) as int));
        assert(src@ =~= old(src)@.skip(2 + frame_len(old(src)@) as int));
    }
    Some(rest)
}


// ---------------------------------------------------------------------------
// Encoding
// ---------------------------------------------------------------------------

/// The UTF-8 byte length of a string slice, tied to the grammar's view
/// of it.
fn utf8_len_of(s: &str) -> (r: usize)
    ensures
        r == encode_utf8(s@).len(),
{
    proof {
        assert(s.spec_bytes() == encode_utf8(s@));
    }
    s.as_bytes().len()
}

/// Appends a minimal-length item header of the given major type.
fn push_len_header(dst: &mut Vec<u8>, major: u8, n: u16)
    requires
        major == 3 || major == 4,
    ensures
        final(dst)@ == old(dst)@ + len_header(major, n as nat),
{
    if n <= 23 {
        dst.push(major * 32 + (n as u8));
        proof {
            assert(dst@ =~= old(dst)@ + len_header(major, n as nat));
        }
    } else if n <= 0xff {
        dst.push(major * 32 + 24);
        dst.push(n as u8);
        proof {
            assert(dst@ =~= old(dst)@ + len_header(major, n as nat));
        }
    } else {
        dst.push(major * 32 + 25);
        dst.push((n / 256) as u8);
        dst.push((n % 256) as u8);
        proof {
            assert(dst@ =~= old(dst)@ + len_header(major, n as nat));
        }
    }
}

/// Appends the given bytes.
fn push_bytes(dst: &mut Vec<u8>, pat: &Vec<u8>)
    ensures
        final(dst)@ == old(dst)@ + pat@,
{
    dst.extend_from_slice(pat.as_slice());
}

/// Appends one text item.
fn push_text(dst: &mut Vec<u8>, s: &str)
    requires
        encode_utf8(s@).len() <= 0xffff,
    ensures
        final(dst)@ == old(dst)@ + text_enc(s@),
{
    let bl = utf8_len_of(s);
    push_len_header(dst, 3, bl as u16);
    dst.extend_from_slice(s.as_bytes());
    proof {
        assert(dst@ =~= old(dst)@ + text_enc(s@));
    }
}

/// Appends the encodings of the texts `l[idx..]`, mirroring
/// [`texts_enc`]'s recursion.
fn push_texts(dst: &mut Vec<u8>, l: &Vec<String>, idx: usize)
    requires
        idx <= l@.len(),
        forall|t: int| 0 <= t < l@.len() ==> encode_utf8(#[trigger] l.deep_view()[t]).len()
            <= 0xffff,
    ensures
        final(dst)@ == old(dst)@ + texts_enc(l.deep_view().skip(idx as int)),
    decreases l@.len() - idx,
{
    let ghost dv = l.deep_view();
    if idx == l.len() {
        proof {
            assert(dv.skip(idx as int) =~= Seq::<Seq<char>>::empty());
            Seq::<u8>::add_empty_right(old(dst)@, Seq::<u8>::empty());
        }
        return ;
    }
    proof {
        assert(dv[idx as int] == l@[idx as int]@);
    }
    push_text(dst, l[idx].as_str());
    push_texts(dst, l, idx + 1);
    proof {
        assert(dv.skip(idx as int)[0] == dv[idx as int]);
        assert(dv.skip(idx as int).drop_first() =~= dv.skip(idx + 1));
        vstd::seq_lib::lemma_concat_associative(
            old(dst)@,
            text_enc(dv[idx as int]),
            texts_enc(dv.skip(idx + 1)),
        );
    }
}

/// Appends the map opening and the tagged `"cmd"` entry.
fn push_msg_head(dst: &mut Vec<u8>, entries: u8, name: &Vec<u8>)
    requires
        entries == 1 || entries == 2,
        name@.len() <= 23,
    ensures
        entries == 1 ==> final(dst)@ == old(dst)@ + seq![0xa1u8] + key_cmd() + tag_enc(name@),
        entries == 2 ==> final(dst)@ == old(dst)@ + seq![0xa2u8] + key_cmd() + tag_enc(name@),
{
    if entries == 1 {
        dst.push(0xa1);
    } else {
        dst.push(0xa2);
    }
    dst.push(0x63);
    dst.push(0x63);
    dst.push(0x6d);
    dst.push(0x64);
    push_len_header(dst, 3, name.len() as u16);
    push_bytes(dst, name);
    proof {
        if entries == 1 {
            assert(dst@ =~= old(dst)@ + seq![0xa1u8] + key_cmd() + tag_enc(name@));
        } else {
            assert(dst@ =~= old(dst)@ + seq![0xa2u8] + key_cmd() + tag_enc(name@));
        }
    }
}

/// Appends the `"data"` key.
fn push_key_data(dst: &mut Vec<u8>)
    ensures
        final(dst)@ == old(dst)@ + key_data(),
{
    dst.push(0x64);
    dst.push(0x64);
    dst.push(0x61);
    dst.push(0x74);
    dst.push(0x61);
    proof {
        assert(dst@ =~= old(dst)@ + key_data());
    }
}

/// Builds the payload of a message with no data entry.
fn unit_msg_payload(name: &Vec<u8>) -> (r: Vec<u8>)
    requires
        name@.len() <= 23,
    ensures
        r@ == unit_msg_enc(name@),
{
    let mut p: Vec<u8> = Vec::new();
    push_msg_head(&mut p, 1, name);
    proof {
        assert(p@ =~= unit_msg_enc(name@));
    }
    p
}

/// Builds the payload of a message with a text payload; fails when the
/// text alone cannot fit a frame.
fn text_msg_payload(name: &Vec<u8>, s: &str) -> (r: Result<Vec<u8>, EncodeError>)
    requires
        name@.len() <= 23,
    ensures
        match r {
            Ok(p) => p@ == text_msg_enc(name@, s@),
            Err(e) => text_msg_enc(name@, s@).len() > 0xffff && e == EncodeError::FrameTooLarge,
        },
{
    if utf8_len_of(s) > 0xffff {
        return Err(EncodeError::FrameTooLarge);
    }
    let mut p: Vec<u8> = Vec::new();
    push_msg_head(&mut p, 2, name);
    push_key_data(&mut p);
    push_text(&mut p, s);
    proof {
        assert(p@ =~= text_msg_enc(name@, s@));
    }
    Ok(p)
}

/// Builds the payload of a message whose payload is an array of text
/// items; fails when the element count or one element cannot fit a frame.
fn array_msg_payload(name: &Vec<u8>, l: &Vec<String>) -> (r: Result<Vec<u8>, EncodeError>)
    requires
        name@.len() <= 23,
    ensures
        match r {
            Ok(p) => p@ == array_msg_enc(name@, l.deep_view()),
            Err(e) => array_msg_enc(name@, l.deep_view()).len() > 0xffff && e
                == EncodeError::FrameTooLarge,
        },
{
    if l.len() > 0xffff {
        proof {
            lemma_texts_enc_len_ge_count(l.deep_view());
        }
        return Err(EncodeError::FrameTooLarge);
    }
    let mut v: usize = 0;
    while v < l.len()
        invariant
            v <= l@.len(),
            forall|t: int| 0 <= t < v ==> encode_utf8((#[trigger] l@[t])@).len() <= 0xffff,
        decreases l@.len() - v,
    {
        let bl = utf8_len_of(l[v].as_str());
        if bl > 0xffff {
            proof {
                assert(l.deep_view()[v as int] == l@[v as int]@);
                lemma_texts_enc_len_ge_elem(l.deep_view(), v as int);
            }
            return Err(EncodeError::FrameTooLarge);
        }
        v += 1;
    }
    proof {
        assert forall|t: int| 0 <= t < l@.len() implies encode_utf8(
            #[trigger] l.deep_view()[t],
        ).len() <= 0xffff by {
            assert(l.deep_view()[t] == l@[t]@);
        }
    }
    let mut p: Vec<u8> = Vec::new();
    push_msg_head(&mut p, 2, name);
    push_key_data(&mut p);
    push_len_header(&mut p, 4, l.len() as u16);
    push_texts(&mut p, l, 0);
    proof {
        assert(l.deep_view().skip(0) =~= l.deep_view());
        assert(p@ =~= array_msg_enc(name@, l.deep_view()));
    }
    Ok(p)
}

/// Builds the payload of a command.
fn req_payload_enc(m: &ChatRequest) -> (r: Result<Vec<u8>, EncodeError>)
    ensures
        match r {
            Ok(p) => p@ == req_enc(m@),
            Err(e) => req_enc(m@).len() > 0xffff && e == EncodeError::FrameTooLarge,
        },
{
    match m {
        ChatRequest::NickName(s) => {
            let pat: Vec<u8> = vec![0x4eu8, 0x69u8, 0x63u8, 0x6bu8, 0x4eu8, 0x61u8, 0x6du8, 0x65u8];
            proof {
                assert(pat@ =~= name_nick_name());
            }
            text_msg_payload(&pat, s.as_str())
        },
        ChatRequest::List => {
            let pat: Vec<u8> = vec![0x4cu8, 0x69u8, 0x73u8, 0x74u8];
            proof {
                assert(pat@ =~= name_list());
            }
            Ok(unit_msg_payload(&pat))
        },
        ChatRequest::Join(s) => {
            let pat: Vec<u8> = vec![0x4au8, 0x6fu8, 0x69u8, 0x6eu8];
            proof {
                assert(pat@ =~= name_join());
            }
            text_msg_payload(&pat, s.as_str())
        },
        ChatRequest::Message(s) => {
            let pat: Vec<u8> = vec![0x4du8, 0x65u8, 0x73u8, 0x73u8, 0x61u8, 0x67u8, 0x65u8];
            proof {
                assert(pat@ =~= name_message());
            }
            text_msg_payload(&pat, s.as_str())
        },
        ChatRequest::Ping => {
            let pat: Vec<u8> = vec![0x50u8, 0x69u8, 0x6eu8, 0x67u8];
            proof {
                assert(pat@ =~= name_ping());
            }
            Ok(unit_msg_payload(&pat))
        },
    }
}

/// Builds the payload of a response.
fn resp_payload_enc(m: &ChatResponse) -> (r: Result<Vec<u8>, EncodeError>)
    ensures
        match r {
            Ok(p) => p@ == resp_enc(m@),
            Err(e) => resp_enc(m@).len() > 0xffff && e == EncodeError::FrameTooLarge,
        },
{
    match m {
        ChatResponse::Ping => {
            let pat: Vec<u8> = vec![0x50u8, 0x69u8, 0x6eu8, 0x67u8];
            proof {
                assert(pat@ =~= name_ping());
            }
            Ok(unit_msg_payload(&pat))
        },
        ChatResponse::Rooms(l) => {
            let pat: Vec<u8> = vec![0x52u8, 0x6fu8, 0x6fu8, 0x6du8, 0x73u8];
            proof {
                assert(pat@ =~= name_rooms());
            }
            array_msg_payload(&pat, l)
        },
        ChatResponse::Joined(s) => {
            let pat: Vec<u8> = vec![0x4au8, 0x6fu8, 0x69u8, 0x6eu8, 0x65u8, 0x64u8];
            proof {
                assert(pat@ =~= name_joined());
            }
            text_msg_payload(&pat, s.as_str())
        },
        ChatResponse::Message(s) => {
            let pat: Vec<u8> = vec![0x4du8, 0x65u8, 0x73u8, 0x73u8, 0x61u8, 0x67u8, 0x65u8];
            proof {
                assert(pat@ =~= name_message());
            }
            text_msg_payload(&pat, s.as_str())
        },
        ChatResponse::SetNickName(s) => {
            let pat: Vec<u8> = vec![
                0x53u8,
                0x65u8,
                0x74u8,
                0x4eu8,
                0x69u8,
                0x63u8,
                0x6bu8,
                0x4eu8,
                0x61u8,
                0x6du8,
                0x65u8,
            ];
            proof {
                assert(pat@ =~= name_set_nick_name());
            }
            text_msg_payload(&pat, s.as_str())
        },
    }
}

/// Frames a built payload onto the outbound buffer.
fn push_frame(dst: &mut Vec<u8>, payload: &Vec<u8>)
    requires
        payload@.len() <= 0xffff,
    ensures
        final(dst)@ == old(dst)@ + frame_enc(payload@),
{
    let n = payload.len() as u16;
    dst.push((n / 256) as u8);
    dst.push((n % 256) as u8);
    push_bytes(dst, payload);
    proof {
        assert(dst@ =~= old(dst)@ + frame_enc(payload@));
    }
}

/// Codec for the client-to-server direction of the transport: decodes
/// commands, encodes responses.
pub struct ChatCodec;

/// Codec for the server-to-client direction of the transport: decodes
/// responses, encodes commands.
pub struct ClientChatCodec;

impl ChatCodec {
    /// Decodes one inbound command frame from the buffer, consuming it.
    /// With no complete frame buffered, consumes nothing and reports
    /// "need more data" as `Ok(None)`.
    pub fn decode(&mut self, src: &mut Vec<u8>) -> (r: Result<Option<ChatRequest>, DecodeError>)
        ensures
            incomplete(old(src)@) ==> r == Ok::<Option<ChatRequest>, DecodeError>(None) && final(src)@ == old(src)@,
            !incomplete(old(src)@) ==> final(src)@ == old(src)@.skip(
                2 + frame_len(old(src)@) as int,
            ) && match r {
                Ok(Some(m)) => req_dec(old(src)@.subrange(2, 2 + frame_len(old(src)@) as int))
                    == Ok::<ReqView, DecodeError>(m@),
                Ok(None) => false,
                Err(e) => req_dec(old(src)@.subrange(2, 2 + frame_len(old(src)@) as int)) == Err::<
                    ReqView,
                    DecodeError,
                >(e),
            },
    {
        match take_frame(src) {
            None => Ok(None),
            Some(p) => match req_payload_dec(&p) {
                Ok(m) => Ok(Some(m)),
                Err(e) => Err(e),
            },
        }
    }

    /// Encodes one outbound response as a frame appended to `dst`.
    /// A message whose payload would overrun the 2-byte length prefix is
    /// rejected whole; nothing is ever truncated.
    pub fn encode(&mut self, msg: ChatResponse, dst: &mut Vec<u8>) -> (r: Result<(), EncodeError>)
        ensures
            resp_enc(msg@).len() <= 0xffff ==> r == Ok::<(), EncodeError>(()) && final(dst)@ == old(
                dst,
            )@ + frame_enc(resp_enc(msg@)),
            resp_enc(msg@).len() > 0xffff ==> r == Err::<(), EncodeError>(EncodeError::FrameTooLarge)
                && final(dst)@ == old(dst)@,
    {
        let payload = match resp_payload_enc(&msg) {
            Ok(p) => p,
            Err(e) => {
                return Err(e);
            },
        };
        if payload.len() > 0xffff {
            return Err(EncodeError::FrameTooLarge);
        }
        push_frame(dst, &payload);
        Ok(())
    }
}

impl ClientChatCodec {
    /// Decodes one inbound response frame from the buffer, consuming it.
    /// With no complete frame buffered, consumes nothing and reports
    /// "need more data" as `Ok(None)`.
    pub fn decode(&mut self, src: &mut Vec<u8>) -> (r: Result<Option<ChatResponse>, DecodeError>)
        ensures
            incomplete(old(src)@) ==> r == Ok::<Option<ChatResponse>, DecodeError>(None) && final(src)@ == old(src)@,
            !incomplete(old(src)@) ==> final(src)@ == old(src)@.skip(
                2 + frame_len(old(src)@) as int,
            ) && match r {
                Ok(Some(m)) => resp_dec(old(src)@.subrange(2, 2 + frame_len(old(src)@) as int))
                    == Ok::<RespView, DecodeError>(m@),
                Ok(None) => false,
                Err(e) => resp_dec(old(src)@.subrange(2, 2 + frame_len(old(src)@) as int)) == Err::<
                    RespView,
                    DecodeError,
                >(e),
            },
    {
        match take_frame(src) {
            None => Ok(None),
            Some(p) => match resp_payload_dec(&p) {
                Ok(m) => Ok(Some(m)),
                Err(e) => Err(e),
            },
        }
    }

    /// Encodes one outbound command as a frame appended to `dst`.
    /// A message whose payload would overrun the 2-byte length prefix is
    /// rejected whole; nothing is ever truncated.
    pub fn encode(&mut self, msg: ChatRequest, dst: &mut Vec<u8>) -> (r: Result<(), EncodeError>)
        ensures
            req_enc(msg@).len() <= 0xffff ==> r == Ok::<(), EncodeError>(()) && final(dst)@ == old(
                dst,
            )@ + frame_enc(req_enc(msg@)),
            req_enc(msg@).len() > 0xffff ==> r == Err::<(), EncodeError>(EncodeError::FrameTooLarge)
                && final(dst)@ == old(dst)@,
    {
        let payload = match req_payload_enc(&msg) {
            Ok(p) => p,
            Err(e) => {
                return Err(e);
            },
        };
        if payload.len() > 0xffff {
            return Err(EncodeError::FrameTooLarge);
        }
        push_frame(dst, &payload);
        Ok(())
    }
}

} // verus!
