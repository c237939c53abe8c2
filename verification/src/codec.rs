//! The record format of a segment.
//!
//! A record is one JSON object with a single member, named after the
//! mutation: `{"Set":{"key":K,"value":V}}` or `{"Rm":{"key":K}}`, where `K`
//! and `V` are JSON string literals. Records stand back to back in a segment;
//! each one tells its own end.
//!
//! Escaping a string into a literal and reading a literal back are left to
//! `serde_json`. The frame around the literals, and finding where a literal
//! ends, are done here.

use vstd::prelude::*;
use vstd::slice::slice_subrange;
use vstd::utf8::encode_utf8;
use crate::error::{ErrorKind, KvsError, Result};

verus! {

/// One mutation of the store.
#[derive(Debug)]
pub enum KvsCommand {
    /// Give `key` the value `value`.
    Put { key: String, value: String },
    /// Take the value of `key` away.
    Rm { key: String },
}

/// A mutation as a mathematical value.
pub enum CommandView {
    Put { key: Seq<char>, value: Seq<char> },
    Rm { key: Seq<char> },
}

impl CommandView {
    /// The key that the mutation is about.
    pub open spec fn key(self) -> Seq<char> {
        match self {
            CommandView::Put { key, .. } => key,
            CommandView::Rm { key } => key,
        }
    }
}

impl View for KvsCommand {
    type V = CommandView;

    open spec fn view(&self) -> CommandView {
        match self {
            KvsCommand::Put { key, value } => CommandView::Put { key: key@, value: value@ },
            KvsCommand::Rm { key } => CommandView::Rm { key: key@ },
        }
    }
}

/// The error type of `serde_json`, carried through unopened.
#[verifier::external_type_specification]
#[verifier::external_body]
pub struct ExJsonError(serde_json::Error);

/// The character of a hexadecimal digit, in lower case.
pub open spec fn hex_digit(n: int) -> u8 {
    if n < 10 {
        (0x30 + n) as u8
    } else {
        (0x61 + n - 10) as u8
    }
}

/// What stands for one byte of a string inside a JSON string literal: a
/// quote and a backslash behind a backslash; backspace, tab, line feed, form
/// feed and carriage return as `\b`, `\t`, `\n`, `\f` and `\r`; any other
/// byte below `0x20` as `\u00` and its two hexadecimal digits; every other
/// byte as it is.
pub open spec fn escaped_byte(b: u8) -> Seq<u8> {
    if b == 0x22u8 {
        seq![0x5cu8, 0x22u8]
    } else if b == 0x5cu8 {
        seq![0x5cu8, 0x5cu8]
    } else if b == 0x08u8 {
        seq![0x5cu8, 0x62u8]
    } else if b == 0x09u8 {
        seq![0x5cu8, 0x74u8]
    } else if b == 0x0au8 {
        seq![0x5cu8, 0x6eu8]
    } else if b == 0x0cu8 {
        seq![0x5cu8, 0x66u8]
    } else if b == 0x0du8 {
        seq![0x5cu8, 0x72u8]
    } else if b < 0x20u8 {
        seq![0x5cu8, 0x75u8, 0x30u8, 0x30u8, hex_digit(b as int / 16), hex_digit(b as int % 16)]
    } else {
        seq![b]
    }
}

/// What stands for the bytes of a string inside a JSON string literal.
pub open spec fn escaped(bytes: Seq<u8>) -> Seq<u8>
    decreases bytes.len(),
{
    if bytes.len() == 0 {
        Seq::empty()
    } else {
        escaped(bytes.drop_last()) + escaped_byte(bytes.last())
    }
}

/// The JSON text that `serde_json::to_vec` writes for a string: a quote,
/// the bytes of the string in UTF-8 with what has to be escaped escaped,
/// and a quote.
pub open spec fn json_string(s: Seq<char>) -> Seq<u8> {
    seq![0x22u8] + escaped(encode_utf8(s)) + seq![0x22u8]
}

/// The string that `serde_json::from_slice::<String>` reads from a JSON
/// text, or `None` where it reports an error.
pub uninterp spec fn json_parse_string(text: Seq<u8>) -> Option<Seq<char>>;

/// Calls `serde_json::to_vec` on a string slice. Claimed: the call
/// succeeds, since a string has a JSON text and a vector takes every
/// byte; and its bytes are the string literal that `json_string` spells
/// out.
#[verifier::external_body]
fn json_escape(s: &str) -> (r: core::result::Result<Vec<u8>, serde_json::Error>)
    ensures
        r is Ok,
        r matches Ok(text) ==> text@ == json_string(s@),
{
    serde_json::to_vec(s)
}

/// Calls `serde_json::from_slice::<String>`. Claimed: whether the call
/// succeeds, and the string it gives, depend on the bytes alone.
#[verifier::external_body]
fn json_unescape(text: &[u8]) -> (r: core::result::Result<String, serde_json::Error>)
    ensures
        match r {
            Ok(s) => json_parse_string(text@) == Some(s@),
            Err(_) => json_parse_string(text@) is None,
        },
{
    serde_json::from_slice::<String>(text)
}

/// `{"Set":{"key":`
pub open spec fn set_head() -> Seq<u8> {
    seq![
        0x7bu8, 0x22u8, 0x53u8, 0x65u8, 0x74u8, 0x22u8, 0x3au8, 0x7bu8, 0x22u8, 0x6bu8, 0x65u8,
        0x79u8, 0x22u8, 0x3au8,
    ]
}

/// `{"Rm":{"key":`
pub open spec fn rm_head() -> Seq<u8> {
    seq![
        0x7bu8, 0x22u8, 0x52u8, 0x6du8, 0x22u8, 0x3au8, 0x7bu8, 0x22u8, 0x6bu8, 0x65u8, 0x79u8,
        0x22u8, 0x3au8,
    ]
}

/// `,"value":`
pub open spec fn value_mark() -> Seq<u8> {
    seq![0x2cu8, 0x22u8, 0x76u8, 0x61u8, 0x6cu8, 0x75u8, 0x65u8, 0x22u8, 0x3au8]
}

/// `}}`
pub open spec fn tail() -> Seq<u8> {
    seq![0x7du8, 0x7du8]
}

/// The bytes of a `Put` record around the two given literals.
pub open spec fn set_frame(key_text: Seq<u8>, value_text: Seq<u8>) -> Seq<u8> {
    set_head() + key_text + value_mark() + value_text + tail()
}

/// The bytes of an `Rm` record around the given literal.
pub open spec fn rm_frame(key_text: Seq<u8>) -> Seq<u8> {
    rm_head() + key_text + tail()
}

/// The bytes that stand for a mutation in a segment.
pub open spec fn record_bytes(c: CommandView) -> Seq<u8> {
    match c {
        CommandView::Put { key, value } => set_frame(json_string(key), json_string(value)),
        CommandView::Rm { key } => rm_frame(json_string(key)),
    }
}

/// How a byte sequence compares, from a position on, with a fixed text.
pub enum Matched {
    /// The whole text stands there.
    Whole,
    /// The bytes end first, and agree with the text as far as they go.
    Part,
    /// Some byte differs.
    No,
}

/// Compares `s` from `at` on with `text`.
pub open spec fn match_at(s: Seq<u8>, at: int, text: Seq<u8>) -> Matched {
    if at + text.len() <= s.len() {
        if s.subrange(at, at + text.len()) == text {
            Matched::Whole
        } else {
            Matched::No
        }
    } else if s.subrange(at, s.len() as int) == text.take(s.len() - at) {
        Matched::Part
    } else {
        Matched::No
    }
}

/// The outcome of looking for the end of a string literal.
pub enum Scanned {
    /// The position just behind the closing quote.
    End(int),
    /// The bytes end inside the literal.
    Truncated,
    /// No literal starts here.
    Corrupt,
}

/// The position behind the first quote at or after `i` that no backslash
/// stands before. A backslash takes the byte after it along.
pub open spec fn body_end(s: Seq<u8>, i: int) -> Scanned
    decreases s.len() - i,
{
    if i < 0 || i >= s.len() {
        Scanned::Truncated
    } else if s[i] == 0x22u8 {
        Scanned::End(i + 1)
    } else if s[i] == 0x5cu8 {
        if i + 1 >= s.len() {
            Scanned::Truncated
        } else {
            body_end(s, i + 2)
        }
    } else {
        body_end(s, i + 1)
    }
}

/// Where the string literal that starts at `at` ends.
pub open spec fn literal_end(s: Seq<u8>, at: int) -> Scanned {
    if at < 0 || at >= s.len() {
        Scanned::Truncated
    } else if s[at] != 0x22u8 {
        Scanned::Corrupt
    } else {
        body_end(s, at + 1)
    }
}

/// The outcome of reading a string literal.
pub enum Literal {
    /// The string, and the position behind the literal.
    Text(Seq<char>, int),
    /// The bytes end inside the literal.
    Truncated,
    /// No literal starts here, or it stands for no string.
    Corrupt,
}

/// Reads the string literal that starts at `at`.
pub open spec fn parse_literal(s: Seq<u8>, at: int) -> Literal {
    match literal_end(s, at) {
        Scanned::End(end) => match json_parse_string(s.subrange(at, end)) {
            Some(text) => Literal::Text(text, end),
            None => Literal::Corrupt,
        },
        Scanned::Truncated => Literal::Truncated,
        Scanned::Corrupt => Literal::Corrupt,
    }
}

/// What the front of a byte sequence holds.
pub enum Parsed {
    /// A whole record, and the number of bytes it takes.
    Record(CommandView, nat),
    /// The bytes end inside what may still become a record.
    Truncated,
    /// The bytes are no record, and no beginning of one.
    Corrupt,
}

/// What stands behind the key of a record: `}}` at `at`.
pub open spec fn parse_tail(s: Seq<u8>, at: int, c: CommandView) -> Parsed {
    match match_at(s, at, tail()) {
        Matched::Whole => Parsed::Record(c, (at + tail().len()) as nat),
        Matched::Part => Parsed::Truncated,
        Matched::No => Parsed::Corrupt,
    }
}

/// Reads a `Put` record whose head has been seen.
pub open spec fn parse_put(s: Seq<u8>) -> Parsed {
    match parse_literal(s, set_head().len() as int) {
        Literal::Text(key, key_end) => match match_at(s, key_end, value_mark()) {
            Matched::Whole => match parse_literal(s, key_end + value_mark().len()) {
                Literal::Text(value, value_end) => parse_tail(
                    s,
                    value_end,
                    CommandView::Put { key, value },
                ),
                Literal::Truncated => Parsed::Truncated,
                Literal::Corrupt => Parsed::Corrupt,
            },
            Matched::Part => Parsed::Truncated,
            Matched::No => Parsed::Corrupt,
        },
        Literal::Truncated => Parsed::Truncated,
        Literal::Corrupt => Parsed::Corrupt,
    }
}

/// Reads an `Rm` record whose head has been seen.
pub open spec fn parse_rm(s: Seq<u8>) -> Parsed {
    match parse_literal(s, rm_head().len() as int) {
        Literal::Text(key, key_end) => parse_tail(s, key_end, CommandView::Rm { key }),
        Literal::Truncated => Parsed::Truncated,
        Literal::Corrupt => Parsed::Corrupt,
    }
}

/// Reads the record at the front of `s`.
pub open spec fn parse_record(s: Seq<u8>) -> Parsed {
    match match_at(s, 0, set_head()) {
        Matched::Whole => parse_put(s),
        put => match match_at(s, 0, rm_head()) {
            Matched::Whole => parse_rm(s),
            Matched::Part => Parsed::Truncated,
            Matched::No => if put is Part {
                Parsed::Truncated
            } else {
                Parsed::Corrupt
            },
        },
    }
}

fn set_head_text() -> (text: [u8; 14])
    ensures
        text@ == set_head(),
{
    let text: [u8; 14] = [
        0x7bu8, 0x22u8, 0x53u8, 0x65u8, 0x74u8, 0x22u8, 0x3au8, 0x7bu8, 0x22u8, 0x6bu8, 0x65u8,
        0x79u8, 0x22u8, 0x3au8,
    ];
    assert(text@ =~= set_head());
    text
}

fn rm_head_text() -> (text: [u8; 13])
    ensures
        text@ == rm_head(),
{
    let text: [u8; 13] = [
        0x7bu8, 0x22u8, 0x52u8, 0x6du8, 0x22u8, 0x3au8, 0x7bu8, 0x22u8, 0x6bu8, 0x65u8, 0x79u8,
        0x22u8, 0x3au8,
    ];
    assert(text@ =~= rm_head());
    text
}

fn value_mark_text() -> (text: [u8; 9])
    ensures
        text@ == value_mark(),
{
    let text: [u8; 9] = [0x2cu8, 0x22u8, 0x76u8, 0x61u8, 0x6cu8, 0x75u8, 0x65u8, 0x22u8, 0x3au8];
    assert(text@ =~= value_mark());
    text
}

fn tail_text() -> (text: [u8; 2])
    ensures
        text@ == tail(),
{
    let text: [u8; 2] = [0x7du8, 0x7du8];
    assert(text@ =~= tail());
    text
}

/// Compares `bytes` from `at` on with `text`.
fn compare(bytes: &[u8], at: usize, text: &[u8]) -> (m: Matched)
    requires
        at <= bytes@.len(),
    ensures
        m == match_at(bytes@, at as int, text@),
{
    let room: usize = bytes.len() - at;
    let mut i: usize = 0;
    while i < text.len() && i < room
        invariant
            at <= bytes@.len() <= usize::MAX,
            room == bytes@.len() - at,
            i <= text@.len(),
            i <= room,
            forall|k: int| 0 <= k < i ==> bytes@[at + k] == text@[k],
        decreases text@.len() - i,
    {
        if bytes[at + i] != text[i] {
            proof {
                let k = i as int;
                if at + text@.len() <= bytes@.len() {
                    assert(bytes@.subrange(at as int, at + text@.len())[k] != text@[k]);
                } else {
                    let room = bytes@.len() - at;
                    assert(bytes@.subrange(at as int, bytes@.len() as int)[k] != text@.take(room)[k]);
                }
            }
            return Matched::No;
        }
        i += 1;
    }
    if i == text.len() {
        assert(bytes@.subrange(at as int, at + text@.len()) =~= text@);
        Matched::Whole
    } else {
        assert(bytes@.subrange(at as int, bytes@.len() as int) =~= text@.take(bytes@.len() - at));
        Matched::Part
    }
}

/// The outcome of looking for the end of a string literal, in a buffer.
enum Scan {
    End(usize),
    Truncated,
    Corrupt,
}

impl View for Scan {
    type V = Scanned;

    closed spec fn view(&self) -> Scanned {
        match self {
            Scan::End(end) => Scanned::End(*end as int),
            Scan::Truncated => Scanned::Truncated,
            Scan::Corrupt => Scanned::Corrupt,
        }
    }
}

/// Finds the end of the string literal that starts at `at`.
fn scan_literal(bytes: &[u8], at: usize) -> (r: Scan)
    requires
        at <= bytes@.len(),
    ensures
        r@ == literal_end(bytes@, at as int),
        r matches Scan::End(end) ==> at < end <= bytes@.len(),
{
    let len: usize = bytes.len();
    if at >= len {
        return Scan::Truncated;
    }
    if bytes[at] != 0x22u8 {
        return Scan::Corrupt;
    }
    let mut i: usize = at + 1;
    loop
        invariant
            len == bytes@.len(),
            at < i <= len,
            body_end(bytes@, i as int) == literal_end(bytes@, at as int),
        decreases len - i,
    {
        if i >= len {
            return Scan::Truncated;
        }
        let b: u8 = bytes[i];
        if b == 0x22u8 {
            return Scan::End(i + 1);
        }
        if b == 0x5cu8 {
            if len - i <= 1 {
                return Scan::Truncated;
            }
            i += 2;
        } else {
            i += 1;
        }
    }
}

/// The outcome of reading a string literal, in a buffer.
enum Read {
    Text(String, usize),
    Truncated,
    Corrupt,
}

impl View for Read {
    type V = Literal;

    closed spec fn view(&self) -> Literal {
        match self {
            Read::Text(text, end) => Literal::Text(text@, *end as int),
            Read::Truncated => Literal::Truncated,
            Read::Corrupt => Literal::Corrupt,
        }
    }
}

/// Reads the string literal that starts at `at`.
fn read_literal(bytes: &[u8], at: usize) -> (r: Read)
    requires
        at <= bytes@.len(),
    ensures
        r@ == parse_literal(bytes@, at as int),
        r matches Read::Text(_, end) ==> at < end <= bytes@.len(),
{
    match scan_literal(bytes, at) {
        Scan::End(end) => match json_unescape(slice_subrange(bytes, at, end)) {
            Ok(text) => Read::Text(text, end),
            Err(_) => Read::Corrupt,
        },
        Scan::Truncated => Read::Truncated,
        Scan::Corrupt => Read::Corrupt,
    }
}

/// What the front of a buffer holds.
#[derive(Debug)]
pub enum Decoded {
    /// A whole record, and the number of bytes it takes.
    Record(KvsCommand, usize),
    /// The bytes end inside what may still become a record.
    Truncated,
    /// The bytes are no record, and no beginning of one.
    Corrupt,
}

impl View for Decoded {
    type V = Parsed;

    open spec fn view(&self) -> Parsed {
        match self {
            Decoded::Record(c, len) => Parsed::Record(c@, *len as nat),
            Decoded::Truncated => Parsed::Truncated,
            Decoded::Corrupt => Parsed::Corrupt,
        }
    }
}

fn decode_tail(bytes: &[u8], at: usize, c: KvsCommand) -> (d: Decoded)
    requires
        at <= bytes@.len(),
    ensures
        d@ == parse_tail(bytes@, at as int, c@),
        d matches Decoded::Record(_, len) ==> at < len <= bytes@.len(),
{
    let text = tail_text();
    let len: usize = bytes.len();
    assert(tail().len() == 2);
    match compare(bytes, at, text.as_slice()) {
        Matched::Whole => Decoded::Record(c, at + 2),
        Matched::Part => Decoded::Truncated,
        Matched::No => Decoded::Corrupt,
    }
}

fn decode_put(bytes: &[u8]) -> (d: Decoded)
    requires
        match_at(bytes@, 0, set_head()) is Whole,
    ensures
        d@ == parse_put(bytes@),
        d matches Decoded::Record(_, len) ==> 0 < len <= bytes@.len(),
{
    let len: usize = bytes.len();
    assert(set_head().len() == 14);
    assert(value_mark().len() == 9);
    match read_literal(bytes, 14) {
        Read::Text(key, key_end) => {
            let mark = value_mark_text();
            match compare(bytes, key_end, mark.as_slice()) {
                Matched::Whole => match read_literal(bytes, key_end + 9) {
                    Read::Text(value, value_end) => decode_tail(
                        bytes,
                        value_end,
                        KvsCommand::Put { key, value },
                    ),
                    Read::Truncated => Decoded::Truncated,
                    Read::Corrupt => Decoded::Corrupt,
                },
                Matched::Part => Decoded::Truncated,
                Matched::No => Decoded::Corrupt,
            }
        },
        Read::Truncated => Decoded::Truncated,
        Read::Corrupt => Decoded::Corrupt,
    }
}

fn decode_rm(bytes: &[u8]) -> (d: Decoded)
    requires
        match_at(bytes@, 0, rm_head()) is Whole,
    ensures
        d@ == parse_rm(bytes@),
        d matches Decoded::Record(_, len) ==> 0 < len <= bytes@.len(),
{
    assert(rm_head().len() == 13);
    match read_literal(bytes, 13) {
        Read::Text(key, key_end) => decode_tail(bytes, key_end, KvsCommand::Rm { key }),
        Read::Truncated => Decoded::Truncated,
        Read::Corrupt => Decoded::Corrupt,
    }
}

/// Reads the record at the front of `bytes`.
pub fn decode(bytes: &[u8]) -> (d: Decoded)
    ensures
        d@ == parse_record(bytes@),
        d matches Decoded::Record(_, len) ==> 0 < len <= bytes@.len(),
{
    let put_head = set_head_text();
    let put = compare(bytes, 0, put_head.as_slice());
    if let Matched::Whole = put {
        return decode_put(bytes);
    }
    let rm_head = rm_head_text();
    match compare(bytes, 0, rm_head.as_slice()) {
        Matched::Whole => decode_rm(bytes),
        Matched::Part => Decoded::Truncated,
        Matched::No => if let Matched::Part = put {
            Decoded::Truncated
        } else {
            Decoded::Corrupt
        },
    }
}

/// Whether two mutations are the same.
pub fn same_command(a: &KvsCommand, b: &KvsCommand) -> (same: bool)
    ensures
        same == (a@ == b@),
{
    match (a, b) {
        (KvsCommand::Put { key: ka, value: va }, KvsCommand::Put { key: kb, value: vb }) => {
            *ka == *kb && *va == *vb
        },
        (KvsCommand::Rm { key: ka }, KvsCommand::Rm { key: kb }) => *ka == *kb,
        _ => false,
    }
}

/// Accepts `bytes` as the record of `cmd` where they read back as `cmd`
/// and nothing is left over.
pub fn confirm(cmd: &KvsCommand, bytes: Vec<u8>) -> (r: Result<Vec<u8>>)
    ensures
        match r {
            Ok(record) => {
                &&& record == bytes
                &&& parse_record(bytes@) == Parsed::Record(cmd@, bytes@.len())
            },
            Err(e) => {
                &&& e.plain(ErrorKind::Codec)
                &&& parse_record(bytes@) != Parsed::Record(cmd@, bytes@.len())
            },
        },
{
    let accepted = match decode(bytes.as_slice()) {
        Decoded::Record(back, len) => len == bytes.len() && same_command(&back, cmd),
        _ => false,
    };
    if accepted {
        Ok(bytes)
    } else {
        Err(KvsError::of(ErrorKind::Codec))
    }
}

/// Puts the frame of a `Put` record around the literals of its key and
/// its value.
pub fn frame_put(key_text: &[u8], value_text: &[u8]) -> (record: Vec<u8>)
    ensures
        record@ == set_frame(key_text@, value_text@),
{
    let head = set_head_text();
    let mark = value_mark_text();
    let tail = tail_text();
    let mut record: Vec<u8> = Vec::new();
    record.extend_from_slice(head.as_slice());
    record.extend_from_slice(key_text);
    record.extend_from_slice(mark.as_slice());
    record.extend_from_slice(value_text);
    record.extend_from_slice(tail.as_slice());
    assert(record@ =~= set_frame(key_text@, value_text@));
    record
}

/// Puts the frame of an `Rm` record around the literal of its key.
pub fn frame_rm(key_text: &[u8]) -> (record: Vec<u8>)
    ensures
        record@ == rm_frame(key_text@),
{
    let head = rm_head_text();
    let tail = tail_text();
    let mut record: Vec<u8> = Vec::new();
    record.extend_from_slice(head.as_slice());
    record.extend_from_slice(key_text);
    record.extend_from_slice(tail.as_slice());
    assert(record@ =~= rm_frame(key_text@));
    record
}

/// A literal as `serde_json` gave it: its bytes, or `None` for an error.
pub open spec fn literal_of(text: core::result::Result<Vec<u8>, serde_json::Error>) -> Option<
    Seq<u8>,
> {
    match text {
        Ok(bytes) => Some(bytes@),
        Err(_) => None,
    }
}

/// The record of `c` around the given literals, if there is one: the
/// literals that `c` needs are there, and the frame around them reads back
/// as `c`, whole.
pub open spec fn assembled(
    c: CommandView,
    key_text: Option<Seq<u8>>,
    value_text: Option<Seq<u8>>,
) -> Option<Seq<u8>> {
    let framed = match c {
        CommandView::Put { .. } => if key_text is Some && value_text is Some {
            Some(set_frame(key_text->Some_0, value_text->Some_0))
        } else {
            None
        },
        CommandView::Rm { .. } => if key_text is Some {
            Some(rm_frame(key_text->Some_0))
        } else {
            None
        },
    };
    if framed is Some && parse_record(framed->Some_0) == Parsed::Record(
        c,
        framed->Some_0.len(),
    ) {
        framed
    } else {
        None
    }
}

/// The literal of a value, where one was asked for and given.
pub open spec fn value_literal_of(
    text: Option<core::result::Result<Vec<u8>, serde_json::Error>>,
) -> Option<Seq<u8>> {
    match text {
        Some(text) => literal_of(text),
        None => None,
    }
}

/// Makes the record of `cmd` of the literal of its key and, for a `Put`,
/// the literal of its value, as `serde_json` gave them. Without a literal
/// that `cmd` needs, or with a frame that does not read back as `cmd`,
/// there is no record, and the error is of kind `Codec`.
pub fn assemble(
    cmd: &KvsCommand,
    key_text: core::result::Result<Vec<u8>, serde_json::Error>,
    value_text: Option<core::result::Result<Vec<u8>, serde_json::Error>>,
) -> (r: Result<Vec<u8>>)
    ensures
        match r {
            Ok(record) => assembled(cmd@, literal_of(key_text), value_literal_of(value_text))
                == Some(record@),
            Err(e) => {
                &&& e.plain(ErrorKind::Codec)
                &&& assembled(cmd@, literal_of(key_text), value_literal_of(value_text)) is None
            },
        },
{
    let key_text = match key_text {
        Ok(text) => text,
        Err(_) => {
            return Err(KvsError::of(ErrorKind::Codec));
        },
    };
    let record = match cmd {
        KvsCommand::Put { .. } => {
            let value_text = match value_text {
                Some(Ok(text)) => text,
                _ => {
                    return Err(KvsError::of(ErrorKind::Codec));
                },
            };
            frame_put(key_text.as_slice(), value_text.as_slice())
        },
        KvsCommand::Rm { .. } => frame_rm(key_text.as_slice()),
    };
    confirm(cmd, record)
}

/// The record of `c`, if it has one: the frame around the JSON texts of
/// its key and, for a `Put`, of its value, where that frame reads back as
/// `c`, whole.
pub open spec fn encoded(c: CommandView) -> Option<Seq<u8>> {
    match c {
        CommandView::Put { key, value } => assembled(
            c,
            Some(json_string(key)),
            Some(json_string(value)),
        ),
        CommandView::Rm { key } => assembled(c, Some(json_string(key)), None),
    }
}

/// The bytes that stand for `cmd` in a segment: its record, where it has
/// one, and else an error of kind `Codec`. It has one where `serde_json`
/// reads its strings back from the texts that it writes for them. The
/// bytes are handed out only after they have been read back: what `encode`
/// returns, `decode` reads as `cmd`.
pub fn encode(cmd: &KvsCommand) -> (r: Result<Vec<u8>>)
    ensures
        r is Ok <==> encodable(cmd@),
        match r {
            Ok(record) => {
                &&& encoded(cmd@) == Some(record@)
                &&& record@ == record_bytes(cmd@)
                &&& parse_record(record@) == Parsed::Record(cmd@, record@.len())
            },
            Err(e) => e.plain(ErrorKind::Codec) && encoded(cmd@) is None,
        },
{
    proof {
        lemma_encoded(cmd@);
    }
    match cmd {
        KvsCommand::Put { key, value } => {
            let key_text = json_escape(key.as_str());
            let value_text = json_escape(value.as_str());
            assemble(cmd, key_text, Some(value_text))
        },
        KvsCommand::Rm { key } => {
            let key_text = json_escape(key.as_str());
            assemble(cmd, key_text, None)
        },
    }
}

/// `s` and `t` hold the same first `n` bytes.
pub open spec fn agree(s: Seq<u8>, t: Seq<u8>, n: int) -> bool {
    &&& 0 <= n <= s.len()
    &&& n <= t.len()
    &&& forall|k: int| 0 <= k < n ==> s[k] == t[k]
}

/// A literal that ends, ends behind where it starts and inside the bytes.
pub proof fn lemma_body_end_bounds(s: Seq<u8>, i: int)
    requires
        0 <= i,
    ensures
        body_end(s, i) matches Scanned::End(end) ==> i < end <= s.len(),
        !(body_end(s, i) is Corrupt),
    decreases s.len() - i,
{
    if i < s.len() && s[i] != 0x22u8 {
        if s[i] == 0x5cu8 {
            if i + 1 < s.len() {
                lemma_body_end_bounds(s, i + 2);
            }
        } else {
            lemma_body_end_bounds(s, i + 1);
        }
    }
}

proof fn lemma_body_end_agree(s: Seq<u8>, t: Seq<u8>, i: int, n: int)
    requires
        0 <= i,
        agree(s, t, n),
        body_end(s, i) matches Scanned::End(end) && end <= n,
    ensures
        body_end(t, i) == body_end(s, i),
    decreases s.len() - i,
{
    lemma_body_end_bounds(s, i);
    if s[i] != 0x22u8 {
        if s[i] == 0x5cu8 {
            lemma_body_end_bounds(s, i + 2);
            lemma_body_end_agree(s, t, i + 2, n);
        } else {
            lemma_body_end_bounds(s, i + 1);
            lemma_body_end_agree(s, t, i + 1, n);
        }
    }
}

proof fn lemma_literal_agree(s: Seq<u8>, t: Seq<u8>, at: int, n: int)
    requires
        0 <= at,
        agree(s, t, n),
        parse_literal(s, at) matches Literal::Text(_, end) && end <= n,
    ensures
        parse_literal(t, at) == parse_literal(s, at),
        parse_literal(s, at) matches Literal::Text(_, end) && at < end,
{
    lemma_body_end_bounds(s, at + 1);
    lemma_body_end_agree(s, t, at + 1, n);
    let end = literal_end(s, at)->End_0;
    assert(t.subrange(at, end) =~= s.subrange(at, end));
}

proof fn lemma_match_agree(s: Seq<u8>, t: Seq<u8>, at: int, text: Seq<u8>, n: int)
    requires
        0 <= at,
        agree(s, t, n),
        match_at(s, at, text) is Whole,
        at + text.len() <= n,
    ensures
        match_at(t, at, text) is Whole,
{
    assert(t.subrange(at, at + text.len()) =~= s.subrange(at, at + text.len()));
}

/// A record ends inside the bytes it was read from, and is not empty.
pub proof fn lemma_record_bounds(s: Seq<u8>)
    ensures
        parse_record(s) matches Parsed::Record(_, len) ==> 0 < len <= s.len(),
{
    if parse_record(s) is Record {
        assert(tail().len() == 2);
        if match_at(s, 0, set_head()) is Whole {
            let key_end = parse_literal(s, set_head().len() as int)->Text_1;
            lemma_body_end_bounds(s, set_head().len() as int + 1);
            let value_end = parse_literal(s, key_end + value_mark().len())->Text_1;
            lemma_body_end_bounds(s, key_end + value_mark().len() + 1);
            assert(match_at(s, value_end, tail()) is Whole);
        } else {
            let key_end = parse_literal(s, rm_head().len() as int)->Text_1;
            lemma_body_end_bounds(s, rm_head().len() as int + 1);
            assert(match_at(s, key_end, tail()) is Whole);
        }
    }
}

/// A record is read from its own bytes alone: whatever stands behind them,
/// the same record is read.
pub proof fn lemma_record_alone(s: Seq<u8>, t: Seq<u8>)
    requires
        parse_record(s) matches Parsed::Record(_, len) && agree(s, t, len as int),
    ensures
        parse_record(t) == parse_record(s),
{
    let n = parse_record(s)->Record_1 as int;
    assert(tail().len() == 2);
    assert(set_head().len() == 14);
    assert(rm_head().len() == 13);
    assert(value_mark().len() == 9);
    if match_at(s, 0, set_head()) is Whole {
        let key_end = parse_literal(s, 14)->Text_1;
        let value_end = parse_literal(s, key_end + 9)->Text_1;
        lemma_body_end_bounds(s, 15);
        lemma_body_end_bounds(s, key_end + 10);
        assert(match_at(s, value_end, tail()) is Whole);
        assert(n == value_end + 2);
        lemma_match_agree(s, t, 0, set_head(), n);
        lemma_literal_agree(s, t, 14, n);
        lemma_match_agree(s, t, key_end, value_mark(), n);
        lemma_literal_agree(s, t, key_end + 9, n);
        lemma_match_agree(s, t, value_end, tail(), n);
    } else {
        assert(match_at(s, 0, rm_head()) is Whole);
        let key_end = parse_literal(s, 13)->Text_1;
        lemma_body_end_bounds(s, 14);
        assert(match_at(s, key_end, tail()) is Whole);
        assert(n == key_end + 2);
        lemma_match_agree(s, t, 0, rm_head(), n);
        lemma_literal_agree(s, t, 13, n);
        lemma_match_agree(s, t, key_end, tail(), n);
        assert(s.subrange(0, 13)[1] == rm_head()[1]);
        assert(s.subrange(0, 13)[2] == rm_head()[2]);
        assert(t[2] == 0x52u8);
        if t.len() >= 14 {
            assert(t.subrange(0, 14)[2] == t[2]);
            assert(set_head()[2] == 0x53u8);
        } else {
            assert(t.subrange(0, t.len() as int)[2] == t[2]);
            assert(set_head().take(t.len() as int)[2] == 0x53u8);
        }
        assert(!(match_at(t, 0, set_head()) is Whole));
    }
}

proof fn lemma_body_end_cut(s: Seq<u8>, i: int, k: int)
    requires
        0 <= i,
        0 <= k <= s.len(),
        body_end(s, i) matches Scanned::End(end) && k < end,
    ensures
        body_end(s.take(k), i) is Truncated,
    decreases s.len() - i,
{
    lemma_body_end_bounds(s, i);
    let t = s.take(k);
    if i < k {
        if s[i] != 0x22u8 {
            if s[i] == 0x5cu8 {
                if i + 1 < k {
                    lemma_body_end_cut(s, i + 2, k);
                }
            } else {
                lemma_body_end_cut(s, i + 1, k);
            }
        }
    }
}

proof fn lemma_literal_cut(s: Seq<u8>, at: int, k: int)
    requires
        0 <= at,
        0 <= k <= s.len(),
        parse_literal(s, at) matches Literal::Text(_, end) && k < end,
    ensures
        parse_literal(s.take(k), at) is Truncated,
{
    if at < k {
        lemma_body_end_cut(s, at + 1, k);
    }
}

proof fn lemma_match_cut(s: Seq<u8>, at: int, text: Seq<u8>, k: int)
    requires
        0 <= at <= k <= s.len(),
        match_at(s, at, text) is Whole,
        k < at + text.len(),
    ensures
        match_at(s.take(k), at, text) is Part,
{
    let t = s.take(k);
    assert(t.subrange(at, k) =~= text.take(k - at)) by {
        assert forall|j: int| 0 <= j < k - at implies t.subrange(at, k)[j] == text.take(k - at)[j] by {
            assert(s.subrange(at, at + text.len())[j] == text[j]);
        }
    }
}

/// A record that is cut short is recognised as such: every proper prefix
/// of the bytes of a record is read as truncated.
pub proof fn lemma_record_cut_short(s: Seq<u8>, k: int)
    requires
        parse_record(s) matches Parsed::Record(_, len) && 0 <= k < len,
    ensures
        parse_record(s.take(k)) is Truncated,
{
    let n = parse_record(s)->Record_1 as int;
    let t = s.take(k);
    lemma_record_bounds(s);
    assert(agree(s, t, k));
    assert(tail().len() == 2);
    assert(set_head().len() == 14);
    assert(rm_head().len() == 13);
    assert(value_mark().len() == 9);
    if match_at(s, 0, set_head()) is Whole {
        let key_end = parse_literal(s, 14)->Text_1;
        let value_end = parse_literal(s, key_end + 9)->Text_1;
        lemma_body_end_bounds(s, 15);
        lemma_body_end_bounds(s, key_end + 10);
        assert(match_at(s, value_end, tail()) is Whole);
        assert(n == value_end + 2);
        if k < 14 {
            lemma_match_cut(s, 0, set_head(), k);
            assert(s.subrange(0, 14)[2] == set_head()[2]);
            if k >= 13 {
                assert(t.subrange(0, 13)[2] == t[2]);
                assert(rm_head()[2] == 0x52u8);
            }
            assert(!(match_at(t, 0, rm_head()) is Whole));
        } else {
            lemma_match_agree(s, t, 0, set_head(), k);
            if k < key_end {
                lemma_literal_cut(s, 14, k);
            } else {
                lemma_literal_agree(s, t, 14, k);
                if k < key_end + 9 {
                    lemma_match_cut(s, key_end, value_mark(), k);
                } else {
                    lemma_match_agree(s, t, key_end, value_mark(), k);
                    if k < value_end {
                        lemma_literal_cut(s, key_end + 9, k);
                    } else {
                        lemma_literal_agree(s, t, key_end + 9, k);
                        lemma_match_cut(s, value_end, tail(), k);
                    }
                }
            }
        }
    } else {
        assert(match_at(s, 0, rm_head()) is Whole);
        let key_end = parse_literal(s, 13)->Text_1;
        lemma_body_end_bounds(s, 14);
        assert(match_at(s, key_end, tail()) is Whole);
        assert(n == key_end + 2);
        assert(s.subrange(0, 13)[2] == rm_head()[2]);
        if k < 13 {
            lemma_match_cut(s, 0, rm_head(), k);
            if k > 2 {
                assert(t.subrange(0, k)[2] == t[2]);
                assert(set_head().take(k)[2] == 0x53u8);
                assert(match_at(t, 0, set_head()) is No);
            }
            assert(!(match_at(t, 0, set_head()) is Whole));
        } else {
            lemma_match_agree(s, t, 0, rm_head(), k);
            if k >= 14 {
                assert(t.subrange(0, 14)[2] == t[2]);
            } else {
                assert(t.subrange(0, t.len() as int)[2] == t[2]);
                assert(set_head().take(t.len() as int)[2] == 0x53u8);
            }
            assert(set_head()[2] == 0x53u8);
            assert(!(match_at(t, 0, set_head()) is Whole));
            if k < key_end {
                lemma_literal_cut(s, 13, k);
            } else {
                lemma_literal_agree(s, t, 13, k);
                lemma_match_cut(s, key_end, tail(), k);
            }
        }
    }
}

/// What stands for a byte is scanned over as a part of the literal's
/// body: it holds no quote that ends the literal.
proof fn lemma_scan_escaped_byte(s: Seq<u8>, at: int, b: u8)
    requires
        0 <= at,
        at + escaped_byte(b).len() <= s.len(),
        s.subrange(at, at + escaped_byte(b).len()) == escaped_byte(b),
    ensures
        body_end(s, at) == body_end(s, at + escaped_byte(b).len()),
{
    let e = escaped_byte(b);
    assert forall|k: int| 0 <= k < e.len() implies s[at + k] == e[k] by {
        assert(s.subrange(at, at + e.len())[k] == s[at + k]);
    }
    assert(s[at] == e[0]);
    if e.len() == 2 {
        assert(s[at] == 0x5cu8);
    } else if e.len() == 6 {
        assert(s[at] == 0x5cu8);
        assert(s[at + 2] == e[2]);
        assert(s[at + 3] == e[3]);
        assert(s[at + 4] == e[4]);
        assert(s[at + 5] == e[5]);
        assert(body_end(s, at) == body_end(s, at + 2));
        assert(body_end(s, at + 2) == body_end(s, at + 3));
        assert(body_end(s, at + 3) == body_end(s, at + 4));
        assert(body_end(s, at + 4) == body_end(s, at + 5));
        assert(body_end(s, at + 5) == body_end(s, at + 6));
    }
}

/// The body of a string literal is scanned over to its end.
proof fn lemma_scan_escaped(s: Seq<u8>, at: int, x: Seq<u8>)
    requires
        0 <= at,
        at + escaped(x).len() <= s.len(),
        s.subrange(at, at + escaped(x).len()) == escaped(x),
    ensures
        body_end(s, at) == body_end(s, at + escaped(x).len()),
    decreases x.len(),
{
    if x.len() > 0 {
        let front = escaped(x.drop_last());
        let last = escaped_byte(x.last());
        let mid = at + front.len();
        assert(s.subrange(at, mid) =~= front) by {
            assert forall|k: int| 0 <= k < front.len() implies s.subrange(at, mid)[k]
                == front[k] by {
                assert(s.subrange(at, at + escaped(x).len())[k] == escaped(x)[k]);
            }
        }
        assert(s.subrange(mid, mid + last.len()) =~= last) by {
            assert forall|k: int| 0 <= k < last.len() implies s.subrange(mid, mid + last.len())[k]
                == last[k] by {
                assert(s.subrange(at, at + escaped(x).len())[front.len() + k] == escaped(x)[
                    front.len() + k]);
            }
        }
        lemma_scan_escaped(s, at, x.drop_last());
        lemma_scan_escaped_byte(s, mid, x.last());
    }
}

/// A string is read back: `serde_json` reads from the text that it writes
/// for the string the string itself.
pub open spec fn reads_back(s: Seq<char>) -> bool {
    json_parse_string(json_string(s)) == Some(s)
}

/// The text of a string, wherever it stands, is read as one literal, from
/// its first quote to its last.
proof fn lemma_literal_of_string(s: Seq<u8>, at: int, text: Seq<char>)
    requires
        0 <= at,
        at + json_string(text).len() <= s.len(),
        s.subrange(at, at + json_string(text).len()) == json_string(text),
    ensures
        parse_literal(s, at) == literal_read(
            json_parse_string(json_string(text)),
            at + json_string(text).len(),
        ),
{
    let lit = json_string(text);
    let body = escaped(encode_utf8(text));
    assert(lit.len() == body.len() + 2);
    assert forall|k: int| 0 <= k < lit.len() implies s[at + k] == lit[k] by {
        assert(s.subrange(at, at + lit.len())[k] == s[at + k]);
    }
    assert(s[at] == lit[0]);
    assert(s.subrange(at + 1, at + 1 + body.len()) =~= body) by {
        assert forall|k: int| 0 <= k < body.len() implies s.subrange(at + 1, at + 1 + body.len())[k]
            == body[k] by {
            assert(s[at + 1 + k] == lit[1 + k]);
        }
    }
    lemma_scan_escaped(s, at + 1, encode_utf8(text));
    assert(s[at + 1 + body.len()] == lit[1 + body.len() as int]);
    assert(body_end(s, at + 1 + body.len()) == Scanned::End(at + lit.len()));
}

/// Whether a mutation has a record: `serde_json` reads its key, and for a
/// `Put` its value, back from the text that it writes for them.
pub open spec fn encodable(c: CommandView) -> bool {
    match c {
        CommandView::Put { key, value } => reads_back(key) && reads_back(value),
        CommandView::Rm { key } => reads_back(key),
    }
}

/// Where the parts of five sequences stand that are joined into one.
#[verifier::rlimit(80)]
#[verifier::spinoff_prover]
proof fn lemma_joined(h: Seq<u8>, k: Seq<u8>, m: Seq<u8>, v: Seq<u8>, t: Seq<u8>)
    ensures
        ({
            let s = h + k + m + v + t;
            let a = h.len() as int;
            let b = a + k.len();
            let c = b + m.len();
            let d = c + v.len();
            &&& s.len() == d + t.len()
            &&& s.subrange(0, a) == h
            &&& s.subrange(a, b) == k
            &&& s.subrange(b, c) == m
            &&& s.subrange(c, d) == v
            &&& s.subrange(d, d + t.len()) == t
        }),
{
    let s = h + k + m + v + t;
    let a = h.len() as int;
    let b = a + k.len();
    let c = b + m.len();
    let d = c + v.len();
    assert(s.subrange(0, a) =~= h);
    assert(s.subrange(a, b) =~= k);
    assert(s.subrange(b, c) =~= m);
    assert(s.subrange(c, d) =~= v);
    assert(s.subrange(d, d + t.len()) =~= t);
}

/// Where the parts of a `Put` record stand.
#[verifier::rlimit(80)]
#[verifier::spinoff_prover]
proof fn lemma_put_layout(k: Seq<u8>, v: Seq<u8>)
    ensures
        ({
            let s = set_frame(k, v);
            let m = k.len() as int;
            let n = v.len() as int;
            &&& s.len() == 25 + m + n
            &&& match_at(s, 0, set_head()) is Whole
            &&& s.subrange(14, 14 + m) == k
            &&& match_at(s, 14 + m, value_mark()) is Whole
            &&& s.subrange(23 + m, 23 + m + n) == v
            &&& match_at(s, 23 + m + n, tail()) is Whole
        }),
{
    assert(set_head().len() == 14);
    assert(value_mark().len() == 9);
    assert(tail().len() == 2);
    lemma_joined(set_head(), k, value_mark(), v, tail());
}

/// Bytes that begin as an `Rm` record do not begin as a `Put` record.
proof fn lemma_heads_differ(s: Seq<u8>)
    requires
        match_at(s, 0, rm_head()) is Whole,
    ensures
        !(match_at(s, 0, set_head()) is Whole),
{
    assert(s.subrange(0, 13)[2] == rm_head()[2]);
    assert(rm_head()[2] == 0x52u8);
    assert(set_head()[2] == 0x53u8);
    if s.len() >= 14 {
        assert(s.subrange(0, 14)[2] == s[2]);
    }
}

/// Where the parts of an `Rm` record stand.
#[verifier::rlimit(80)]
#[verifier::spinoff_prover]
proof fn lemma_rm_layout(k: Seq<u8>)
    ensures
        ({
            let s = rm_frame(k);
            let m = k.len() as int;
            &&& s.len() == 15 + m
            &&& !(match_at(s, 0, set_head()) is Whole)
            &&& match_at(s, 0, rm_head()) is Whole
            &&& s.subrange(13, 13 + m) == k
            &&& match_at(s, 13 + m, tail()) is Whole
        }),
{
    assert(rm_head().len() == 13);
    assert(tail().len() == 2);
    let none = Seq::<u8>::empty();
    lemma_joined(rm_head(), k, none, none, tail());
    assert(rm_head() + k + none + none + tail() =~= rm_frame(k));
    lemma_heads_differ(rm_frame(k));
}

/// What `text` is read as, where it stands as a literal that ends at
/// `end`.
pub open spec fn literal_read(text: Option<Seq<char>>, end: int) -> Literal {
    match text {
        Some(back) => Literal::Text(back, end),
        None => Literal::Corrupt,
    }
}

/// Bytes whose parts stand as those of a `Put` record read as the `Put`
/// of what the two literals read as.
proof fn lemma_parse_put_parts(
    s: Seq<u8>,
    key_end: int,
    value_end: int,
    key: Option<Seq<char>>,
    value: Option<Seq<char>>,
)
    requires
        0 <= value_end,
        match_at(s, 0, set_head()) is Whole,
        parse_literal(s, 14) == literal_read(key, key_end),
        match_at(s, key_end, value_mark()) is Whole,
        parse_literal(s, key_end + 9) == literal_read(value, value_end),
        match_at(s, value_end, tail()) is Whole,
    ensures
        parse_record(s) == if key is Some && value is Some {
            Parsed::Record(
                CommandView::Put { key: key->Some_0, value: value->Some_0 },
                (value_end + 2) as nat,
            )
        } else {
            Parsed::Corrupt
        },
{
    assert(set_head().len() == 14);
    assert(value_mark().len() == 9);
    assert(tail().len() == 2);
}

/// A `Put` frame around two literals reads as the `Put` of what the
/// literals read as, and as no record where one of them reads as nothing.
#[verifier::rlimit(80)]
#[verifier::spinoff_prover]
proof fn lemma_parse_put_frame(
    k: Seq<u8>,
    v: Seq<u8>,
    key: Option<Seq<char>>,
    value: Option<Seq<char>>,
)
    requires
        parse_literal(set_frame(k, v), 14) == literal_read(key, 14 + (k.len() as int)),
        parse_literal(set_frame(k, v), 23 + (k.len() as int)) == literal_read(
            value,
            23 + (k.len() as int) + (v.len() as int),
        ),
    ensures
        parse_record(set_frame(k, v)) == if key is Some && value is Some {
            Parsed::Record(
                CommandView::Put { key: key->Some_0, value: value->Some_0 },
                set_frame(k, v).len(),
            )
        } else {
            Parsed::Corrupt
        },
{
    lemma_put_layout(k, v);
    let m = k.len() as int;
    let n = v.len() as int;
    lemma_parse_put_parts(set_frame(k, v), 14 + m, 23 + m + n, key, value);
}

/// Bytes whose parts stand as those of an `Rm` record read as the `Rm`
/// of what the literal reads as.
proof fn lemma_parse_rm_parts(s: Seq<u8>, key_end: int, key: Option<Seq<char>>)
    requires
        0 <= key_end,
        !(match_at(s, 0, set_head()) is Whole),
        match_at(s, 0, rm_head()) is Whole,
        parse_literal(s, 13) == literal_read(key, key_end),
        match_at(s, key_end, tail()) is Whole,
    ensures
        parse_record(s) == if key is Some {
            Parsed::Record(CommandView::Rm { key: key->Some_0 }, (key_end + 2) as nat)
        } else {
            Parsed::Corrupt
        },
{
    assert(rm_head().len() == 13);
    assert(tail().len() == 2);
}

/// An `Rm` frame around a literal reads as the `Rm` of what the literal
/// reads as, and as no record where it reads as nothing.
#[verifier::rlimit(80)]
#[verifier::spinoff_prover]
proof fn lemma_parse_rm_frame(k: Seq<u8>, key: Option<Seq<char>>)
    requires
        parse_literal(rm_frame(k), 13) == literal_read(key, 13 + (k.len() as int)),
    ensures
        parse_record(rm_frame(k)) == if key is Some {
            Parsed::Record(CommandView::Rm { key: key->Some_0 }, rm_frame(k).len())
        } else {
            Parsed::Corrupt
        },
{
    lemma_rm_layout(k);
    lemma_parse_rm_parts(rm_frame(k), 13 + (k.len() as int), key);
}

#[verifier::rlimit(80)]
#[verifier::spinoff_prover]
proof fn lemma_encoded_put(key: Seq<char>, value: Seq<char>)
    ensures
        ({
            let c = CommandView::Put { key, value };
            &&& encoded(c) is Some <==> encodable(c)
            &&& encoded(c) is Some ==> encoded(c) == Some(record_bytes(c))
        }),
{
    let k = json_string(key);
    let v = json_string(value);
    let s = set_frame(k, v);
    lemma_put_layout(k, v);
    lemma_literal_of_string(s, 14, key);
    lemma_literal_of_string(s, 23 + k.len() as int, value);
    lemma_parse_put_frame(k, v, json_parse_string(k), json_parse_string(v));
}

#[verifier::rlimit(80)]
#[verifier::spinoff_prover]
proof fn lemma_encoded_rm(key: Seq<char>)
    ensures
        ({
            let c = CommandView::Rm { key };
            &&& encoded(c) is Some <==> encodable(c)
            &&& encoded(c) is Some ==> encoded(c) == Some(record_bytes(c))
        }),
{
    let k = json_string(key);
    let s = rm_frame(k);
    lemma_rm_layout(k);
    lemma_literal_of_string(s, 13, key);
    lemma_parse_rm_frame(k, json_parse_string(k));
}

/// A mutation has a record exactly where its strings are read back, and
/// the record is then the frame around their texts.
pub proof fn lemma_encoded(c: CommandView)
    ensures
        encoded(c) is Some <==> encodable(c),
        encoded(c) is Some ==> encoded(c) == Some(record_bytes(c)),
{
    match c {
        CommandView::Put { key, value } => {
            lemma_encoded_put(key, value);
        },
        CommandView::Rm { key } => {
            lemma_encoded_rm(key);
        },
    }
}

} // verus!
