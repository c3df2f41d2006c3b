//! Protocol codec: pure encode/decode between the wire envelope (a JSON
//! object with fields `messageType`, `data`, `dataArray`) and the three typed
//! operations of the chat protocol (`Register`, `Users`, `Message`).
//!
//! Encoding is total and canonical: every operation value maps to exactly one
//! frame. Decoding is defensive: inputs that are not a well-formed envelope
//! yield a `Malformed` error for the envelope layer, and a `Message` frame
//! whose nested payload does not parse yields a `Malformed` error for the
//! payload layer. Decoding never panics.

use vstd::prelude::*;

verus! {

/// The layer of a frame at which decoding failed.
#[derive(Clone, Copy, Debug, PartialEq, Eq, Structural)]
pub enum Layer {
    /// The outer wire envelope: not JSON, unknown tag, or missing payload.
    Envelope,
    /// The nested chat-message payload carried inside a `message` envelope.
    Payload,
}

/// Decoding failure. Malformed input is dropped by callers, never fatal.
#[derive(Clone, Copy, Debug, PartialEq, Eq, Structural)]
pub enum DecodeError {
    Malformed(Layer),
}

/// The nested payload of a `Message` operation.
#[derive(Clone, Debug)]
pub struct ChatMessage {
    pub from: String,
    pub body: String,
}

/// A typed protocol operation, the decoded form of one wire frame.
#[derive(Clone, Debug)]
pub enum Operation {
    /// Announce the chosen display name to the server.
    Register(String),
    /// The complete current roster; replaces any previous roster wholesale.
    Users(Vec<String>),
    /// One chat message, double-encoded on the wire.
    Message(ChatMessage),
}

/// Mathematical model of an operation: every string as a sequence of chars.
#[verifier::ext_equal]
pub enum OpView {
    Register { name: Seq<char> },
    Users { names: Seq<Seq<char>> },
    Message { from: Seq<char>, body: Seq<char> },
}

impl View for ChatMessage {
    type V = OpView;

    open spec fn view(&self) -> OpView {
        OpView::Message { from: self.from@, body: self.body@ }
    }
}

impl View for Operation {
    type V = OpView;

    open spec fn view(&self) -> OpView {
        match self {
            Operation::Register(name) => OpView::Register { name: name@ },
            Operation::Users(names) => OpView::Users { names: names.deep_view() },
            Operation::Message(m) => OpView::Message { from: m.from@, body: m.body@ },
        }
    }
}

/// Whether two name lists hold the same strings in the same order.
fn vec_string_eq(a: &Vec<String>, b: &Vec<String>) -> (r: bool)
    ensures
        r == (a.deep_view() == b.deep_view()),
{
    if a.len() != b.len() {
        proof {
            assert(a.deep_view().len() != b.deep_view().len());
        }
        return false;
    }
    let n = a.len();
    let mut i: usize = 0;
    while i < n
        invariant
            i <= n,
            n == a@.len() && n == b@.len(),
            forall|k: int| 0 <= k < i ==> a.deep_view()[k] == b.deep_view()[k],
        decreases n - i,
    {
        if !a[i].eq(&b[i]) {
            proof {
                assert(a.deep_view()[i as int] != b.deep_view()[i as int]);
            }
            return false;
        }
        proof {
            assert(a.deep_view()[i as int] == b.deep_view()[i as int]);
        }
        i += 1;
    }
    proof {
        assert(a.deep_view() =~= b.deep_view());
    }
    true
}

impl PartialEq for Operation {
    /// Structural equality: same operation kind with the same payload.
    fn eq(&self, other: &Self) -> (r: bool) {
        match (self, other) {
            (Operation::Register(a), Operation::Register(b)) => a.eq(b),
            (Operation::Users(a), Operation::Users(b)) => vec_string_eq(a, b),
            (Operation::Message(a), Operation::Message(b)) => a.from.eq(&b.from) && a.body.eq(
                &b.body,
            ),
            _ => {
                proof {
                    assert(self@ != other@);
                }
                false
            },
        }
    }
}

impl vstd::std_specs::cmp::PartialEqSpecImpl for Operation {
    open spec fn obeys_eq_spec() -> bool {
        true
    }

    open spec fn eq_spec(&self, other: &Operation) -> bool {
        self@ == other@
    }
}

// ---------------------------------------------------------------------------
// Canonical encoding, at the specification level.
// ---------------------------------------------------------------------------

/// The lower-case hex digit for a value below 16.
pub open spec fn hex_digit(n: int) -> char {
    if n == 0 {
        '0'
    } else if n == 1 {
        '1'
    } else if n == 2 {
        '2'
    } else if n == 3 {
        '3'
    } else if n == 4 {
        '4'
    } else if n == 5 {
        '5'
    } else if n == 6 {
        '6'
    } else if n == 7 {
        '7'
    } else if n == 8 {
        '8'
    } else if n == 9 {
        '9'
    } else if n == 10 {
        'a'
    } else if n == 11 {
        'b'
    } else if n == 12 {
        'c'
    } else if n == 13 {
        'd'
    } else if n == 14 {
        'e'
    } else {
        'f'
    }
}

/// The value of a hex digit, or -1 for any other character.
pub open spec fn hex_val(c: char) -> int {
    if c == '0' {
        0
    } else if c == '1' {
        1
    } else if c == '2' {
        2
    } else if c == '3' {
        3
    } else if c == '4' {
        4
    } else if c == '5' {
        5
    } else if c == '6' {
        6
    } else if c == '7' {
        7
    } else if c == '8' {
        8
    } else if c == '9' {
        9
    } else if c == 'a' || c == 'A' {
        10
    } else if c == 'b' || c == 'B' {
        11
    } else if c == 'c' || c == 'C' {
        12
    } else if c == 'd' || c == 'D' {
        13
    } else if c == 'e' || c == 'E' {
        14
    } else if c == 'f' || c == 'F' {
        15
    } else {
        -1
    }
}

/// The JSON escape sequence for one character of a string value.
pub open spec fn esc_char(c: char) -> Seq<char> {
    if c == '"' {
        seq!['\\', '"']
    } else if c == '\\' {
        seq!['\\', '\\']
    } else if c == '\n' {
        seq!['\\', 'n']
    } else if c == '\r' {
        seq!['\\', 'r']
    } else if c == '\t' {
        seq!['\\', 't']
    } else if (c as u32) < 32 {
        seq![
            '\\',
            'u',
            '0',
            '0',
            hex_digit(((c as u32) / 16) as int),
            hex_digit(((c as u32) % 16) as int),
        ]
    } else {
        seq![c]
    }
}

/// The body of a JSON string value: each character escaped as needed.
pub open spec fn esc_str(s: Seq<char>) -> Seq<char>
    decreases s.len(),
{
    if s.len() == 0 {
        Seq::empty()
    } else {
        esc_char(s[0]) + esc_str(s.drop_first())
    }
}

/// A complete JSON string value: the escaped body between double quotes.
pub open spec fn quoted(s: Seq<char>) -> Seq<char> {
    seq!['"'] + esc_str(s) + seq!['"']
}

/// The JSON `null` literal.
pub open spec fn null_lit() -> Seq<char> {
    seq!['n', 'u', 'l', 'l']
}

/// The comma-separated elements of a non-empty JSON array of strings.
pub open spec fn elems_encoded(names: Seq<Seq<char>>) -> Seq<char>
    decreases names.len(),
{
    if names.len() == 0 {
        Seq::empty()
    } else if names.len() == 1 {
        quoted(names[0])
    } else {
        quoted(names[0]) + seq![','] + elems_encoded(names.drop_first())
    }
}

/// A JSON array of strings.
pub open spec fn arr_encoded(names: Seq<Seq<char>>) -> Seq<char> {
    seq!['['] + elems_encoded(names) + seq![']']
}

/// The canonical envelope: tag, `data` payload and `dataArray` payload in a
/// fixed field order, with no whitespace.
pub open spec fn env_encoded(tag: Seq<char>, data: Seq<char>, arr: Seq<char>) -> Seq<char> {
    seq!['{'] + quoted("messageType"@) + seq![':'] + quoted(tag) + seq![','] + quoted("data"@)
        + seq![':'] + data + seq![','] + quoted("dataArray"@) + seq![':'] + arr + seq!['}']
}

/// The canonical encoding of the nested chat-message payload.
pub open spec fn chat_encoded(from: Seq<char>, body: Seq<char>) -> Seq<char> {
    seq!['{'] + quoted("from"@) + seq![':'] + quoted(from) + seq![','] + quoted("message"@)
        + seq![':'] + quoted(body) + seq!['}']
}

/// The canonical frame for an operation. Total: defined for every operation.
pub open spec fn encoded(op: OpView) -> Seq<char> {
    match op {
        OpView::Register { name } => env_encoded("register"@, quoted(name), null_lit()),
        OpView::Users { names } => env_encoded("users"@, null_lit(), arr_encoded(names)),
        OpView::Message { from, body } => env_encoded(
            "message"@,
            quoted(chat_encoded(from, body)),
            null_lit(),
        ),
    }
}

// ---------------------------------------------------------------------------
// Parsing, at the specification level. Each parser consumes a prefix of the
// input and returns the parsed value together with the remaining suffix, or
// nothing if the prefix is not well-formed. Accumulator arguments make the
// definitions tail-recursive, so the executable parser can mirror them with
// plain loops.
// ---------------------------------------------------------------------------

/// The character denoted by a `\u00XY` escape.
pub open spec fn code_char(n: int) -> char {
    (n as u8) as char
}

/// Parse the body of a JSON string after the opening quote, un-escaping as it
/// goes, up to and including the closing quote.
pub open spec fn parse_str_body(s: Seq<char>, acc: Seq<char>) -> Option<(Seq<char>, Seq<char>)>
    decreases s.len(),
{
    if s.len() == 0 {
        None
    } else if s[0] == '"' {
        Some((acc, s.drop_first()))
    } else if s[0] == '\\' {
        if s.len() < 2 {
            None
        } else {
            let e = s[1];
            if e == '"' || e == '\\' || e == '/' {
                parse_str_body(s.skip(2), acc.push(e))
            } else if e == 'n' {
                parse_str_body(s.skip(2), acc.push('\n'))
            } else if e == 'r' {
                parse_str_body(s.skip(2), acc.push('\r'))
            } else if e == 't' {
                parse_str_body(s.skip(2), acc.push('\t'))
            } else if e == 'u' {
                if s.len() < 6 {
                    None
                } else if s[2] == '0' && s[3] == '0' && hex_val(s[4]) >= 0 && hex_val(s[5]) >= 0 {
                    parse_str_body(s.skip(6), acc.push(code_char(hex_val(s[4]) * 16 + hex_val(s[5]))))
                } else {
                    None
                }
            } else {
                None
            }
        }
    } else if (s[0] as u32) < 32 {
        None
    } else {
        parse_str_body(s.drop_first(), acc.push(s[0]))
    }
}

/// Parse a complete JSON string value.
pub open spec fn parse_string(s: Seq<char>) -> Option<(Seq<char>, Seq<char>)> {
    if s.len() > 0 && s[0] == '"' {
        parse_str_body(s.drop_first(), Seq::empty())
    } else {
        None
    }
}

/// Parse the JSON `null` literal.
pub open spec fn parse_null(s: Seq<char>) -> Option<Seq<char>> {
    if s.len() >= 4 && s[0] == 'n' && s[1] == 'u' && s[2] == 'l' && s[3] == 'l' {
        Some(s.skip(4))
    } else {
        None
    }
}

/// A successful string parse consumes at least one character.
proof fn lemma_str_body_shrinks(s: Seq<char>, acc: Seq<char>)
    ensures
        parse_str_body(s, acc) matches Some(p) ==> p.1.len() < s.len(),
    decreases s.len(),
{
    if s.len() == 0 {
    } else if s[0] == '"' {
    } else if s[0] == '\\' {
        if s.len() >= 2 {
            let e = s[1];
            if e == '"' || e == '\\' || e == '/' {
                lemma_str_body_shrinks(s.skip(2), acc.push(e));
            } else if e == 'n' {
                lemma_str_body_shrinks(s.skip(2), acc.push('\n'));
            } else if e == 'r' {
                lemma_str_body_shrinks(s.skip(2), acc.push('\r'));
            } else if e == 't' {
                lemma_str_body_shrinks(s.skip(2), acc.push('\t'));
            } else if e == 'u' && s.len() >= 6 {
                lemma_str_body_shrinks(
                    s.skip(6),
                    acc.push(code_char(hex_val(s[4]) * 16 + hex_val(s[5]))),
                );
            }
        }
    } else {
        lemma_str_body_shrinks(s.drop_first(), acc.push(s[0]));
    }
}

/// A successful string parse consumes at least two characters.
proof fn lemma_string_shrinks(s: Seq<char>)
    ensures
        parse_string(s) matches Some(p) ==> p.1.len() < s.len(),
{
    if s.len() > 0 && s[0] == '"' {
        lemma_str_body_shrinks(s.drop_first(), Seq::empty());
    }
}

/// Parse the elements of a non-empty JSON array of strings, after the
/// opening bracket, up to and including the closing bracket.
pub open spec fn parse_elems(s: Seq<char>, acc: Seq<Seq<char>>) -> Option<
    (Seq<Seq<char>>, Seq<char>),
>
    decreases s.len(),
    via parse_elems_decreases
{
    match parse_string(s) {
        None => None,
        Some((t, r)) => {
            if r.len() == 0 {
                None
            } else if r[0] == ',' {
                parse_elems(r.skip(1), acc.push(t))
            } else if r[0] == ']' {
                Some((acc.push(t), r.skip(1)))
            } else {
                None
            }
        },
    }
}

#[via_fn]
proof fn parse_elems_decreases(s: Seq<char>, acc: Seq<Seq<char>>) {
    lemma_string_shrinks(s);
}

/// Parse a JSON array of strings.
pub open spec fn parse_array(s: Seq<char>) -> Option<(Seq<Seq<char>>, Seq<char>)> {
    if s.len() >= 1 && s[0] == '[' {
        if s.len() >= 2 && s[1] == ']' {
            Some((Seq::empty(), s.skip(2)))
        } else {
            parse_elems(s.skip(1), Seq::empty())
        }
    } else {
        None
    }
}

/// A successful array-element parse consumes at least one character.
proof fn lemma_elems_shrinks(s: Seq<char>, acc: Seq<Seq<char>>)
    ensures
        parse_elems(s, acc) matches Some(p) ==> p.1.len() < s.len(),
    decreases s.len(),
{
    lemma_string_shrinks(s);
    match parse_string(s) {
        None => {},
        Some((t, r)) => {
            if r.len() > 0 && r[0] == ',' {
                lemma_elems_shrinks(r.skip(1), acc.push(t));
            }
        },
    }
}

/// A successful array parse consumes at least one character.
proof fn lemma_array_shrinks(s: Seq<char>)
    ensures
        parse_array(s) matches Some(p) ==> p.1.len() < s.len(),
{
    if s.len() >= 1 && s[0] == '[' {
        if !(s.len() >= 2 && s[1] == ']') {
            lemma_elems_shrinks(s.skip(1), Seq::empty());
        }
    }
}

/// The payload fields of one wire envelope, as parsed so far. A field set to
/// `null` on the wire counts as absent.
#[verifier::ext_equal]
pub struct EnvFields {
    pub tag: Option<Seq<char>>,
    pub data: Option<Seq<char>>,
    pub arr: Option<Seq<Seq<char>>>,
}

/// Parse the value of one envelope member, keyed by the member name. A
/// member with an unknown key makes the envelope malformed.
pub open spec fn parse_member_value(key: Seq<char>, s: Seq<char>, f: EnvFields) -> Option<
    (EnvFields, Seq<char>),
> {
    if key == "messageType"@ {
        match parse_string(s) {
            None => None,
            Some((t, r)) => Some((EnvFields { tag: Some(t), ..f }, r)),
        }
    } else if key == "data"@ {
        match parse_null(s) {
            Some(r) => Some((EnvFields { data: None, ..f }, r)),
            None => match parse_string(s) {
                None => None,
                Some((t, r)) => Some((EnvFields { data: Some(t), ..f }, r)),
            },
        }
    } else if key == "dataArray"@ {
        match parse_null(s) {
            Some(r) => Some((EnvFields { arr: None, ..f }, r)),
            None => match parse_array(s) {
                None => None,
                Some((ts, r)) => Some((EnvFields { arr: Some(ts), ..f }, r)),
            },
        }
    } else {
        None
    }
}

/// A successful member-value parse consumes at least one character.
proof fn lemma_member_value_shrinks(key: Seq<char>, s: Seq<char>, f: EnvFields)
    ensures
        parse_member_value(key, s, f) matches Some(p) ==> p.1.len() < s.len(),
{
    lemma_string_shrinks(s);
    lemma_array_shrinks(s);
}

/// Parse the members of a non-empty envelope object, after the opening
/// brace, up to and including the closing brace. A repeated member
/// overwrites the earlier one.
pub open spec fn parse_members(s: Seq<char>, f: EnvFields) -> Option<(EnvFields, Seq<char>)>
    decreases s.len(),
    via parse_members_decreases
{
    match parse_string(s) {
        None => None,
        Some((key, r1)) => {
            if r1.len() == 0 || r1[0] != ':' {
                None
            } else {
                match parse_member_value(key, r1.skip(1), f) {
                    None => None,
                    Some((f2, r2)) => {
                        if r2.len() == 0 {
                            None
                        } else if r2[0] == ',' {
                            parse_members(r2.skip(1), f2)
                        } else if r2[0] == '}' {
                            Some((f2, r2.skip(1)))
                        } else {
                            None
                        }
                    },
                }
            }
        },
    }
}

#[via_fn]
proof fn parse_members_decreases(s: Seq<char>, f: EnvFields) {
    lemma_string_shrinks(s);
    match parse_string(s) {
        None => {},
        Some((key, r1)) => {
            if r1.len() > 0 && r1[0] == ':' {
                lemma_member_value_shrinks(key, r1.skip(1), f);
            }
        },
    }
}

/// Parse a complete envelope object.
pub open spec fn parse_envelope(s: Seq<char>) -> Option<(EnvFields, Seq<char>)> {
    let f0 = EnvFields { tag: None, data: None, arr: None };
    if s.len() >= 1 && s[0] == '{' {
        if s.len() >= 2 && s[1] == '}' {
            Some((f0, s.skip(2)))
        } else {
            parse_members(s.skip(1), f0)
        }
    } else {
        None
    }
}

/// The fields of the nested chat-message payload, as parsed so far.
#[verifier::ext_equal]
pub struct ChatFields {
    pub from: Option<Seq<char>>,
    pub msg: Option<Seq<char>>,
}

/// Parse the value of one member of the nested payload object.
pub open spec fn parse_chat_member_value(key: Seq<char>, s: Seq<char>, f: ChatFields) -> Option<
    (ChatFields, Seq<char>),
> {
    if key == "from"@ {
        match parse_string(s) {
            None => None,
            Some((t, r)) => Some((ChatFields { from: Some(t), ..f }, r)),
        }
    } else if key == "message"@ {
        match parse_string(s) {
            None => None,
            Some((t, r)) => Some((ChatFields { msg: Some(t), ..f }, r)),
        }
    } else {
        None
    }
}

/// Parse the members of a non-empty payload object, after the opening brace.
pub open spec fn parse_chat_members(s: Seq<char>, f: ChatFields) -> Option<(ChatFields, Seq<char>)>
    decreases s.len(),
    via parse_chat_members_decreases
{
    match parse_string(s) {
        None => None,
        Some((key, r1)) => {
            if r1.len() == 0 || r1[0] != ':' {
                None
            } else {
                match parse_chat_member_value(key, r1.skip(1), f) {
                    None => None,
                    Some((f2, r2)) => {
                        if r2.len() == 0 {
                            None
                        } else if r2[0] == ',' {
                            parse_chat_members(r2.skip(1), f2)
                        } else if r2[0] == '}' {
                            Some((f2, r2.skip(1)))
                        } else {
                            None
                        }
                    },
                }
            }
        },
    }
}

#[via_fn]
proof fn parse_chat_members_decreases(s: Seq<char>, f: ChatFields) {
    lemma_string_shrinks(s);
    match parse_string(s) {
        None => {},
        Some((key, r1)) => {
            if r1.len() > 0 && r1[0] == ':' {
                lemma_string_shrinks(r1.skip(1));
            }
        },
    }
}

/// Parse a complete payload object.
pub open spec fn parse_chat(s: Seq<char>) -> Option<(ChatFields, Seq<char>)> {
    let f0 = ChatFields { from: None, msg: None };
    if s.len() >= 1 && s[0] == '{' {
        if s.len() >= 2 && s[1] == '}' {
            Some((f0, s.skip(2)))
        } else {
            parse_chat_members(s.skip(1), f0)
        }
    } else {
        None
    }
}

/// Decode the nested chat-message payload: both fields are required.
pub open spec fn decode_chat(s: Seq<char>) -> Option<(Seq<char>, Seq<char>)> {
    match parse_chat(s) {
        None => None,
        Some((f, rem)) => {
            if rem.len() != 0 {
                None
            } else {
                match (f.from, f.msg) {
                    (Some(a), Some(b)) => Some((a, b)),
                    _ => None,
                }
            }
        },
    }
}

/// What decoding a frame yields: the decoded operation, or the layer at
/// which the frame is malformed.
pub open spec fn decoded(s: Seq<char>) -> Result<OpView, DecodeError> {
    match parse_envelope(s) {
        None => Err(DecodeError::Malformed(Layer::Envelope)),
        Some((f, rem)) => {
            if rem.len() != 0 {
                Err(DecodeError::Malformed(Layer::Envelope))
            } else {
                match f.tag {
                    None => Err(DecodeError::Malformed(Layer::Envelope)),
                    Some(t) => {
                        if t == "register"@ {
                            match f.data {
                                Some(name) => Ok(OpView::Register { name }),
                                None => Err(DecodeError::Malformed(Layer::Envelope)),
                            }
                        } else if t == "users"@ {
                            match f.arr {
                                Some(names) => Ok(OpView::Users { names }),
                                None => Err(DecodeError::Malformed(Layer::Envelope)),
                            }
                        } else if t == "message"@ {
                            match f.data {
                                Some(payload) => match decode_chat(payload) {
                                    Some((from, body)) => Ok(OpView::Message { from, body }),
                                    None => Err(DecodeError::Malformed(Layer::Payload)),
                                },
                                None => Err(DecodeError::Malformed(Layer::Envelope)),
                            }
                        } else {
                            Err(DecodeError::Malformed(Layer::Envelope))
                        }
                    },
                }
            }
        },
    }
}

// ---------------------------------------------------------------------------
// Executable encoder.
// ---------------------------------------------------------------------------

/// Relies on String::push: appends exactly the given character.
#[verifier::external_body]
fn push_char(s: &mut String, c: char)
    ensures
        final(s)@ == old(s)@.push(c),
{
    s.push(c)
}

/// Escaping distributes over concatenation.
proof fn lemma_esc_str_concat(a: Seq<char>, b: Seq<char>)
    ensures
        esc_str(a + b) == esc_str(a) + esc_str(b),
    decreases a.len(),
{
    if a.len() == 0 {
        assert(a + b =~= b);
        assert(esc_str(a) + esc_str(b) =~= esc_str(b));
    } else {
        lemma_esc_str_concat(a.drop_first(), b);
        assert((a + b).drop_first() =~= a.drop_first() + b);
        assert(esc_str(a + b) =~= esc_str(a) + esc_str(b));
    }
}

fn hex_digit_char(n: u32) -> (c: char)
    requires
        n < 16,
    ensures
        c == hex_digit(n as int),
{
    if n == 0 {
        '0'
    } else if n == 1 {
        '1'
    } else if n == 2 {
        '2'
    } else if n == 3 {
        '3'
    } else if n == 4 {
        '4'
    } else if n == 5 {
        '5'
    } else if n == 6 {
        '6'
    } else if n == 7 {
        '7'
    } else if n == 8 {
        '8'
    } else if n == 9 {
        '9'
    } else if n == 10 {
        'a'
    } else if n == 11 {
        'b'
    } else if n == 12 {
        'c'
    } else if n == 13 {
        'd'
    } else if n == 14 {
        'e'
    } else {
        'f'
    }
}

/// Append the escaped body of a JSON string value.
fn push_escaped(out: &mut String, s: &str)
    ensures
        final(out)@ == old(out)@ + esc_str(s@),
{
    let n = s.unicode_len();
    let mut i: usize = 0;
    while i < n
        invariant
            i <= n,
            n == s@.len(),
            out@ == old(out)@ + esc_str(s@.take(i as int)),
        decreases n - i,
    {
        let c = s.get_char(i);
        if c == '"' {
            push_char(out, '\\');
            push_char(out, '"');
        } else if c == '\\' {
            push_char(out, '\\');
            push_char(out, '\\');
        } else if c == '\n' {
            push_char(out, '\\');
            push_char(out, 'n');
        } else if c == '\r' {
            push_char(out, '\\');
            push_char(out, 'r');
        } else if c == '\t' {
            push_char(out, '\\');
            push_char(out, 't');
        } else if (c as u32) < 32 {
            push_char(out, '\\');
            push_char(out, 'u');
            push_char(out, '0');
            push_char(out, '0');
            push_char(out, hex_digit_char((c as u32) / 16));
            push_char(out, hex_digit_char((c as u32) % 16));
        } else {
            push_char(out, c);
        }
        proof {
            lemma_esc_str_concat(s@.take(i as int), seq![s@[i as int]]);
            assert(s@.take(i + 1 as int) =~= s@.take(i as int) + seq![s@[i as int]]);
            reveal_with_fuel(esc_str, 2);
            assert(seq![s@[i as int]].drop_first() =~= Seq::<char>::empty());
            assert(esc_str(seq![s@[i as int]]) =~= esc_char(s@[i as int]));
            assert(out@ =~= old(out)@ + esc_str(s@.take(i + 1 as int)));
        }
        i += 1;
    }
    proof {
        assert(s@.take(n as int) =~= s@);
    }
}

/// Append a complete JSON string value.
fn push_quoted(out: &mut String, s: &str)
    ensures
        final(out)@ == old(out)@ + quoted(s@),
{
    push_char(out, '"');
    push_escaped(out, s);
    push_char(out, '"');
    proof {
        assert(out@ =~= old(out)@ + quoted(s@));
    }
}

/// Append the JSON `null` literal.
fn push_null(out: &mut String)
    ensures
        final(out)@ == old(out)@ + null_lit(),
{
    push_char(out, 'n');
    push_char(out, 'u');
    push_char(out, 'l');
    push_char(out, 'l');
    proof {
        assert(out@ =~= old(out)@ + null_lit());
    }
}

/// One step of the array-element encoding, appending on the right.
proof fn lemma_elems_encoded_snoc(names: Seq<Seq<char>>, t: Seq<char>)
    requires
        names.len() > 0,
    ensures
        elems_encoded(names.push(t)) == elems_encoded(names) + seq![','] + quoted(t),
    decreases names.len(),
{
    if names.len() == 1 {
        assert(names.push(t).drop_first() =~= seq![t]);
        assert(names.push(t)[0] == names[0]);
        assert(seq![t].len() == 1 && seq![t][0] == t);
        assert(elems_encoded(seq![t]) == quoted(t));
        assert(elems_encoded(names.push(t)) =~= elems_encoded(names) + seq![','] + quoted(t));
    } else {
        lemma_elems_encoded_snoc(names.drop_first(), t);
        assert(names.push(t).drop_first() =~= names.drop_first().push(t));
        assert(elems_encoded(names.push(t)) =~= elems_encoded(names) + seq![','] + quoted(t));
    }
}

/// Append a JSON array holding each name as a string.
fn push_array(out: &mut String, names: &Vec<String>)
    ensures
        final(out)@ == old(out)@ + arr_encoded(names.deep_view()),
{
    push_char(out, '[');
    let n = names.len();
    let mut i: usize = 0;
    while i < n
        invariant
            i <= n,
            n == names.len(),
            out@ == old(out)@ + seq!['['] + elems_encoded(names.deep_view().take(i as int)),
        decreases n - i,
    {
        if i > 0 {
            push_char(out, ',');
        }
        push_quoted(out, names[i].as_str());
        proof {
            let dv = names.deep_view();
            assert(dv[i as int] == names[i as int]@);
            assert(dv.take(i + 1 as int) =~= dv.take(i as int).push(dv[i as int]));
            if i > 0 {
                lemma_elems_encoded_snoc(dv.take(i as int), dv[i as int]);
            }
            assert(out@ =~= old(out)@ + seq!['['] + elems_encoded(dv.take(i + 1 as int)));
        }
        i += 1;
    }
    push_char(out, ']');
    proof {
        assert(names.deep_view().take(n as int) =~= names.deep_view());
        assert(out@ =~= old(out)@ + arr_encoded(names.deep_view()));
    }
}

/// Append the fixed prefix of every envelope, up to and including the colon
/// after the quoted tag name.
fn push_env_prefix(out: &mut String, tag: &str)
    ensures
        final(out)@ == old(out)@ + seq!['{'] + quoted("messageType"@) + seq![':'] + quoted(tag@)
            + seq![','] + quoted("data"@) + seq![':'],
{
    push_char(out, '{');
    push_quoted(out, "messageType");
    push_char(out, ':');
    push_quoted(out, tag);
    push_char(out, ',');
    push_quoted(out, "data");
    push_char(out, ':');
    proof {
        assert(out@ =~= old(out)@ + seq!['{'] + quoted("messageType"@) + seq![':'] + quoted(tag@)
            + seq![','] + quoted("data"@) + seq![':']);
    }
}

/// Append the `dataArray` key between the two payload fields.
fn push_arr_key(out: &mut String)
    ensures
        final(out)@ == old(out)@ + seq![','] + quoted("dataArray"@) + seq![':'],
{
    push_char(out, ',');
    push_quoted(out, "dataArray");
    push_char(out, ':');
    proof {
        assert(out@ =~= old(out)@ + seq![','] + quoted("dataArray"@) + seq![':']);
    }
}

/// Encode the nested chat-message payload as its own JSON document.
fn encode_chat(from: &str, body: &str) -> (r: String)
    ensures
        r@ == chat_encoded(from@, body@),
{
    let mut out = String::new();
    push_char(&mut out, '{');
    push_quoted(&mut out, "from");
    push_char(&mut out, ':');
    push_quoted(&mut out, from);
    push_char(&mut out, ',');
    push_quoted(&mut out, "message");
    push_char(&mut out, ':');
    push_quoted(&mut out, body);
    push_char(&mut out, '}');
    proof {
        assert(out@ =~= chat_encoded(from@, body@));
    }
    out
}

// ---------------------------------------------------------------------------
// Round trip: parsing inverts the canonical encoding.
// ---------------------------------------------------------------------------

/// Reading back a hex digit yields the value it was written from.
proof fn lemma_hex_round(n: int)
    requires
        0 <= n < 16,
    ensures
        hex_val(hex_digit(n)) == n,
{
}

/// Parsing a string body inverts escaping, whatever follows the closing
/// quote and whatever was already accumulated.
proof fn lemma_parse_esc(t: Seq<char>, rest: Seq<char>, acc: Seq<char>)
    ensures
        parse_str_body(esc_str(t) + seq!['"'] + rest, acc) == Some((acc + t, rest)),
    decreases t.len(),
{
    broadcast use vstd::utf8::char_u32_cast;

    if t.len() == 0 {
        let s = esc_str(t) + seq!['"'] + rest;
        assert(s =~= seq!['"'] + rest);
        assert(s[0] == '"');
        assert(s.drop_first() =~= rest);
        assert(acc + t =~= acc);
    } else {
        let c = t[0];
        let s = esc_str(t) + seq!['"'] + rest;
        let tail = esc_str(t.drop_first()) + seq!['"'] + rest;
        assert(s =~= esc_char(c) + tail);
        lemma_parse_esc(t.drop_first(), rest, acc.push(c));
        assert(acc.push(c) + t.drop_first() =~= acc + t);
        if c == '"' {
            assert(s[0] == '\\' && s[1] == '"');
            assert(s.skip(2) =~= tail);
        } else if c == '\\' {
            assert(s[0] == '\\' && s[1] == '\\');
            assert(s.skip(2) =~= tail);
        } else if c == '\n' {
            assert(s[0] == '\\' && s[1] == 'n');
            assert(s.skip(2) =~= tail);
        } else if c == '\r' {
            assert(s[0] == '\\' && s[1] == 'r');
            assert(s.skip(2) =~= tail);
        } else if c == '\t' {
            assert(s[0] == '\\' && s[1] == 't');
            assert(s.skip(2) =~= tail);
        } else if (c as u32) < 32 {
            let hi = ((c as u32) / 16) as int;
            let lo = ((c as u32) % 16) as int;
            assert(s[0] == '\\' && s[1] == 'u' && s[2] == '0' && s[3] == '0');
            assert(s[4] == hex_digit(hi) && s[5] == hex_digit(lo));
            lemma_hex_round(hi);
            lemma_hex_round(lo);
            assert(hex_val(s[4]) * 16 + hex_val(s[5]) == c as u32);
            let u: u32 = c as u32;
            let b: u8 = u as u8;
            assert(b as u32 == u);
            vstd::utf8::char_u32_cast(c, b as u32);
            assert((b as u32) as char == c);
            assert(b as char == (b as u32) as char);
            assert(code_char(u as int) == b as char);
            assert(code_char(hex_val(s[4]) * 16 + hex_val(s[5])) == c);
            assert(s.skip(6) =~= tail);
        } else {
            assert(s[0] == c);
            assert(s.drop_first() =~= tail);
        }
    }
}

/// Parsing a complete string value inverts quoting.
proof fn lemma_parse_quoted(t: Seq<char>, rest: Seq<char>)
    ensures
        parse_string(quoted(t) + rest) == Some((t, rest)),
{
    let s = quoted(t) + rest;
    assert(s[0] == '"');
    assert(s.drop_first() =~= esc_str(t) + seq!['"'] + rest);
    lemma_parse_esc(t, rest, Seq::empty());
    assert(Seq::empty() + t =~= t);
}

/// Parsing the `null` literal consumes exactly its four characters.
proof fn lemma_parse_null(rest: Seq<char>)
    ensures
        parse_null(null_lit() + rest) == Some(rest),
{
    let s = null_lit() + rest;
    assert(s.len() >= 4);
    assert(s[0] == 'n' && s[1] == 'u' && s[2] == 'l' && s[3] == 'l');
    assert(s.skip(4) =~= rest);
}

/// Parsing array elements inverts their encoding.
proof fn lemma_parse_elems_enc(names: Seq<Seq<char>>, rest: Seq<char>, acc: Seq<Seq<char>>)
    requires
        names.len() > 0,
    ensures
        parse_elems(elems_encoded(names) + seq![']'] + rest, acc) == Some((acc + names, rest)),
    decreases names.len(),
{
    let s = elems_encoded(names) + seq![']'] + rest;
    if names.len() == 1 {
        let r = seq![']'] + rest;
        assert(s =~= quoted(names[0]) + r);
        lemma_parse_quoted(names[0], r);
        assert(r[0] == ']');
        assert(r.skip(1) =~= rest);
        assert(acc.push(names[0]) =~= acc + names);
    } else {
        let r = seq![','] + (elems_encoded(names.drop_first()) + seq![']'] + rest);
        assert(s =~= quoted(names[0]) + r);
        lemma_parse_quoted(names[0], r);
        assert(r[0] == ',');
        assert(r.skip(1) =~= elems_encoded(names.drop_first()) + seq![']'] + rest);
        lemma_parse_elems_enc(names.drop_first(), rest, acc.push(names[0]));
        assert(acc.push(names[0]) + names.drop_first() =~= acc + names);
    }
}

/// Parsing an array inverts its encoding.
proof fn lemma_parse_array_enc(names: Seq<Seq<char>>, rest: Seq<char>)
    ensures
        parse_array(arr_encoded(names) + rest) == Some((names, rest)),
{
    let s = arr_encoded(names) + rest;
    assert(s[0] == '[');
    if names.len() == 0 {
        assert(s[1] == ']');
        assert(s.skip(2) =~= rest);
        assert(Seq::<Seq<char>>::empty() =~= names);
    } else {
        assert(quoted(names[0]).len() >= 2);
        assert(elems_encoded(names)[0] == quoted(names[0])[0]);
        assert(s[1] == '"');
        assert(s.skip(1) =~= elems_encoded(names) + seq![']'] + rest);
        lemma_parse_elems_enc(names, rest, Seq::empty());
        assert(Seq::<Seq<char>>::empty() + names =~= names);
    }
}

/// The fixed member names and operation tags are pairwise distinct.
proof fn lemma_lit_facts()
    ensures
        "messageType"@ != "data"@,
        "messageType"@ != "dataArray"@,
        "data"@ != "dataArray"@,
        "register"@ != "users"@,
        "register"@ != "message"@,
        "users"@ != "message"@,
        "from"@ != "message"@,
{
    reveal_strlit("messageType");
    reveal_strlit("data");
    reveal_strlit("dataArray");
    reveal_strlit("register");
    reveal_strlit("users");
    reveal_strlit("message");
    reveal_strlit("from");
    assert("messageType"@.len() == 11);
    assert("data"@.len() == 4);
    assert("dataArray"@.len() == 9);
    assert("register"@.len() == 8);
    assert("users"@.len() == 5);
    assert("message"@.len() == 7);
    assert("from"@.len() == 4);
    assert("data"@[0] == 'd' && "from"@[0] == 'f');
}

/// Decoding inverts encoding for the nested payload document.
proof fn lemma_decode_chat_enc(from: Seq<char>, body: Seq<char>)
    ensures
        decode_chat(chat_encoded(from, body)) == Some((from, body)),
{
    lemma_lit_facts();
    let s = chat_encoded(from, body);
    let f0 = ChatFields { from: None, msg: None };
    let f1 = ChatFields { from: Some(from), msg: None };
    let f2 = ChatFields { from: Some(from), msg: Some(body) };
    let s4: Seq<char> = seq!['}'];
    let sv2: Seq<char> = quoted(body) + s4;
    let s3: Seq<char> = seq![':'] + sv2;
    let m2: Seq<char> = quoted("message"@) + s3;
    let s2: Seq<char> = seq![','] + m2;
    let sv1: Seq<char> = quoted(from) + s2;
    let s1: Seq<char> = seq![':'] + sv1;
    let m1: Seq<char> = quoted("from"@) + s1;
    assert(s =~= seq!['{'] + m1);
    lemma_parse_quoted("from"@, s1);
    assert(s1[0] == ':');
    assert(s1.skip(1) =~= sv1);
    lemma_parse_quoted(from, s2);
    assert(parse_chat_member_value("from"@, sv1, f0) == Some((f1, s2)));
    assert(s2[0] == ',');
    assert(s2.skip(1) =~= m2);
    assert(parse_chat_members(m1, f0) == parse_chat_members(m2, f1));
    lemma_parse_quoted("message"@, s3);
    assert(s3[0] == ':');
    assert(s3.skip(1) =~= sv2);
    lemma_parse_quoted(body, s4);
    assert(parse_chat_member_value("message"@, sv2, f1) == Some((f2, s4)));
    assert(s4[0] == '}');
    assert(s4.skip(1) =~= Seq::<char>::empty());
    assert(parse_chat_members(m2, f1) == Some((f2, Seq::<char>::empty())));
    assert(s[0] == '{');
    assert(quoted("from"@)[0] == '"');
    assert(s[1] == '"');
    assert(s.skip(1) =~= m1);
    assert(parse_chat(s) == Some((f2, Seq::<char>::empty())));
}

/// Decoding inverts encoding for one envelope whose three members parse as
/// given. The data and array member texts and their parsed values are
/// supplied by the per-variant lemmas.
#[verifier::rlimit(60)]
proof fn lemma_decode_env_members(
    tag: Seq<char>,
    dtext: Seq<char>,
    atext: Seq<char>,
    dval: Option<Seq<char>>,
    aval: Option<Seq<Seq<char>>>,
)
    requires
        forall|rest: Seq<char>|
            #[trigger] parse_member_value("data"@, dtext + rest, EnvFields { tag: Some(tag), data: None, arr: None })
                == Some::<(EnvFields, Seq<char>)>(
                (EnvFields { tag: Some(tag), data: dval, arr: None }, rest),
            ),
        forall|rest: Seq<char>|
            #[trigger] parse_member_value("dataArray"@, atext + rest, EnvFields { tag: Some(tag), data: dval, arr: None })
                == Some::<(EnvFields, Seq<char>)>(
                (EnvFields { tag: Some(tag), data: dval, arr: aval }, rest),
            ),
    ensures
        parse_envelope(env_encoded(tag, dtext, atext)) == Some::<(EnvFields, Seq<char>)>(
            (EnvFields { tag: Some(tag), data: dval, arr: aval }, Seq::<char>::empty()),
        ),
{
    lemma_lit_facts();
    let s = env_encoded(tag, dtext, atext);
    let f0 = EnvFields { tag: None, data: None, arr: None };
    let f1 = EnvFields { tag: Some(tag), data: None, arr: None };
    let f2 = EnvFields { tag: Some(tag), data: dval, arr: None };
    let f3 = EnvFields { tag: Some(tag), data: dval, arr: aval };
    let s6: Seq<char> = seq!['}'];
    let sv3: Seq<char> = atext + s6;
    let s4: Seq<char> = seq![':'] + sv3;
    let m3: Seq<char> = quoted("dataArray"@) + s4;
    let s3: Seq<char> = seq![','] + m3;
    let sv2: Seq<char> = dtext + s3;
    let s2: Seq<char> = seq![':'] + sv2;
    let m2: Seq<char> = quoted("data"@) + s2;
    let s1: Seq<char> = seq![','] + m2;
    let sv1: Seq<char> = quoted(tag) + s1;
    let s0: Seq<char> = seq![':'] + sv1;
    let m1: Seq<char> = quoted("messageType"@) + s0;
    assert(s =~= seq!['{'] + m1);

    lemma_parse_quoted("messageType"@, s0);
    assert(s0[0] == ':');
    assert(s0.skip(1) =~= sv1);
    lemma_parse_quoted(tag, s1);
    assert(parse_member_value("messageType"@, sv1, f0) == Some::<(EnvFields, Seq<char>)>((f1, s1)));
    assert(s1[0] == ',');
    assert(s1.skip(1) =~= m2);
    assert(parse_members(m1, f0) == parse_members(m2, f1));

    lemma_parse_quoted("data"@, s2);
    assert(s2[0] == ':');
    assert(s2.skip(1) =~= sv2);
    assert(parse_member_value("data"@, sv2, f1) == Some::<(EnvFields, Seq<char>)>((f2, s3)));
    assert(s3[0] == ',');
    assert(s3.skip(1) =~= m3);
    assert(parse_members(m2, f1) == parse_members(m3, f2));

    lemma_parse_quoted("dataArray"@, s4);
    assert(s4[0] == ':');
    assert(s4.skip(1) =~= sv3);
    assert(parse_member_value("dataArray"@, sv3, f2) == Some::<(EnvFields, Seq<char>)>((f3, s6)));
    assert(s6[0] == '}');
    assert(s6.skip(1) =~= Seq::<char>::empty());
    assert(parse_members(m3, f2) == Some::<(EnvFields, Seq<char>)>((f3, Seq::<char>::empty())));

    assert(s[0] == '{');
    assert(quoted("messageType"@)[0] == '"');
    assert(s[1] == '"');
    assert(s.skip(1) =~= m1);
    assert(parse_envelope(s) == Some::<(EnvFields, Seq<char>)>((f3, Seq::<char>::empty())));
}

/// Law: decoding inverts encoding. Every operation value, sent as its
/// canonical frame, is decoded back to exactly itself.
pub proof fn lemma_round_trip(op: OpView)
    ensures
        decoded(encoded(op)) == Ok::<OpView, DecodeError>(op),
{
    lemma_lit_facts();
    match op {
        OpView::Register { name } => {
            let f1 = EnvFields { tag: Some("register"@), data: None, arr: None };
            let f2 = EnvFields { tag: Some("register"@), data: Some(name), arr: None };
            assert forall|rest: Seq<char>|
                #[trigger] parse_member_value("data"@, quoted(name) + rest, f1)
                    == Some::<(EnvFields, Seq<char>)>((f2, rest)) by {
                assert((quoted(name) + rest)[0] == '"');
                assert(parse_null(quoted(name) + rest) is None);
                lemma_parse_quoted(name, rest);
            }
            assert forall|rest: Seq<char>|
                #[trigger] parse_member_value("dataArray"@, null_lit() + rest, f2)
                    == Some::<(EnvFields, Seq<char>)>((f2, rest)) by {
                lemma_parse_null(rest);
                assert((EnvFields { arr: None, ..f2 }) =~= f2);
            }
            lemma_decode_env_members("register"@, quoted(name), null_lit(), Some(name), None);
            assert(OpView::Register { name } =~= op);
        },
        OpView::Users { names } => {
            let f1 = EnvFields { tag: Some("users"@), data: None, arr: None };
            let f3 = EnvFields { tag: Some("users"@), data: None, arr: Some(names) };
            assert forall|rest: Seq<char>|
                #[trigger] parse_member_value("data"@, null_lit() + rest, f1)
                    == Some::<(EnvFields, Seq<char>)>((f1, rest)) by {
                lemma_parse_null(rest);
                assert((EnvFields { data: None, ..f1 }) =~= f1);
            }
            assert forall|rest: Seq<char>|
                #[trigger] parse_member_value("dataArray"@, arr_encoded(names) + rest, f1)
                    == Some::<(EnvFields, Seq<char>)>((f3, rest)) by {
                assert((arr_encoded(names) + rest)[0] == '[');
                assert(parse_null(arr_encoded(names) + rest) is None);
                lemma_parse_array_enc(names, rest);
            }
            lemma_decode_env_members("users"@, null_lit(), arr_encoded(names), None, Some(names));
            assert(OpView::Users { names } =~= op);
        },
        OpView::Message { from, body } => {
            let payload = chat_encoded(from, body);
            let f1 = EnvFields { tag: Some("message"@), data: None, arr: None };
            let f2 = EnvFields { tag: Some("message"@), data: Some(payload), arr: None };
            assert forall|rest: Seq<char>|
                #[trigger] parse_member_value("data"@, quoted(payload) + rest, f1)
                    == Some::<(EnvFields, Seq<char>)>((f2, rest)) by {
                assert((quoted(payload) + rest)[0] == '"');
                assert(parse_null(quoted(payload) + rest) is None);
                lemma_parse_quoted(payload, rest);
            }
            assert forall|rest: Seq<char>|
                #[trigger] parse_member_value("dataArray"@, null_lit() + rest, f2)
                    == Some::<(EnvFields, Seq<char>)>((f2, rest)) by {
                lemma_parse_null(rest);
                assert((EnvFields { arr: None, ..f2 }) =~= f2);
            }
            lemma_decode_env_members(
                "message"@,
                quoted(payload),
                null_lit(),
                Some(payload),
                None,
            );
            lemma_decode_chat_enc(from, body);
            assert(OpView::Message { from, body } =~= op);
        },
    }
}

// ---------------------------------------------------------------------------
// Executable decoder. Each function mirrors one specification parser; its
// contract equates what it returns with that parser's result.
// ---------------------------------------------------------------------------

/// The characters of a string, in order, as a vector.
fn str_chars(s: &str) -> (r: Vec<char>)
    ensures
        r@ == s@,
{
    let n = s.unicode_len();
    let mut r: Vec<char> = Vec::new();
    let mut i: usize = 0;
    while i < n
        invariant
            i <= n,
            n == s@.len(),
            r@ == s@.take(i as int),
        decreases n - i,
    {
        r.push(s.get_char(i));
        proof {
            assert(r@ =~= s@.take(i + 1 as int));
        }
        i += 1;
    }
    proof {
        assert(s@.take(n as int) =~= s@);
    }
    r
}

/// The string holding exactly the given characters, in order.
fn string_of_chars(v: &Vec<char>) -> (r: String)
    ensures
        r@ == v@,
{
    let mut r = String::new();
    let mut i: usize = 0;
    while i < v.len()
        invariant
            i <= v.len(),
            r@ == v@.take(i as int),
        decreases v.len() - i,
    {
        push_char(&mut r, v[i]);
        proof {
            assert(r@ =~= v@.take(i + 1 as int));
        }
        i += 1;
    }
    proof {
        assert(v@.take(v.len() as int) =~= v@);
    }
    r
}

/// Whether the characters equal those of the given string.
fn eq_lit(v: &Vec<char>, s: &str) -> (r: bool)
    ensures
        r == (v@ == s@),
{
    let n = s.unicode_len();
    if v.len() != n {
        return false;
    }
    let mut i: usize = 0;
    while i < n
        invariant
            i <= n,
            n == s@.len(),
            v@.len() == n,
            forall|k: int| 0 <= k < i ==> v@[k] == s@[k],
        decreases n - i,
    {
        if v[i] != s.get_char(i) {
            return false;
        }
        i += 1;
    }
    proof {
        assert(v@ =~= s@);
    }
    true
}

/// The value of a hex digit, if the character is one.
fn hex_value_of(c: char) -> (r: Option<u32>)
    ensures
        match r {
            Some(n) => n < 16 && hex_val(c) == n as int,
            None => hex_val(c) < 0,
        },
{
    if c == '0' {
        Some(0)
    } else if c == '1' {
        Some(1)
    } else if c == '2' {
        Some(2)
    } else if c == '3' {
        Some(3)
    } else if c == '4' {
        Some(4)
    } else if c == '5' {
        Some(5)
    } else if c == '6' {
        Some(6)
    } else if c == '7' {
        Some(7)
    } else if c == '8' {
        Some(8)
    } else if c == '9' {
        Some(9)
    } else if c == 'a' || c == 'A' {
        Some(10)
    } else if c == 'b' || c == 'B' {
        Some(11)
    } else if c == 'c' || c == 'C' {
        Some(12)
    } else if c == 'd' || c == 'D' {
        Some(13)
    } else if c == 'e' || c == 'E' {
        Some(14)
    } else if c == 'f' || c == 'F' {
        Some(15)
    } else {
        None
    }
}

/// Parse a JSON string value starting at index `i`.
fn p_string(s: &Vec<char>, i: usize) -> (r: Option<(Vec<char>, usize)>)
    requires
        i <= s.len(),
    ensures
        match r {
            Some(p) => i < p.1 <= s.len() && parse_string(s@.skip(i as int)) == Some(
                (p.0@, s@.skip(p.1 as int)),
            ),
            None => parse_string(s@.skip(i as int)) is None,
        },
{
    proof {
        assert(s@.skip(i as int).len() == s.len() - i);
        if i < s.len() {
            assert(s@.skip(i as int)[0] == s@[i as int]);
        }
    }
    if i == s.len() || s[i] != '"' {
        return None;
    }
    proof {
        assert(s@.skip(i as int).drop_first() =~= s@.skip(i as int + 1));
    }
    let mut acc: Vec<char> = Vec::new();
    let mut j: usize = i + 1;
    loop
        invariant
            i + 1 <= j <= s.len(),
            parse_string(s@.skip(i as int)) == parse_str_body(s@.skip(j as int), acc@),
        decreases s.len() - j,
    {
        proof {
            assert(s@.skip(j as int).len() == s.len() - j);
            if j < s.len() {
                assert(s@.skip(j as int)[0] == s@[j as int]);
            }
        }
        if j == s.len() {
            return None;
        }
        let c = s[j];
        if c == '"' {
            proof {
                assert(s@.skip(j as int).drop_first() =~= s@.skip(j as int + 1));
            }
            return Some((acc, j + 1));
        } else if c == '\\' {
            if s.len() - j < 2 {
                return None;
            }
            let e = s[j + 1];
            proof {
                assert(s@.skip(j as int)[1] == s@[j as int + 1]);
            }
            if e == '"' || e == '\\' || e == '/' {
                proof {
                    assert(s@.skip(j as int).skip(2) =~= s@.skip(j as int + 2));
                }
                acc.push(e);
                j = j + 2;
            } else if e == 'n' {
                proof {
                    assert(s@.skip(j as int).skip(2) =~= s@.skip(j as int + 2));
                }
                acc.push('\n');
                j = j + 2;
            } else if e == 'r' {
                proof {
                    assert(s@.skip(j as int).skip(2) =~= s@.skip(j as int + 2));
                }
                acc.push('\r');
                j = j + 2;
            } else if e == 't' {
                proof {
                    assert(s@.skip(j as int).skip(2) =~= s@.skip(j as int + 2));
                }
                acc.push('\t');
                j = j + 2;
            } else if e == 'u' {
                if s.len() - j < 6 {
                    return None;
                }
                proof {
                    assert(s@.skip(j as int)[2] == s@[j as int + 2]);
                    assert(s@.skip(j as int)[3] == s@[j as int + 3]);
                    assert(s@.skip(j as int)[4] == s@[j as int + 4]);
                    assert(s@.skip(j as int)[5] == s@[j as int + 5]);
                }
                if s[j + 2] != '0' || s[j + 3] != '0' {
                    return None;
                }
                let h1 = match hex_value_of(s[j + 4]) {
                    Some(n) => n,
                    None => {
                        return None;
                    },
                };
                let h2 = match hex_value_of(s[j + 5]) {
                    Some(n) => n,
                    None => {
                        return None;
                    },
                };
                let code: u32 = h1 * 16 + h2;
                let ch: char = (code as u8) as char;
                proof {
                    assert(code < 256);
                    assert(ch == code_char(
                        hex_val(s@[j as int + 4]) * 16 + hex_val(s@[j as int + 5]),
                    ));
                    assert(s@.skip(j as int).skip(6) =~= s@.skip(j as int + 6));
                }
                acc.push(ch);
                j = j + 6;
            } else {
                return None;
            }
        } else if (c as u32) < 32 {
            return None;
        } else {
            proof {
                assert(s@.skip(j as int).drop_first() =~= s@.skip(j as int + 1));
            }
            acc.push(c);
            j = j + 1;
        }
    }
}

/// Parse the JSON `null` literal starting at index `i`.
fn p_null(s: &Vec<char>, i: usize) -> (r: Option<usize>)
    requires
        i <= s.len(),
    ensures
        match r {
            Some(j) => i < j <= s.len() && parse_null(s@.skip(i as int)) == Some(
                s@.skip(j as int),
            ),
            None => parse_null(s@.skip(i as int)) is None,
        },
{
    proof {
        assert(s@.skip(i as int).len() == s.len() - i);
        if s.len() - i >= 4 {
            assert(s@.skip(i as int)[0] == s@[i as int]);
            assert(s@.skip(i as int)[1] == s@[i as int + 1]);
            assert(s@.skip(i as int)[2] == s@[i as int + 2]);
            assert(s@.skip(i as int)[3] == s@[i as int + 3]);
        }
    }
    if s.len() - i < 4 {
        return None;
    }
    if s[i] == 'n' && s[i + 1] == 'u' && s[i + 2] == 'l' && s[i + 3] == 'l' {
        proof {
            assert(s@.skip(i as int).skip(4) =~= s@.skip(i as int + 4));
        }
        Some(i + 4)
    } else {
        None
    }
}

/// Parse a JSON array of strings starting at index `i`.
fn p_array(s: &Vec<char>, i: usize) -> (r: Option<(Vec<Vec<char>>, usize)>)
    requires
        i <= s.len(),
    ensures
        match r {
            Some(p) => i < p.1 <= s.len() && parse_array(s@.skip(i as int)) == Some(
                (p.0.deep_view(), s@.skip(p.1 as int)),
            ),
            None => parse_array(s@.skip(i as int)) is None,
        },
{
    proof {
        assert(s@.skip(i as int).len() == s.len() - i);
        if i < s.len() {
            assert(s@.skip(i as int)[0] == s@[i as int]);
        }
        if s.len() - i >= 2 {
            assert(s@.skip(i as int)[1] == s@[i as int + 1]);
        }
    }
    if i == s.len() || s[i] != '[' {
        return None;
    }
    if s.len() - i >= 2 && s[i + 1] == ']' {
        let empty: Vec<Vec<char>> = Vec::new();
        proof {
            assert(s@.skip(i as int).skip(2) =~= s@.skip(i as int + 2));
            assert(empty.deep_view() =~~= Seq::<Seq<char>>::empty());
        }
        return Some((empty, i + 2));
    }
    proof {
        assert(s@.skip(i as int).drop_first() =~= s@.skip(i as int + 1));
    }
    let mut acc: Vec<Vec<char>> = Vec::new();
    let mut j: usize = i + 1;
    proof {
        assert(acc.deep_view() =~~= Seq::<Seq<char>>::empty());
    }
    loop
        invariant
            i + 1 <= j <= s.len(),
            parse_array(s@.skip(i as int)) == parse_elems(s@.skip(j as int), acc.deep_view()),
        decreases s.len() - j,
    {
        let ghost old_dv = acc.deep_view();
        match p_string(s, j) {
            None => {
                return None;
            },
            Some((t, j2)) => {
                proof {
                    assert(s@.skip(j2 as int).len() == s.len() - j2);
                    if j2 < s.len() {
                        assert(s@.skip(j2 as int)[0] == s@[j2 as int]);
                    }
                }
                if j2 == s.len() {
                    return None;
                }
                let c = s[j2];
                if c == ',' {
                    proof {
                        assert(s@.skip(j2 as int).skip(1) =~= s@.skip(j2 as int + 1));
                    }
                    acc.push(t);
                    proof {
                        assert(acc.deep_view() =~~= old_dv.push(acc@[acc.len() - 1]@));
                    }
                    j = j2 + 1;
                } else if c == ']' {
                    proof {
                        assert(s@.skip(j2 as int).skip(1) =~= s@.skip(j2 as int + 1));
                    }
                    acc.push(t);
                    proof {
                        assert(acc.deep_view() =~~= old_dv.push(acc@[acc.len() - 1]@));
                    }
                    return Some((acc, j2 + 1));
                } else {
                    return None;
                }
            },
        }
    }
}

/// The envelope fields as decoded, before conversion to an operation.
struct FieldsX {
    tag: Option<Vec<char>>,
    data: Option<Vec<char>>,
    arr: Option<Vec<Vec<char>>>,
}

impl View for FieldsX {
    type V = EnvFields;

    closed spec fn view(&self) -> EnvFields {
        EnvFields {
            tag: match self.tag {
                Some(v) => Some(v@),
                None => None,
            },
            data: match self.data {
                Some(v) => Some(v@),
                None => None,
            },
            arr: match self.arr {
                Some(v) => Some(v.deep_view()),
                None => None,
            },
        }
    }
}

/// Parse a complete envelope object at the start of the input.
fn p_envelope(s: &Vec<char>) -> (r: Option<(FieldsX, usize)>)
    ensures
        match r {
            Some(p) => p.1 <= s.len() && parse_envelope(s@) == Some((p.0@, s@.skip(p.1 as int))),
            None => parse_envelope(s@) is None,
        },
{
    proof {
        if s.len() >= 1 {
            assert(s@[0] == s@.skip(0)[0]);
        }
    }
    if s.len() == 0 || s[0] != '{' {
        return None;
    }
    let mut f = FieldsX { tag: None, data: None, arr: None };
    if s.len() >= 2 && s[1] == '}' {
        proof {
            assert(f@ =~= (EnvFields { tag: None, data: None, arr: None }));
        }
        return Some((f, 2));
    }
    proof {
        assert(s@.skip(0).drop_first() =~= s@.skip(1));
        assert(f@ =~= (EnvFields { tag: None, data: None, arr: None }));
    }
    let mut j: usize = 1;
    loop
        invariant
            1 <= j <= s.len(),
            parse_envelope(s@) == parse_members(s@.skip(j as int), f@),
        decreases s.len() - j,
    {
        let ghost fv = f@;
        match p_string(s, j) {
            None => {
                return None;
            },
            Some((key, j1)) => {
                proof {
                    assert(s@.skip(j1 as int).len() == s.len() - j1);
                    if j1 < s.len() {
                        assert(s@.skip(j1 as int)[0] == s@[j1 as int]);
                    }
                }
                if j1 == s.len() || s[j1] != ':' {
                    return None;
                }
                let j2 = j1 + 1;
                proof {
                    assert(s@.skip(j1 as int).skip(1) =~= s@.skip(j2 as int));
                }
                let j3: usize;
                if eq_lit(&key, "messageType") {
                    match p_string(s, j2) {
                        None => {
                            return None;
                        },
                        Some((t, jt)) => {
                            f.tag = Some(t);
                            j3 = jt;
                            proof {
                                assert(f@ =~= (EnvFields { tag: Some(f.tag->Some_0@), ..fv }));
                            }
                        },
                    }
                } else if eq_lit(&key, "data") {
                    match p_null(s, j2) {
                        Some(jn) => {
                            f.data = None;
                            j3 = jn;
                            proof {
                                assert(f@ =~= (EnvFields { data: None, ..fv }));
                            }
                        },
                        None => {
                            match p_string(s, j2) {
                                None => {
                                    return None;
                                },
                                Some((t, jt)) => {
                                    f.data = Some(t);
                                    j3 = jt;
                                    proof {
                                        assert(f@ =~= (EnvFields {
                                            data: Some(f.data->Some_0@),
                                            ..fv
                                        }));
                                    }
                                },
                            }
                        },
                    }
                } else if eq_lit(&key, "dataArray") {
                    match p_null(s, j2) {
                        Some(jn) => {
                            f.arr = None;
                            j3 = jn;
                            proof {
                                assert(f@ =~= (EnvFields { arr: None, ..fv }));
                            }
                        },
                        None => {
                            match p_array(s, j2) {
                                None => {
                                    return None;
                                },
                                Some((ts, jt)) => {
                                    f.arr = Some(ts);
                                    j3 = jt;
                                    proof {
                                        assert(f@ =~= (EnvFields {
                                            arr: Some(f.arr->Some_0.deep_view()),
                                            ..fv
                                        }));
                                    }
                                },
                            }
                        },
                    }
                } else {
                    return None;
                }
                proof {
                    assert(s@.skip(j3 as int).len() == s.len() - j3);
                    if j3 < s.len() {
                        assert(s@.skip(j3 as int)[0] == s@[j3 as int]);
                    }
                }
                if j3 == s.len() {
                    return None;
                }
                let c = s[j3];
                if c == ',' {
                    proof {
                        assert(s@.skip(j3 as int).skip(1) =~= s@.skip(j3 as int + 1));
                    }
                    j = j3 + 1;
                } else if c == '}' {
                    proof {
                        assert(s@.skip(j3 as int).skip(1) =~= s@.skip(j3 as int + 1));
                    }
                    return Some((f, j3 + 1));
                } else {
                    return None;
                }
            },
        }
    }
}

/// The nested payload fields as decoded.
struct ChatFieldsX {
    from: Option<Vec<char>>,
    msg: Option<Vec<char>>,
}

impl View for ChatFieldsX {
    type V = ChatFields;

    closed spec fn view(&self) -> ChatFields {
        ChatFields {
            from: match self.from {
                Some(v) => Some(v@),
                None => None,
            },
            msg: match self.msg {
                Some(v) => Some(v@),
                None => None,
            },
        }
    }
}

/// Parse a complete payload object at the start of the input.
fn p_chat(s: &Vec<char>) -> (r: Option<(ChatFieldsX, usize)>)
    ensures
        match r {
            Some(p) => p.1 <= s.len() && parse_chat(s@) == Some((p.0@, s@.skip(p.1 as int))),
            None => parse_chat(s@) is None,
        },
{
    proof {
        if s.len() >= 1 {
            assert(s@[0] == s@.skip(0)[0]);
        }
    }
    if s.len() == 0 || s[0] != '{' {
        return None;
    }
    let mut f = ChatFieldsX { from: None, msg: None };
    if s.len() >= 2 && s[1] == '}' {
        proof {
            assert(f@ =~= (ChatFields { from: None, msg: None }));
        }
        return Some((f, 2));
    }
    proof {
        assert(s@.skip(0).drop_first() =~= s@.skip(1));
        assert(f@ =~= (ChatFields { from: None, msg: None }));
    }
    let mut j: usize = 1;
    loop
        invariant
            1 <= j <= s.len(),
            parse_chat(s@) == parse_chat_members(s@.skip(j as int), f@),
        decreases s.len() - j,
    {
        let ghost fv = f@;
        match p_string(s, j) {
            None => {
                return None;
            },
            Some((key, j1)) => {
                proof {
                    assert(s@.skip(j1 as int).len() == s.len() - j1);
                    if j1 < s.len() {
                        assert(s@.skip(j1 as int)[0] == s@[j1 as int]);
                    }
                }
                if j1 == s.len() || s[j1] != ':' {
                    return None;
                }
                let j2 = j1 + 1;
                proof {
                    assert(s@.skip(j1 as int).skip(1) =~= s@.skip(j2 as int));
                }
                let j3: usize;
                if eq_lit(&key, "from") {
                    match p_string(s, j2) {
                        None => {
                            return None;
                        },
                        Some((t, jt)) => {
                            f.from = Some(t);
                            j3 = jt;
                            proof {
                                assert(f@ =~= (ChatFields { from: Some(f.from->Some_0@), ..fv }));
                            }
                        },
                    }
                } else if eq_lit(&key, "message") {
                    match p_string(s, j2) {
                        None => {
                            return None;
                        },
                        Some((t, jt)) => {
                            f.msg = Some(t);
                            j3 = jt;
                            proof {
                                assert(f@ =~= (ChatFields { msg: Some(f.msg->Some_0@), ..fv }));
                            }
                        },
                    }
                } else {
                    return None;
                }
                proof {
                    assert(s@.skip(j3 as int).len() == s.len() - j3);
                    if j3 < s.len() {
                        assert(s@.skip(j3 as int)[0] == s@[j3 as int]);
                    }
                }
                if j3 == s.len() {
                    return None;
                }
                let c = s[j3];
                if c == ',' {
                    proof {
                        assert(s@.skip(j3 as int).skip(1) =~= s@.skip(j3 as int + 1));
                    }
                    j = j3 + 1;
                } else if c == '}' {
                    proof {
                        assert(s@.skip(j3 as int).skip(1) =~= s@.skip(j3 as int + 1));
                    }
                    return Some((f, j3 + 1));
                } else {
                    return None;
                }
            },
        }
    }
}

/// Decode the nested payload document into its two fields.
fn decode_chat_vec(payload: &Vec<char>) -> (r: Option<(String, String)>)
    ensures
        match r {
            Some(p) => decode_chat(payload@) == Some((p.0@, p.1@)),
            None => decode_chat(payload@) is None,
        },
{
    match p_chat(payload) {
        None => None,
        Some((cf, j)) => {
            proof {
                assert(payload@.skip(j as int).len() == payload.len() - j);
            }
            if j != payload.len() {
                return None;
            }
            match (cf.from, cf.msg) {
                (Some(a), Some(b)) => Some((string_of_chars(&a), string_of_chars(&b))),
                _ => None,
            }
        },
    }
}

/// Decode a wire frame into an operation, or say at which layer the frame is
/// malformed. Defensive: never panics, whatever the input.
pub fn decode(s: &str) -> (r: Result<Operation, DecodeError>)
    ensures
        match r {
            Ok(op) => decoded(s@) == Ok::<OpView, DecodeError>(op@),
            Err(e) => decoded(s@) == Err::<OpView, DecodeError>(e),
        },
{
    let v = str_chars(s);
    match p_envelope(&v) {
        None => Err(DecodeError::Malformed(Layer::Envelope)),
        Some((f, j)) => {
            proof {
                assert(v@.skip(j as int).len() == v.len() - j);
            }
            if j != v.len() {
                return Err(DecodeError::Malformed(Layer::Envelope));
            }
            let FieldsX { tag, data, arr } = f;
            match tag {
                None => Err(DecodeError::Malformed(Layer::Envelope)),
                Some(tagv) => {
                    if eq_lit(&tagv, "register") {
                        match data {
                            Some(name) => {
                                let op = Operation::Register(string_of_chars(&name));
                                proof {
                                    assert(op@ =~= OpView::Register { name: name@ });
                                }
                                Ok(op)
                            },
                            None => Err(DecodeError::Malformed(Layer::Envelope)),
                        }
                    } else if eq_lit(&tagv, "users") {
                        match arr {
                            Some(names) => {
                                let mut out: Vec<String> = Vec::new();
                                let mut k: usize = 0;
                                proof {
                                    assert(out.deep_view() =~~= names.deep_view().take(0));
                                }
                                while k < names.len()
                                    invariant
                                        k <= names.len(),
                                        out.len() == k,
                                        out.deep_view() == names.deep_view().take(k as int),
                                    decreases names.len() - k,
                                {
                                    out.push(string_of_chars(&names[k]));
                                    proof {
                                        assert(out@.len() == k + 1);
                                        assert(out@[k as int]@ == names@[k as int]@);
                                        assert(out.deep_view()[k as int]
                                            =~= names.deep_view()[k as int]);
                                        assert(out.deep_view() =~~= names.deep_view().take(
                                            k + 1 as int,
                                        ));
                                    }
                                    k += 1;
                                }
                                proof {
                                    assert(names.deep_view().take(names.len() as int)
                                        =~~= names.deep_view());
                                }
                                let op = Operation::Users(out);
                                proof {
                                    assert(op@ =~= OpView::Users { names: names.deep_view() });
                                }
                                Ok(op)
                            },
                            None => Err(DecodeError::Malformed(Layer::Envelope)),
                        }
                    } else if eq_lit(&tagv, "message") {
                        match data {
                            Some(payload) => {
                                match decode_chat_vec(&payload) {
                                    None => Err(DecodeError::Malformed(Layer::Payload)),
                                    Some((from, body)) => {
                                        let op = Operation::Message(ChatMessage { from, body });
                                        proof {
                                            assert(decoded(s@) == Ok::<OpView, DecodeError>(op@));
                                        }
                                        Ok(op)
                                    },
                                }
                            },
                            None => Err(DecodeError::Malformed(Layer::Envelope)),
                        }
                    } else {
                        Err(DecodeError::Malformed(Layer::Envelope))
                    }
                },
            }
        },
    }
}

/// Encode an operation as its canonical wire frame.
pub fn encode(op: &Operation) -> (r: String)
    ensures
        r@ == encoded(op@),
{
    let mut out = String::new();
    match op {
        Operation::Register(name) => {
            push_env_prefix(&mut out, "register");
            push_quoted(&mut out, name.as_str());
            push_arr_key(&mut out);
            push_null(&mut out);
            push_char(&mut out, '}');
        },
        Operation::Users(names) => {
            push_env_prefix(&mut out, "users");
            push_null(&mut out);
            push_arr_key(&mut out);
            push_array(&mut out, names);
            push_char(&mut out, '}');
        },
        Operation::Message(m) => {
            push_env_prefix(&mut out, "message");
            let chat = encode_chat(m.from.as_str(), m.body.as_str());
            push_quoted(&mut out, chat.as_str());
            push_arr_key(&mut out);
            push_null(&mut out);
            push_char(&mut out, '}');
        },
    }
    proof {
        assert(out@ =~= encoded(op@));
    }
    out
}

} // verus!
