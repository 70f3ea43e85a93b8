//! The wire message and its codec: one JSON value per newline-terminated
//! line.  `encode_spec` and `decode_spec` define the format; the round
//! trip between them is proved in [`lemma_round_trip`].

use vstd::prelude::*;
use vstd::string::*;

use crate::error::Error;
use crate::MpResult;

verus! {

/// A message that can be sent and received over a stream.
///
/// On the wire a message is one JSON value on a line of its own: the unit
/// variants are JSON strings (`"Ping"`), the payload variants single-field
/// JSON objects (`{"Text":"..."}`), as [`encode_spec`] lays down.
#[derive(Debug)]
pub enum Message {
    Ping,
    Text(String),
    InvalidMessage,
    Disconnect,
    Error(String),
}

/// The mathematical value of a [`Message`]: payloads as character sequences.
pub enum MessageView {
    Ping,
    Text(Seq<char>),
    InvalidMessage,
    Disconnect,
    Error(Seq<char>),
}

impl View for Message {
    type V = MessageView;

    open spec fn view(&self) -> MessageView {
        match self {
            Message::Ping => MessageView::Ping,
            Message::Text(s) => MessageView::Text(s@),
            Message::InvalidMessage => MessageView::InvalidMessage,
            Message::Disconnect => MessageView::Disconnect,
            Message::Error(s) => MessageView::Error(s@),
        }
    }
}

impl Clone for Message {
    fn clone(&self) -> (r: Message)
        ensures
            r == *self,
    {
        match self {
            Message::Ping => Message::Ping,
            Message::Text(s) => Message::Text(s.clone()),
            Message::InvalidMessage => Message::InvalidMessage,
            Message::Disconnect => Message::Disconnect,
            Message::Error(s) => Message::Error(s.clone()),
        }
    }
}

impl PartialEq for Message {
    fn eq(&self, other: &Message) -> (r: bool) {
        match (self, other) {
            (Message::Ping, Message::Ping) => true,
            (Message::Text(a), Message::Text(b)) => *a == *b,
            (Message::InvalidMessage, Message::InvalidMessage) => true,
            (Message::Disconnect, Message::Disconnect) => true,
            (Message::Error(a), Message::Error(b)) => *a == *b,
            _ => false,
        }
    }
}

impl vstd::std_specs::cmp::PartialEqSpecImpl for Message {
    open spec fn obeys_eq_spec() -> bool {
        true
    }

    open spec fn eq_spec(&self, other: &Message) -> bool {
        self@ == other@
    }
}

/// The display form of a message: the payload variants show their text.
pub open spec fn describe_spec(m: MessageView) -> Seq<char> {
    match m {
        MessageView::Ping => "Ping"@,
        MessageView::Disconnect => "Disconnect"@,
        MessageView::InvalidMessage => "Invalid message"@,
        MessageView::Text(t) => "'"@ + t + "'"@,
        MessageView::Error(t) => "error: "@ + t,
    }
}

/// The wire spelling of `Message::Ping`.
pub open spec fn lit_ping() -> Seq<char> {
    seq!['"', 'P', 'i', 'n', 'g', '"']
}

/// The wire spelling of `Message::Disconnect`.
pub open spec fn lit_disconnect() -> Seq<char> {
    seq!['"', 'D', 'i', 's', 'c', 'o', 'n', 'n', 'e', 'c', 't', '"']
}

/// The wire spelling of `Message::InvalidMessage`.
pub open spec fn lit_invalid() -> Seq<char> {
    seq!['"', 'I', 'n', 'v', 'a', 'l', 'i', 'd', 'M', 'e', 's', 's', 'a', 'g', 'e', '"']
}

/// The opening of the object that carries a `Text` payload.
pub open spec fn open_text() -> Seq<char> {
    seq!['{', '"', 'T', 'e', 'x', 't', '"', ':', '"']
}

/// The opening of the object that carries an `Error` payload.
pub open spec fn open_error() -> Seq<char> {
    seq!['{', '"', 'E', 'r', 'r', 'o', 'r', '"', ':', '"']
}

/// The closing of a payload object.
pub open spec fn lit_close() -> Seq<char> {
    seq!['"', '}']
}

/// The lower-case hexadecimal digit with value `n`.
pub open spec fn hex_char(n: int) -> char {
    if n == 0 { '0' } else if n == 1 { '1' } else if n == 2 { '2' } else if n == 3 { '3' }
    else if n == 4 { '4' } else if n == 5 { '5' } else if n == 6 { '6' } else if n == 7 { '7' }
    else if n == 8 { '8' } else if n == 9 { '9' } else if n == 10 { 'a' } else if n == 11 { 'b' }
    else if n == 12 { 'c' } else if n == 13 { 'd' } else if n == 14 { 'e' } else { 'f' }
}

/// The value of a hexadecimal digit, or `-1` for any other character.
pub open spec fn hex_val(c: char) -> int {
    if '0' as u32 <= c as u32 && c as u32 <= '9' as u32 {
        c as u32 - '0' as u32
    } else if 'a' as u32 <= c as u32 && c as u32 <= 'f' as u32 {
        c as u32 - 'a' as u32 + 10
    } else if 'A' as u32 <= c as u32 && c as u32 <= 'F' as u32 {
        c as u32 - 'A' as u32 + 10
    } else {
        -1
    }
}

/// How one character appears inside a JSON string payload: quotes,
/// backslashes and control characters are escaped, everything else is
/// written as itself.
pub open spec fn escape_char(c: char) -> Seq<char> {
    if c == '"' { seq!['\\', '"'] }
    else if c == '\\' { seq!['\\', '\\'] }
    else if c == '\n' { seq!['\\', 'n'] }
    else if c == '\r' { seq!['\\', 'r'] }
    else if c == '\t' { seq!['\\', 't'] }
    else if c == '\u{8}' { seq!['\\', 'b'] }
    else if c == '\u{c}' { seq!['\\', 'f'] }
    else if (c as u32) < 0x20 {
        seq!['\\', 'u', '0', '0', hex_char(c as u32 as int / 16), hex_char(c as u32 as int % 16)]
    }
    else { seq![c] }
}

/// A whole payload, escaped character by character.
pub open spec fn escape(s: Seq<char>) -> Seq<char>
    decreases s.len(),
{
    if s.len() == 0 {
        Seq::empty()
    } else {
        escape_char(s[0]) + escape(s.drop_first())
    }
}

/// Prepend `c` to a successfully unescaped tail.
pub open spec fn unescape_cons(c: char, rest: Option<Seq<char>>) -> Option<Seq<char>> {
    match rest {
        Some(r) => Some(seq![c] + r),
        None => None,
    }
}

/// Undo [`escape`]: `None` when the text ends inside an escape or holds an
/// escape this codec does not produce.
pub open spec fn unescape(s: Seq<char>) -> Option<Seq<char>>
    decreases s.len(),
{
    if s.len() == 0 { Some(Seq::empty()) }
    else if s[0] != '\\' { unescape_cons(s[0], unescape(s.drop_first())) }
    else if s.len() < 2 { None }
    else if s[1] == '"' { unescape_cons('"', unescape(s.skip(2))) }
    else if s[1] == '\\' { unescape_cons('\\', unescape(s.skip(2))) }
    else if s[1] == 'n' { unescape_cons('\n', unescape(s.skip(2))) }
    else if s[1] == 'r' { unescape_cons('\r', unescape(s.skip(2))) }
    else if s[1] == 't' { unescape_cons('\t', unescape(s.skip(2))) }
    else if s[1] == 'b' { unescape_cons('\u{8}', unescape(s.skip(2))) }
    else if s[1] == 'f' { unescape_cons('\u{c}', unescape(s.skip(2))) }
    else if s[1] == 'u' {
        if s.len() < 6 { None }
        else if s[2] == '0' && s[3] == '0' && 0 <= hex_val(s[4]) && hex_val(s[4]) < 2
            && 0 <= hex_val(s[5]) {
            unescape_cons(
                ((16 * hex_val(s[4]) + hex_val(s[5])) as u8) as char,
                unescape(s.skip(6)),
            )
        } else { None }
    }
    else { None }
}

/// The characters that `encode` produces: one JSON value, then one newline.
pub open spec fn encode_spec(m: MessageView) -> Seq<char> {
    match m {
        MessageView::Ping => lit_ping() + seq!['\n'],
        MessageView::Disconnect => lit_disconnect() + seq!['\n'],
        MessageView::InvalidMessage => lit_invalid() + seq!['\n'],
        MessageView::Text(t) => open_text() + escape(t) + lit_close() + seq!['\n'],
        MessageView::Error(t) => open_error() + escape(t) + lit_close() + seq!['\n'],
    }
}

/// One line with its trailing newline, if any, removed.
pub open spec fn strip_newline(s: Seq<char>) -> Seq<char> {
    if s.len() > 0 && s.last() == '\n' { s.drop_last() } else { s }
}

/// Whether `s` opens with `prefix` and closes a quoted payload object.
pub open spec fn payload_shape(s: Seq<char>, prefix: Seq<char>) -> bool {
    &&& s.len() >= prefix.len() + 2
    &&& s.subrange(0, prefix.len() as int) == prefix
    &&& s[s.len() - 2] == '"'
    &&& s[s.len() - 1] == '}'
}

/// The unescaped payload between the opening and the closing quote.
pub open spec fn payload_of(s: Seq<char>, prefix: Seq<char>) -> Option<Seq<char>> {
    unescape(s.subrange(prefix.len() as int, s.len() - 2))
}

/// The message one line decodes to, or `None` on a malformed line.
pub open spec fn decode_spec(line: Seq<char>) -> Option<MessageView> {
    let b = strip_newline(line);
    if b == lit_ping() { Some(MessageView::Ping) }
    else if b == lit_disconnect() { Some(MessageView::Disconnect) }
    else if b == lit_invalid() { Some(MessageView::InvalidMessage) }
    else if payload_shape(b, open_text()) {
        match payload_of(b, open_text()) {
            Some(t) => Some(MessageView::Text(t)),
            None => None,
        }
    }
    else if payload_shape(b, open_error()) {
        match payload_of(b, open_error()) {
            Some(t) => Some(MessageView::Error(t)),
            None => None,
        }
    }
    else { None }
}

/// Relies on `String`'s `FromIterator<char>` impl: collecting characters
/// yields the string of exactly those characters, in order.
#[verifier::external_body]
fn chars_to_string(v: Vec<char>) -> (r: String)
    ensures
        r@ == v@,
{
    v.into_iter().collect()
}

/// Append the characters of `s` to `buf`.
fn push_chars(buf: &mut Vec<char>, s: &str)
    ensures
        final(buf)@ == old(buf)@ + s@,
{
    let ghost orig: Seq<char> = buf@;
    let n = s.unicode_len();
    let mut i: usize = 0;
    while i < n
        invariant
            n == s@.len(),
            i <= n,
            buf@ == orig + s@.take(i as int),
        decreases n - i,
    {
        buf.push(s.get_char(i));
        proof {
            assert(s@.take(i + 1) =~= s@.take(i as int).push(s@[i as int]));
        }
        i += 1;
    }
    proof {
        assert(s@.take(n as int) =~= s@);
    }
}

/// The lower-case hexadecimal digit with value `n`.
fn hex_char_exec(n: u32) -> (c: char)
    requires
        n < 16,
    ensures
        c == hex_char(n as int),
{
    if n == 0 { '0' } else if n == 1 { '1' } else if n == 2 { '2' } else if n == 3 { '3' }
    else if n == 4 { '4' } else if n == 5 { '5' } else if n == 6 { '6' } else if n == 7 { '7' }
    else if n == 8 { '8' } else if n == 9 { '9' } else if n == 10 { 'a' } else if n == 11 { 'b' }
    else if n == 12 { 'c' } else if n == 13 { 'd' } else if n == 14 { 'e' } else { 'f' }
}

/// `escape` distributes over appending one character.
proof fn lemma_escape_snoc(s: Seq<char>, c: char)
    ensures
        escape(s.push(c)) == escape(s) + escape_char(c),
    decreases s.len(),
{
    if s.len() == 0 {
        assert(s.push(c)[0] == c);
        assert(s.push(c).drop_first() =~= Seq::<char>::empty());
        assert(escape(Seq::<char>::empty()) == Seq::<char>::empty());
        assert(escape(s.push(c)) == escape_char(c) + escape(s.push(c).drop_first()));
        assert(escape(s.push(c)) =~= escape(s) + escape_char(c));
    } else {
        lemma_escape_snoc(s.drop_first(), c);
        assert(s.push(c)[0] == s[0]);
        assert(s.push(c).drop_first() =~= s.drop_first().push(c));
        assert(escape(s.push(c)) == escape_char(s[0]) + escape(s.drop_first().push(c)));
        assert(escape(s.push(c)) =~= escape(s) + escape_char(c));
    }
}

/// Append the escaped form of `s` to `buf`.
fn escape_into(buf: &mut Vec<char>, s: &str)
    ensures
        final(buf)@ == old(buf)@ + escape(s@),
{
    let ghost orig: Seq<char> = buf@;
    let n = s.unicode_len();
    let mut i: usize = 0;
    while i < n
        invariant
            n == s@.len(),
            i <= n,
            buf@ == orig + escape(s@.take(i as int)),
        decreases n - i,
    {
        let c = s.get_char(i);
        proof {
            lemma_escape_snoc(s@.take(i as int), c);
            assert(s@.take(i + 1) =~= s@.take(i as int).push(c));
        }
        if c == '"' {
            buf.push('\\');
            buf.push('"');
        } else if c == '\\' {
            buf.push('\\');
            buf.push('\\');
        } else if c == '\n' {
            buf.push('\\');
            buf.push('n');
        } else if c == '\r' {
            buf.push('\\');
            buf.push('r');
        } else if c == '\t' {
            buf.push('\\');
            buf.push('t');
        } else if c == '\u{8}' {
            buf.push('\\');
            buf.push('b');
        } else if c == '\u{c}' {
            buf.push('\\');
            buf.push('f');
        } else if (c as u32) < 0x20 {
            buf.push('\\');
            buf.push('u');
            buf.push('0');
            buf.push('0');
            buf.push(hex_char_exec((c as u32) / 16));
            buf.push(hex_char_exec((c as u32) % 16));
        } else {
            buf.push(c);
        }
        proof {
            assert(buf@ =~= orig + escape(s@.take(i + 1)));
        }
        i += 1;
    }
    proof {
        assert(s@.take(n as int) =~= s@);
    }
}

/// The characters of `s`, one by one.
fn str_to_chars(s: &str) -> (v: Vec<char>)
    ensures
        v@ == s@,
{
    let n = s.unicode_len();
    let mut v: Vec<char> = Vec::new();
    let mut i: usize = 0;
    while i < n
        invariant
            n == s@.len(),
            i <= n,
            v@ == s@.take(i as int),
        decreases n - i,
    {
        v.push(s.get_char(i));
        proof {
            assert(s@.take(i + 1) =~= s@.take(i as int).push(s@[i as int]));
        }
        i += 1;
    }
    proof {
        assert(s@.take(n as int) =~= s@);
    }
    v
}

/// The value of a hexadecimal digit, or `-1` for any other character.
fn hex_val_exec(c: char) -> (r: i32)
    ensures
        r as int == hex_val(c),
{
    let u = c as u32;
    if 0x30 <= u && u <= 0x39 {
        (u - 0x30) as i32
    } else if 0x61 <= u && u <= 0x66 {
        (u - 0x61 + 10) as i32
    } else if 0x41 <= u && u <= 0x46 {
        (u - 0x41 + 10) as i32
    } else {
        -1
    }
}

/// Whether `v` holds exactly the characters of `s`.
fn chars_eq_lit(v: &Vec<char>, s: &str) -> (r: bool)
    ensures
        r == (v@ == s@),
{
    let n = s.unicode_len();
    if v.len() != n {
        return false;
    }
    let mut i: usize = 0;
    while i < n
        invariant
            n == s@.len(),
            n == v@.len(),
            i <= n,
            forall|j: int| 0 <= j < i ==> v@[j] == s@[j],
        decreases n - i,
    {
        if v[i] != s.get_char(i) {
            return false;
        }
        i += 1;
    }
    proof {
        assert(v@ =~= s@);
    }
    true
}

/// Whether `v` opens with the characters of `s`.
fn has_prefix(v: &Vec<char>, s: &str) -> (r: bool)
    ensures
        r == (v@.len() >= s@.len() && v@.subrange(0, s@.len() as int) == s@),
{
    let n = s.unicode_len();
    if v.len() < n {
        return false;
    }
    let mut i: usize = 0;
    while i < n
        invariant
            n == s@.len(),
            n <= v@.len(),
            i <= n,
            forall|j: int| 0 <= j < i ==> v@[j] == s@[j],
        decreases n - i,
    {
        if v[i] != s.get_char(i) {
            proof {
                assert(v@.subrange(0, n as int)[i as int] == v@[i as int]);
            }
            return false;
        }
        i += 1;
    }
    proof {
        assert(v@.subrange(0, n as int) =~= s@);
    }
    true
}

/// The characters of `v` from `from` up to `to`.
fn subvec(v: &Vec<char>, from: usize, to: usize) -> (r: Vec<char>)
    requires
        from <= to <= v@.len(),
    ensures
        r@ == v@.subrange(from as int, to as int),
{
    let mut r: Vec<char> = Vec::new();
    let mut i: usize = from;
    while i < to
        invariant
            from <= i <= to <= v@.len(),
            r@ == v@.subrange(from as int, i as int),
        decreases to - i,
    {
        r.push(v[i]);
        proof {
            assert(v@.subrange(from as int, i + 1)
                =~= v@.subrange(from as int, i as int).push(v@[i as int]));
        }
        i += 1;
    }
    r
}

/// What is left of `unescape` when a prefix has already been produced.
pub open spec fn unescape_tail(prefix: Seq<char>, rest: Seq<char>) -> Option<Seq<char>> {
    match unescape(rest) {
        Some(r) => Some(prefix + r),
        None => None,
    }
}

/// Consuming one escape moves its character onto the produced prefix.
proof fn lemma_unescape_tail_step(prefix: Seq<char>, cc: char, t: Seq<char>, t2: Seq<char>)
    requires
        unescape(t) == unescape_cons(cc, unescape(t2)),
    ensures
        unescape_tail(prefix, t) == unescape_tail(prefix.push(cc), t2),
{
    match unescape(t2) {
        Some(r) => {
            assert(prefix + (seq![cc] + r) =~= prefix.push(cc) + r);
        }
        None => {}
    }
}

/// Undo [`escape`] on a character buffer.
fn unescape_exec(s: &Vec<char>) -> (r: Option<Vec<char>>)
    ensures
        match r {
            Some(out) => unescape(s@) == Some(out@),
            None => unescape(s@) is None,
        },
{
    let mut out: Vec<char> = Vec::new();
    let mut i: usize = 0;
    proof {
        assert(s@.skip(0) =~= s@);
        match unescape(s@) {
            Some(r) => {
                assert(Seq::<char>::empty() + r =~= r);
            }
            None => {}
        }
    }
    while i < s.len()
        invariant
            i <= s@.len(),
            unescape(s@) == unescape_tail(out@, s@.skip(i as int)),
        decreases s@.len() - i,
    {
        let ghost t = s@.skip(i as int);
        proof {
            assert(t[0] == s@[i as int]);
        }
        let c = s[i];
        if c != '\\' {
            proof {
                assert(t.drop_first() =~= s@.skip(i + 1));
                lemma_unescape_tail_step(out@, c, t, s@.skip(i + 1));
            }
            out.push(c);
            i += 1;
        } else if i + 1 == s.len() {
            proof {
                assert(t.len() == 1);
                assert(unescape(t) is None);
            }
            return None;
        } else {
            proof {
                assert(t[1] == s@[i + 1]);
            }
            let e = s[i + 1];
            if e == '"' || e == '\\' || e == 'n' || e == 'r' || e == 't' || e == 'b' || e == 'f' {
                let cc: char = if e == '"' { '"' } else if e == '\\' { '\\' }
                    else if e == 'n' { '\n' } else if e == 'r' { '\r' }
                    else if e == 't' { '\t' } else if e == 'b' { '\u{8}' } else { '\u{c}' };
                proof {
                    assert(t.skip(2) =~= s@.skip(i + 2));
                    assert(unescape(t) == unescape_cons(cc, unescape(s@.skip(i + 2))));
                    lemma_unescape_tail_step(out@, cc, t, s@.skip(i + 2));
                }
                out.push(cc);
                i += 2;
            } else if e == 'u' {
                if s.len() - i < 6 {
                    proof {
                        assert(t.len() < 6);
                        assert(unescape(t) is None);
                    }
                    return None;
                }
                proof {
                    assert(t[2] == s@[i + 2]);
                    assert(t[3] == s@[i + 3]);
                    assert(t[4] == s@[i + 4]);
                    assert(t[5] == s@[i + 5]);
                }
                let h1 = hex_val_exec(s[i + 4]);
                let h2 = hex_val_exec(s[i + 5]);
                if s[i + 2] == '0' && s[i + 3] == '0' && 0 <= h1 && h1 < 2 && 0 <= h2 {
                    let code = 16 * h1 + h2;
                    let cc = (code as u8) as char;
                    proof {
                        assert(t.skip(6) =~= s@.skip(i + 6));
                        assert(unescape(t) == unescape_cons(cc, unescape(s@.skip(i + 6))));
                        lemma_unescape_tail_step(out@, cc, t, s@.skip(i + 6));
                    }
                    out.push(cc);
                    i += 6;
                } else {
                    proof {
                        assert(unescape(t) is None);
                    }
                    return None;
                }
            } else {
                proof {
                    assert(unescape(t) is None);
                }
                return None;
            }
        }
    }
    proof {
        assert(s@.skip(i as int) =~= Seq::<char>::empty());
        assert(unescape(Seq::<char>::empty()) == Some(Seq::<char>::empty()));
        assert(out@ + Seq::<char>::empty() =~= out@);
    }
    Some(out)
}

impl Message {
    /// A short display form of the message, in place of `Display`.
    pub fn describe(&self) -> (r: String)
        ensures
            r@ == describe_spec(self@),
    {
        match self {
            Message::Ping => String::from_str("Ping"),
            Message::Disconnect => String::from_str("Disconnect"),
            Message::InvalidMessage => String::from_str("Invalid message"),
            Message::Text(s) => {
                let mut r = String::from_str("'");
                r.append(s.as_str());
                r.append("'");
                r
            }
            Message::Error(s) => {
                let mut r = String::from_str("error: ");
                r.append(s.as_str());
                r
            }
        }
    }

    /// Encode the message as one JSON value followed by one newline.
    pub fn encode(&self) -> (r: String)
        ensures
            r@ == encode_spec(self@),
    {
        let mut buf: Vec<char> = Vec::new();
        match self {
            Message::Ping => {
                push_chars(&mut buf, "\"Ping\"");
                proof {
                    reveal_strlit("\"Ping\"");
                    assert(buf@ =~= lit_ping());
                }
            }
            Message::Disconnect => {
                push_chars(&mut buf, "\"Disconnect\"");
                proof {
                    reveal_strlit("\"Disconnect\"");
                    assert(buf@ =~= lit_disconnect());
                }
            }
            Message::InvalidMessage => {
                push_chars(&mut buf, "\"InvalidMessage\"");
                proof {
                    reveal_strlit("\"InvalidMessage\"");
                    assert(buf@ =~= lit_invalid());
                }
            }
            Message::Text(s) => {
                push_chars(&mut buf, "{\"Text\":\"");
                escape_into(&mut buf, s.as_str());
                push_chars(&mut buf, "\"}");
                proof {
                    reveal_strlit("{\"Text\":\"");
                    reveal_strlit("\"}");
                    assert(buf@ =~= open_text() + escape(s@) + lit_close());
                }
            }
            Message::Error(s) => {
                push_chars(&mut buf, "{\"Error\":\"");
                escape_into(&mut buf, s.as_str());
                push_chars(&mut buf, "\"}");
                proof {
                    reveal_strlit("{\"Error\":\"");
                    reveal_strlit("\"}");
                    assert(buf@ =~= open_error() + escape(s@) + lit_close());
                }
            }
        }
        buf.push('\n');
        proof {
            assert(buf@ =~= encode_spec(self@));
        }
        chars_to_string(buf)
    }

    /// Decode one line into a message; `Err(JsonError)` on a malformed line.
    pub fn decode(line: &str) -> (r: MpResult<Message>)
        ensures
            match decode_spec(line@) {
                Some(v) => r matches Ok(m) && m@ == v,
                None => r matches Err(e) && e == Error::JsonError,
            },
    {
        proof {
            reveal_strlit("\"Ping\"");
            reveal_strlit("\"Disconnect\"");
            reveal_strlit("\"InvalidMessage\"");
            reveal_strlit("{\"Text\":\"");
            reveal_strlit("{\"Error\":\"");
            assert("\"Ping\""@ =~= lit_ping());
            assert("\"Disconnect\""@ =~= lit_disconnect());
            assert("\"InvalidMessage\""@ =~= lit_invalid());
            assert("{\"Text\":\""@ =~= open_text());
            assert("{\"Error\":\""@ =~= open_error());
        }
        let mut b = str_to_chars(line);
        if b.len() > 0 && b[b.len() - 1] == '\n' {
            b.pop();
        }
        proof {
            assert(b@ =~= strip_newline(line@));
        }
        if chars_eq_lit(&b, "\"Ping\"") {
            return Ok(Message::Ping);
        }
        if chars_eq_lit(&b, "\"Disconnect\"") {
            return Ok(Message::Disconnect);
        }
        if chars_eq_lit(&b, "\"InvalidMessage\"") {
            return Ok(Message::InvalidMessage);
        }
        if b.len() >= 11 && has_prefix(&b, "{\"Text\":\"") && b[b.len() - 2] == '"'
            && b[b.len() - 1] == '}' {
            proof {
                assert(payload_shape(b@, open_text()));
            }
            let inner = subvec(&b, 9, b.len() - 2);
            return match unescape_exec(&inner) {
                Some(t) => Ok(Message::Text(chars_to_string(t))),
                None => Err(Error::JsonError),
            };
        }
        if b.len() >= 12 && has_prefix(&b, "{\"Error\":\"") && b[b.len() - 2] == '"'
            && b[b.len() - 1] == '}' {
            proof {
                assert(payload_shape(b@, open_error()));
            }
            let inner = subvec(&b, 10, b.len() - 2);
            return match unescape_exec(&inner) {
                Some(t) => Ok(Message::Error(chars_to_string(t))),
                None => Err(Error::JsonError),
            };
        }
        Err(Error::JsonError)
    }
}

/// `hex_char` produces a digit that `hex_val` reads back.
proof fn lemma_hex_round(n: int)
    requires
        0 <= n < 16,
    ensures
        hex_val(hex_char(n)) == n,
{
}

/// One escaped character, before any tail, is read back as that character.
proof fn lemma_unescape_escape_char(c: char, e: Seq<char>)
    ensures
        unescape(escape_char(c) + e) == unescape_cons(c, unescape(e)),
{
    let s = escape_char(c) + e;
    if c == '"' || c == '\\' || c == '\n' || c == '\r' || c == '\t' || c == '\u{8}'
        || c == '\u{c}' {
        assert(s[0] == '\\');
        assert(s[1] == escape_char(c)[1]);
        assert(s.skip(2) =~= e);
    } else if (c as u32) < 0x20 {
        let v = c as u32 as int;
        assert(s[0] == '\\');
        assert(s[1] == 'u');
        assert(s[2] == '0');
        assert(s[3] == '0');
        assert(s[4] == hex_char(v / 16));
        assert(s[5] == hex_char(v % 16));
        lemma_hex_round(v / 16);
        lemma_hex_round(v % 16);
        vstd::arithmetic::div_mod::lemma_fundamental_div_mod(v, 16);
        assert(16 * (v / 16) + v % 16 == v);
        assert(((16 * hex_val(s[4]) + hex_val(s[5])) as u8) as char == c);
        assert(s.skip(6) =~= e);
    } else {
        assert(s[0] == c);
        assert(s[0] != '\\');
        assert(s.drop_first() =~= e);
    }
}

/// Escaping is undone exactly by `unescape`.
pub proof fn lemma_unescape_escape(t: Seq<char>)
    ensures
        unescape(escape(t)) == Some(t),
    decreases t.len(),
{
    if t.len() == 0 {
        assert(escape(t) == Seq::<char>::empty());
        assert(unescape(Seq::<char>::empty()) == Some(Seq::<char>::empty()));
        assert(t =~= Seq::<char>::empty());
    } else {
        lemma_unescape_escape(t.drop_first());
        lemma_unescape_escape_char(t[0], escape(t.drop_first()));
        assert(escape(t) == escape_char(t[0]) + escape(t.drop_first()));
        assert(unescape(escape(t)) == Some(seq![t[0]] + t.drop_first()));
        assert(seq![t[0]] + t.drop_first() =~= t);
    }
}

/// Round trip: every representable message decodes from its own encoding.
pub proof fn lemma_round_trip(m: MessageView)
    ensures
        decode_spec(encode_spec(m)) == Some(m),
{
    let s = encode_spec(m);
    match m {
        MessageView::Ping => {
            assert(s.last() == '\n');
            assert(strip_newline(s) =~= lit_ping());
        }
        MessageView::Disconnect => {
            assert(s.last() == '\n');
            assert(strip_newline(s) =~= lit_disconnect());
        }
        MessageView::InvalidMessage => {
            assert(s.last() == '\n');
            assert(strip_newline(s) =~= lit_invalid());
        }
        MessageView::Text(t) => {
            assert(s.last() == '\n');
            let b = strip_newline(s);
            assert(b =~= open_text() + escape(t) + lit_close());
            assert(b[0] == '{');
            assert(lit_ping()[0] == '"');
            assert(lit_disconnect()[0] == '"');
            assert(lit_invalid()[0] == '"');
            assert(b[b.len() - 2] == '"');
            assert(b[b.len() - 1] == '}');
            assert(b.subrange(0, 9) =~= open_text());
            assert(payload_shape(b, open_text()));
            assert(b.subrange(9, b.len() - 2) =~= escape(t));
            lemma_unescape_escape(t);
            assert(payload_of(b, open_text()) == Some(t));
        }
        MessageView::Error(t) => {
            assert(s.last() == '\n');
            let b = strip_newline(s);
            assert(b =~= open_error() + escape(t) + lit_close());
            assert(b[0] == '{');
            assert(lit_ping()[0] == '"');
            assert(lit_disconnect()[0] == '"');
            assert(lit_invalid()[0] == '"');
            assert(b[2] == 'E');
            assert(open_text()[2] == 'T');
            assert(b.subrange(0, 9)[2] == b[2]);
            assert(!payload_shape(b, open_text()));
            assert(b[b.len() - 2] == '"');
            assert(b[b.len() - 1] == '}');
            assert(b.subrange(0, 10) =~= open_error());
            assert(payload_shape(b, open_error()));
            assert(b.subrange(10, b.len() - 2) =~= escape(t));
            lemma_unescape_escape(t);
            assert(payload_of(b, open_error()) == Some(t));
        }
    }
}

} // verus!
