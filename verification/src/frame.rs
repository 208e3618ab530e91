//! The wire protocol: message types and the newline-delimited,
//! JSON-shaped text framing they travel in.
//!
//! Every frame is one line. A frame's payload is a braced record whose
//! string fields are quoted and escaped, so a payload never contains a
//! line terminator and every line on the wire decodes back to exactly
//! the message that produced it.

use vstd::prelude::*;

use crate::text::chars_to_string;
use crate::text::match_at;
use crate::text::occurs_at;

verus! {

/// A request a client may send to the server.
pub enum FromClient {
    /// Join the group of the given name, creating it if it does not exist.
    Join { group_name: String },
    /// Post a message to the group of the given name.
    Post { group_name: String, message: String },
}

/// A frame the server may send to a client.
pub enum FromServer {
    /// A message posted to a group the client is a member of.
    Message { group_name: String, message: String },
    /// An error report for a request that could not be carried out.
    Error(String),
}

/// The mathematical form of a client request: its strings as character
/// sequences.
pub enum ClientMsg {
    Join { group_name: Seq<char> },
    Post { group_name: Seq<char>, message: Seq<char> },
}

/// The mathematical form of a server frame.
pub enum ServerMsg {
    Message { group_name: Seq<char>, message: Seq<char> },
    Error(Seq<char>),
}

impl View for FromClient {
    type V = ClientMsg;

    open spec fn view(&self) -> ClientMsg {
        match self {
            FromClient::Join { group_name } => ClientMsg::Join { group_name: group_name@ },
            FromClient::Post { group_name, message } => ClientMsg::Post {
                group_name: group_name@,
                message: message@,
            },
        }
    }
}

impl View for FromServer {
    type V = ServerMsg;

    open spec fn view(&self) -> ServerMsg {
        match self {
            FromServer::Message { group_name, message } => ServerMsg::Message {
                group_name: group_name@,
                message: message@,
            },
            FromServer::Error(e) => ServerMsg::Error(e@),
        }
    }
}

/// How one character is written inside a quoted string: the quote, the
/// backslash and the line terminator are escaped, everything else
/// stands for itself. Escaping the line terminator is what keeps a
/// payload on a single line.
pub open spec fn esc_char(c: char) -> Seq<char> {
    if c == '"' {
        seq!['\\', '"']
    } else if c == '\\' {
        seq!['\\', '\\']
    } else if c == '\n' {
        seq!['\\', 'n']
    } else {
        seq![c]
    }
}

/// The escaped form of a whole string.
pub open spec fn escape(s: Seq<char>) -> Seq<char>
    decreases s.len(),
{
    if s.len() == 0 {
        Seq::<char>::empty()
    } else {
        esc_char(s[0]) + escape(s.drop_first())
    }
}

/// The quoted form of a string: its escaped characters between two
/// quotes.
pub open spec fn quoted(s: Seq<char>) -> Seq<char> {
    seq!['"'] + escape(s) + seq!['"']
}

/// The payload (the line without its terminator) that encodes a client
/// request.
pub open spec fn client_payload(m: ClientMsg) -> Seq<char> {
    match m {
        ClientMsg::Join { group_name } => "{\"Join\":{\"group_name\":"@ + quoted(group_name)
            + "}}"@,
        ClientMsg::Post { group_name, message } => "{\"Post\":{\"group_name\":"@ + quoted(
            group_name,
        ) + ",\"message\":"@ + quoted(message) + "}}"@,
    }
}

/// The payload that encodes a server frame.
pub open spec fn server_payload(m: ServerMsg) -> Seq<char> {
    match m {
        ServerMsg::Message { group_name, message } => "{\"Message\":{\"group_name\":"@ + quoted(
            group_name,
        ) + ",\"message\":"@ + quoted(message) + "}}"@,
        ServerMsg::Error(e) => "{\"Error\":"@ + quoted(e) + "}"@,
    }
}

proof fn lemma_escape_snoc(t: Seq<char>, c: char)
    ensures
        escape(t.push(c)) == escape(t) + esc_char(c),
    decreases t.len(),
{
    if t.len() == 0 {
        assert(t.push(c)[0] == c);
        assert(t.push(c).drop_first() =~= Seq::<char>::empty());
        assert(escape(t.push(c)) == esc_char(c) + escape(Seq::<char>::empty()));
        assert(esc_char(c) + Seq::<char>::empty() =~= esc_char(c));
        assert(escape(t) + esc_char(c) =~= esc_char(c));
    } else {
        assert(t.push(c)[0] == t[0]);
        assert(t.push(c).drop_first() =~= t.drop_first().push(c));
        lemma_escape_snoc(t.drop_first(), c);
        assert(escape(t.push(c)) =~= escape(t) + esc_char(c));
    }
}

/// The character a body escape `\x` stands for, if `x` is a valid
/// escape.
pub open spec fn unescape_char(c: char) -> Option<char> {
    if c == '"' {
        Some('"')
    } else if c == '\\' {
        Some('\\')
    } else if c == 'n' {
        Some('\n')
    } else {
        None
    }
}

/// Scans the body of a quoted string, `s` being everything after the
/// opening quote: returns the decoded content and how many characters
/// were consumed, the closing quote included. Scanning fails on a bad
/// escape, on a raw line terminator, and when the input ends before the
/// closing quote.
pub open spec fn scan_body(s: Seq<char>) -> Option<(Seq<char>, int)>
    decreases s.len(),
{
    if s.len() == 0 {
        None
    } else if s[0] == '"' {
        Some((Seq::<char>::empty(), 1int))
    } else if s[0] == '\\' {
        if s.len() < 2 {
            None
        } else {
            match unescape_char(s[1]) {
                Some(c) => match scan_body(s.skip(2)) {
                    Some(r) => Some((seq![c] + r.0, r.1 + 2)),
                    None => None,
                },
                None => None,
            }
        }
    } else if s[0] == '\n' {
        None
    } else {
        match scan_body(s.skip(1)) {
            Some(r) => Some((seq![s[0]] + r.0, r.1 + 1)),
            None => None,
        }
    }
}

/// Scans a quoted string standing at the head of `s`: returns its
/// content and how many characters were consumed, both quotes included.
pub open spec fn scan_quoted(s: Seq<char>) -> Option<(Seq<char>, int)> {
    if s.len() > 0 && s[0] == '"' {
        match scan_body(s.skip(1)) {
            Some(r) => Some((r.0, r.1 + 1)),
            None => None,
        }
    } else {
        None
    }
}

/// Scanning recovers exactly what escaping wrote, whatever follows the
/// closing quote.
proof fn lemma_scan_body_of_escape(g: Seq<char>, t: Seq<char>)
    ensures
        scan_body(escape(g) + seq!['"'] + t) == Some((g, escape(g).len() + 1int)),
    decreases g.len(),
{
    let s = escape(g) + seq!['"'] + t;
    if g.len() == 0 {
        assert(escape(g) =~= Seq::<char>::empty());
        assert(s[0] == '"');
        assert(g =~= Seq::<char>::empty());
    } else {
        let c = g[0];
        let rest = g.drop_first();
        assert(escape(g) == esc_char(c) + escape(rest));
        lemma_scan_body_of_escape(rest, t);
        if c == '"' || c == '\\' || c == '\n' {
            assert(s[0] == '\\');
            let d = if c == '"' {
                '"'
            } else if c == '\\' {
                '\\'
            } else {
                'n'
            };
            assert(s[1] == d);
            assert(unescape_char(d) == Some(c));
            assert(s.skip(2) =~= escape(rest) + seq!['"'] + t);
            assert(seq![c] + rest =~= g);
        } else {
            assert(s[0] == c);
            assert(s.skip(1) =~= escape(rest) + seq!['"'] + t);
            assert(seq![c] + rest =~= g);
        }
    }
}

/// Scanning a quoted string followed by anything yields its content and
/// stops right after its closing quote.
proof fn lemma_scan_quoted_of_quoted(g: Seq<char>, t: Seq<char>)
    ensures
        scan_quoted(quoted(g) + t) == Some((g, quoted(g).len() as int)),
{
    let s = quoted(g) + t;
    assert(s[0] == '"');
    assert(s.skip(1) =~= escape(g) + seq!['"'] + t);
    lemma_scan_body_of_escape(g, t);
}

/// Whatever the scanner accepts is the escaped form of what it
/// returned: the wire holds only canonical encodings.
proof fn lemma_scan_body_sound(s: Seq<char>)
    ensures
        scan_body(s) matches Some(r) ==> 1 <= r.1 <= s.len() && s.take(r.1) == escape(r.0)
            + seq!['"'],
    decreases s.len(),
{
    if s.len() == 0 {
    } else if s[0] == '"' {
        assert(s.take(1) =~= escape(Seq::<char>::empty()) + seq!['"']);
    } else if s[0] == '\\' {
        if s.len() >= 2 {
            if let Some(c) = unescape_char(s[1]) {
                lemma_scan_body_sound(s.skip(2));
                if let Some(r) = scan_body(s.skip(2)) {
                    assert(esc_char(c) =~= seq![s[0], s[1]]);
                    assert(escape(seq![c] + r.0) == esc_char(c) + escape((seq![c]
                        + r.0).drop_first())) by {
                        assert((seq![c] + r.0)[0] == c);
                    }
                    assert((seq![c] + r.0).drop_first() =~= r.0);
                    assert(s.take(r.1 + 2) =~= seq![s[0], s[1]] + s.skip(2).take(r.1));
                    assert(s.take(r.1 + 2) =~= escape(seq![c] + r.0) + seq!['"']);
                }
            }
        }
    } else if s[0] == '\n' {
    } else {
        lemma_scan_body_sound(s.skip(1));
        if let Some(r) = scan_body(s.skip(1)) {
            assert(esc_char(s[0]) =~= seq![s[0]]);
            assert(escape(seq![s[0]] + r.0) == esc_char(s[0]) + escape((seq![s[0]]
                + r.0).drop_first())) by {
                assert((seq![s[0]] + r.0)[0] == s[0]);
            }
            assert((seq![s[0]] + r.0).drop_first() =~= r.0);
            assert(s.take(r.1 + 1) =~= seq![s[0]] + s.skip(1).take(r.1));
            assert(s.take(r.1 + 1) =~= escape(seq![s[0]] + r.0) + seq!['"']);
        }
    }
}

/// What the quoted-string scanner accepts is exactly a quoted string.
proof fn lemma_scan_quoted_sound(s: Seq<char>)
    ensures
        scan_quoted(s) matches Some(r) ==> 2 <= r.1 <= s.len() && s.take(r.1) == quoted(r.0),
{
    if s.len() > 0 && s[0] == '"' {
        lemma_scan_body_sound(s.skip(1));
        if let Some(r) = scan_body(s.skip(1)) {
            assert(s.take(r.1 + 1) =~= seq!['"'] + s.skip(1).take(r.1));
            assert(s.take(r.1 + 1) =~= quoted(r.0));
        }
    }
}

/// Builds the quoted form of `s`.
fn quote_string(s: &str) -> (r: String)
    ensures
        r@ == quoted(s@),
{
    let len = s.unicode_len();
    let mut out: Vec<char> = Vec::new();
    out.push('"');
    let mut i: usize = 0;
    while i < len
        invariant
            len == s@.len(),
            0 <= i <= len,
            out@ == seq!['"'] + escape(s@.take(i as int)),
        decreases len - i,
    {
        let c = s.get_char(i);
        if c == '"' {
            out.push('\\');
            out.push('"');
        } else if c == '\\' {
            out.push('\\');
            out.push('\\');
        } else if c == '\n' {
            out.push('\\');
            out.push('n');
        } else {
            out.push(c);
        }
        proof {
            lemma_escape_snoc(s@.take(i as int), s@[i as int]);
            assert(s@.take(i as int).push(s@[i as int]) =~= s@.take(i + 1));
            assert(out@ =~= seq!['"'] + escape(s@.take(i + 1)));
        }
        i += 1;
    }
    out.push('"');
    proof {
        assert(s@.take(len as int) =~= s@);
        assert(out@ =~= quoted(s@));
    }
    chars_to_string(&out)
}

/// Parses the quoted string standing at position `start` of `s`,
/// returning its content and how many characters it occupied; agrees
/// exactly with the scanner.
fn parse_quoted(s: &str, start: usize) -> (r: Option<(String, usize)>)
    requires
        start <= s@.len(),
    ensures
        match r {
            Some(p) => scan_quoted(s@.skip(start as int)) == Some((p.0@, p.1 as int)) && start
                + p.1 <= s@.len(),
            None => scan_quoted(s@.skip(start as int)) is None,
        },
{
    let len = s.unicode_len();
    if start >= len {
        assert(s@.skip(start as int).len() == 0);
        return None;
    }
    if s.get_char(start) != '"' {
        assert(s@.skip(start as int)[0] == s@[start as int]);
        return None;
    }
    assert(s@.skip(start as int)[0] == '"');
    assert(s@.skip(start as int).skip(1) =~= s@.skip(start + 1));
    let mut out: Vec<char> = Vec::new();
    let mut i: usize = start + 1;
    loop
        invariant
            len == s@.len(),
            start < i <= len,
            s@[start as int] == '"',
            s@.skip(start as int)[0] == '"',
            s@.skip(start as int).skip(1) == s@.skip(start + 1),
            match scan_body(s@.skip(i as int)) {
                Some(r) => scan_body(s@.skip(start + 1)) == Some(
                    (out@ + r.0, i - start - 1 + r.1),
                ),
                None => scan_body(s@.skip(start + 1)) is None,
            },
        decreases len - i,
    {
        if i >= len {
            assert(s@.skip(i as int).len() == 0);
            return None;
        }
        assert(s@.skip(i as int).len() == len - i);
        assert(s@.skip(i as int)[0] == s@[i as int]);
        let c = s.get_char(i);
        if c == '"' {
            proof {
                assert(scan_body(s@.skip(i as int)) == Some((Seq::<char>::empty(), 1int)));
                assert(out@ + Seq::<char>::empty() =~= out@);
                assert(scan_body(s@.skip(start + 1)) == Some((out@, i - start as int)));
            }
            let n = i + 1 - start;
            return Some((chars_to_string(&out), n));
        } else if c == '\\' {
            if i + 1 >= len {
                assert(s@.skip(i as int).len() < 2);
                return None;
            }
            assert(s@.skip(i as int)[1] == s@[i + 1]);
            let d = s.get_char(i + 1);
            let u: char;
            if d == '"' {
                u = '"';
            } else if d == '\\' {
                u = '\\';
            } else if d == 'n' {
                u = '\n';
            } else {
                assert(unescape_char(s@[i + 1]) is None);
                return None;
            }
            proof {
                assert(unescape_char(s@[i + 1]) == Some(u));
                assert(s@.skip(i as int).skip(2) =~= s@.skip(i + 2));
                match scan_body(s@.skip(i + 2)) {
                    Some(r2) => {
                        assert(scan_body(s@.skip(i as int)) == Some(
                            (seq![u] + r2.0, r2.1 + 2),
                        ));
                        assert(out@ + (seq![u] + r2.0) =~= out@.push(u) + r2.0);
                    }
                    None => {
                        assert(scan_body(s@.skip(i as int)) is None);
                    }
                }
            }
            out.push(u);
            i += 2;
        } else if c == '\n' {
            assert(scan_body(s@.skip(i as int)) is None);
            return None;
        } else {
            proof {
                assert(s@.skip(i as int).skip(1) =~= s@.skip(i + 1));
                match scan_body(s@.skip(i + 1)) {
                    Some(r2) => {
                        assert(scan_body(s@.skip(i as int)) == Some(
                            (seq![s@[i as int]] + r2.0, r2.1 + 1),
                        ));
                        assert(out@ + (seq![s@[i as int]] + r2.0) =~= out@.push(s@[i as int])
                            + r2.0);
                    }
                    None => {
                        assert(scan_body(s@.skip(i as int)) is None);
                    }
                }
            }
            out.push(c);
            i += 1;
        }
    }
}

/// What a line decodes to as a client request, if anything: the line
/// must carry one of the two request shapes, with every string quoted
/// and canonically escaped, and nothing before or after.
pub open spec fn spec_decode_client(s: Seq<char>) -> Option<ClientMsg> {
    let jp = "{\"Join\":{\"group_name\":"@;
    let pp = "{\"Post\":{\"group_name\":"@;
    let cm = ",\"message\":"@;
    if occurs_at(s, 0, jp) {
        match scan_quoted(s.skip(jp.len() as int)) {
            Some(r) => if occurs_at(s, jp.len() + r.1, "}}"@) && s.len() == jp.len() + r.1 + 2 {
                Some(ClientMsg::Join { group_name: r.0 })
            } else {
                None
            },
            None => None,
        }
    } else if occurs_at(s, 0, pp) {
        match scan_quoted(s.skip(pp.len() as int)) {
            Some(r) => {
                let off = pp.len() + r.1;
                if occurs_at(s, off, cm) {
                    match scan_quoted(s.skip(off + cm.len())) {
                        Some(r2) => if occurs_at(s, off + cm.len() + r2.1, "}}"@) && s.len() == off
                            + cm.len() + r2.1 + 2 {
                            Some(ClientMsg::Post { group_name: r.0, message: r2.0 })
                        } else {
                            None
                        },
                        None => None,
                    }
                } else {
                    None
                }
            }
            None => None,
        }
    } else {
        None
    }
}

/// What a line decodes to as a server frame, if anything.
pub open spec fn spec_decode_server(s: Seq<char>) -> Option<ServerMsg> {
    let mp = "{\"Message\":{\"group_name\":"@;
    let ep = "{\"Error\":"@;
    let cm = ",\"message\":"@;
    if occurs_at(s, 0, mp) {
        match scan_quoted(s.skip(mp.len() as int)) {
            Some(r) => {
                let off = mp.len() + r.1;
                if occurs_at(s, off, cm) {
                    match scan_quoted(s.skip(off + cm.len())) {
                        Some(r2) => if occurs_at(s, off + cm.len() + r2.1, "}}"@) && s.len() == off
                            + cm.len() + r2.1 + 2 {
                            Some(ServerMsg::Message { group_name: r.0, message: r2.0 })
                        } else {
                            None
                        },
                        None => None,
                    }
                } else {
                    None
                }
            }
            None => None,
        }
    } else if occurs_at(s, 0, ep) {
        match scan_quoted(s.skip(ep.len() as int)) {
            Some(r) => if occurs_at(s, ep.len() + r.1, "}"@) && s.len() == ep.len() + r.1 + 1 {
                Some(ServerMsg::Error(r.0))
            } else {
                None
            },
            None => None,
        }
    } else {
        None
    }
}

/// Decodes one line (without its terminator) into a client request;
/// returns `None` exactly on the lines that no request encodes to.
pub fn decode_client(line: &str) -> (r: Option<FromClient>)
    ensures
        match r {
            Some(m) => spec_decode_client(line@) == Some(m@),
            None => spec_decode_client(line@) is None,
        },
{
    let jp = "{\"Join\":{\"group_name\":";
    let pp = "{\"Post\":{\"group_name\":";
    let len = line.unicode_len();
    if match_at(line, 0, jp) {
        let off0 = jp.unicode_len();
        match parse_quoted(line, off0) {
            Some((g, n)) => {
                let off1 = off0 + n;
                if match_at(line, off1, "}}") && len - off1 == 2 {
                    Some(FromClient::Join { group_name: g })
                } else {
                    None
                }
            }
            None => None,
        }
    } else if match_at(line, 0, pp) {
        let off0 = pp.unicode_len();
        match parse_quoted(line, off0) {
            Some((g, n)) => {
                let off1 = off0 + n;
                let cm = ",\"message\":";
                if match_at(line, off1, cm) {
                    let off2 = off1 + cm.unicode_len();
                    match parse_quoted(line, off2) {
                        Some((msg, n2)) => {
                            let off3 = off2 + n2;
                            if match_at(line, off3, "}}") && len - off3 == 2 {
                                Some(FromClient::Post { group_name: g, message: msg })
                            } else {
                                None
                            }
                        }
                        None => None,
                    }
                } else {
                    None
                }
            }
            None => None,
        }
    } else {
        None
    }
}

/// Decodes one line (without its terminator) into a server frame;
/// returns `None` exactly on the lines that no frame encodes to.
pub fn decode_server(line: &str) -> (r: Option<FromServer>)
    ensures
        match r {
            Some(m) => spec_decode_server(line@) == Some(m@),
            None => spec_decode_server(line@) is None,
        },
{
    let mp = "{\"Message\":{\"group_name\":";
    let ep = "{\"Error\":";
    let len = line.unicode_len();
    if match_at(line, 0, mp) {
        let off0 = mp.unicode_len();
        match parse_quoted(line, off0) {
            Some((g, n)) => {
                let off1 = off0 + n;
                let cm = ",\"message\":";
                if match_at(line, off1, cm) {
                    let off2 = off1 + cm.unicode_len();
                    match parse_quoted(line, off2) {
                        Some((msg, n2)) => {
                            let off3 = off2 + n2;
                            if match_at(line, off3, "}}") && len - off3 == 2 {
                                Some(FromServer::Message { group_name: g, message: msg })
                            } else {
                                None
                            }
                        }
                        None => None,
                    }
                } else {
                    None
                }
            }
            None => None,
        }
    } else if match_at(line, 0, ep) {
        let off0 = ep.unicode_len();
        match parse_quoted(line, off0) {
            Some((e, n)) => {
                let off1 = off0 + n;
                if match_at(line, off1, "}") && len - off1 == 1 {
                    Some(FromServer::Error(e))
                } else {
                    None
                }
            }
            None => None,
        }
    } else {
        None
    }
}

/// Encodes a client request as one frame: its payload followed by the
/// line terminator.
pub fn encode_client(m: &FromClient) -> (r: String)
    ensures
        r@ == client_payload(m@).push('\n'),
{
    proof {
        reveal_strlit("\n");
    }
    match m {
        FromClient::Join { group_name } => {
            let mut r = String::from_str("{\"Join\":{\"group_name\":");
            let q = quote_string(group_name.as_str());
            r.append(q.as_str());
            r.append("}}");
            r.append("\n");
            proof {
                assert(r@ =~= client_payload(m@).push('\n'));
            }
            r
        }
        FromClient::Post { group_name, message } => {
            let mut r = String::from_str("{\"Post\":{\"group_name\":");
            let q = quote_string(group_name.as_str());
            r.append(q.as_str());
            r.append(",\"message\":");
            let q2 = quote_string(message.as_str());
            r.append(q2.as_str());
            r.append("}}");
            r.append("\n");
            proof {
                assert(r@ =~= client_payload(m@).push('\n'));
            }
            r
        }
    }
}

/// Encodes a server frame as one line: its payload followed by the line
/// terminator.
pub fn encode_server(m: &FromServer) -> (r: String)
    ensures
        r@ == server_payload(m@).push('\n'),
{
    proof {
        reveal_strlit("\n");
    }
    match m {
        FromServer::Message { group_name, message } => {
            let mut r = String::from_str("{\"Message\":{\"group_name\":");
            let q = quote_string(group_name.as_str());
            r.append(q.as_str());
            r.append(",\"message\":");
            let q2 = quote_string(message.as_str());
            r.append(q2.as_str());
            r.append("}}");
            r.append("\n");
            proof {
                assert(r@ =~= server_payload(m@).push('\n'));
            }
            r
        }
        FromServer::Error(e) => {
            let mut r = String::from_str("{\"Error\":");
            let q = quote_string(e.as_str());
            r.append(q.as_str());
            r.append("}");
            r.append("\n");
            proof {
                assert(r@ =~= server_payload(m@).push('\n'));
            }
            r
        }
    }
}

/// Every encoded client request decodes back to exactly itself: the
/// payload a request produces is accepted by the decoder and yields the
/// same request.
pub proof fn lemma_client_round_trip(m: ClientMsg)
    ensures
        spec_decode_client(client_payload(m)) == Some(m),
{
    let jp = "{\"Join\":{\"group_name\":"@;
    let pp = "{\"Post\":{\"group_name\":"@;
    let cm = ",\"message\":"@;
    reveal_strlit("{\"Join\":{\"group_name\":");
    reveal_strlit("{\"Post\":{\"group_name\":");
    reveal_strlit("}}");
    let s = client_payload(m);
    match m {
        ClientMsg::Join { group_name: g } => {
            assert(s.subrange(0, jp.len() as int) =~= jp);
            assert(occurs_at(s, 0, jp));
            assert(s.skip(jp.len() as int) =~= quoted(g) + "}}"@);
            lemma_scan_quoted_of_quoted(g, "}}"@);
            let n = quoted(g).len() as int;
            assert(s.subrange(jp.len() + n, jp.len() + n + "}}"@.len()) =~= "}}"@);
            assert(occurs_at(s, jp.len() + n, "}}"@));
            assert(s.len() == jp.len() + n + 2);
        }
        ClientMsg::Post { group_name: g, message: msg } => {
            assert(s.subrange(0, pp.len() as int) =~= pp);
            assert(occurs_at(s, 0, pp));
            assert(jp[2] == 'J' && pp[2] == 'P');
            if occurs_at(s, 0, jp) {
                assert(s.subrange(0, jp.len() as int)[2] == s[2]);
                assert(s[2] == pp[2]);
                assert(false);
            }
            let t = cm + quoted(msg) + "}}"@;
            assert(s.skip(pp.len() as int) =~= quoted(g) + t);
            lemma_scan_quoted_of_quoted(g, t);
            let n = quoted(g).len() as int;
            let off = pp.len() + n;
            assert(s.subrange(off, off + cm.len()) =~= cm);
            assert(occurs_at(s, off, cm));
            assert(s.skip(off + cm.len()) =~= quoted(msg) + "}}"@);
            lemma_scan_quoted_of_quoted(msg, "}}"@);
            let n2 = quoted(msg).len() as int;
            assert(s.subrange(off + cm.len() + n2, off + cm.len() + n2 + "}}"@.len()) =~= "}}"@);
            assert(occurs_at(s, off + cm.len() + n2, "}}"@));
            assert(s.len() == off + cm.len() + n2 + 2);
        }
    }
}

/// Every encoded server frame decodes back to exactly itself.
pub proof fn lemma_server_round_trip(m: ServerMsg)
    ensures
        spec_decode_server(server_payload(m)) == Some(m),
{
    let mp = "{\"Message\":{\"group_name\":"@;
    let ep = "{\"Error\":"@;
    let cm = ",\"message\":"@;
    reveal_strlit("{\"Message\":{\"group_name\":");
    reveal_strlit("{\"Error\":");
    reveal_strlit("}}");
    reveal_strlit("}");
    let s = server_payload(m);
    match m {
        ServerMsg::Message { group_name: g, message: msg } => {
            assert(s.subrange(0, mp.len() as int) =~= mp);
            assert(occurs_at(s, 0, mp));
            let t = cm + quoted(msg) + "}}"@;
            assert(s.skip(mp.len() as int) =~= quoted(g) + t);
            lemma_scan_quoted_of_quoted(g, t);
            let n = quoted(g).len() as int;
            let off = mp.len() + n;
            assert(s.subrange(off, off + cm.len()) =~= cm);
            assert(occurs_at(s, off, cm));
            assert(s.skip(off + cm.len()) =~= quoted(msg) + "}}"@);
            lemma_scan_quoted_of_quoted(msg, "}}"@);
            let n2 = quoted(msg).len() as int;
            assert(s.subrange(off + cm.len() + n2, off + cm.len() + n2 + "}}"@.len()) =~= "}}"@);
            assert(occurs_at(s, off + cm.len() + n2, "}}"@));
            assert(s.len() == off + cm.len() + n2 + 2);
        }
        ServerMsg::Error(e) => {
            assert(s.subrange(0, ep.len() as int) =~= ep);
            assert(occurs_at(s, 0, ep));
            assert(mp[2] == 'M' && ep[2] == 'E');
            if occurs_at(s, 0, mp) {
                assert(s.subrange(0, mp.len() as int)[2] == s[2]);
                assert(s[2] == ep[2]);
                assert(false);
            }
            assert(s.skip(ep.len() as int) =~= quoted(e) + "}"@);
            lemma_scan_quoted_of_quoted(e, "}"@);
            let n = quoted(e).len() as int;
            assert(s.subrange(ep.len() + n, ep.len() + n + "}"@.len()) =~= "}"@);
            assert(occurs_at(s, ep.len() + n, "}"@));
            assert(s.len() == ep.len() + n + 1);
        }
    }
}

/// Only encodings decode: a line the decoder accepts as a client
/// request is exactly that request's payload. With the round trip this
/// makes decoding the inverse of encoding.
pub proof fn lemma_client_decode_sound(s: Seq<char>)
    ensures
        spec_decode_client(s) matches Some(m) ==> s == client_payload(m),
{
    let jp = "{\"Join\":{\"group_name\":"@;
    let pp = "{\"Post\":{\"group_name\":"@;
    let cm = ",\"message\":"@;
    reveal_strlit("}}");
    if occurs_at(s, 0, jp) {
        lemma_scan_quoted_sound(s.skip(jp.len() as int));
        if let Some(r) = scan_quoted(s.skip(jp.len() as int)) {
            let g = r.0;
            let n = r.1;
            if occurs_at(s, jp.len() + n, "}}"@) && s.len() == jp.len() + n + 2 {
                assert(s.skip(jp.len() as int).take(n) == quoted(g));
                assert(n == quoted(g).len());
                assert(s =~= jp + quoted(g) + "}}"@) by {
                    assert forall|k: int| 0 <= k < s.len() implies s[k] == (jp + quoted(g)
                        + "}}"@)[k] by {
                        if k < jp.len() {
                            assert(s.subrange(0, jp.len() as int)[k] == s[k]);
                        } else if k < jp.len() + n {
                            assert(s.skip(jp.len() as int).take(n)[k - jp.len()] == s[k]);
                        } else {
                            assert(s.subrange(jp.len() + n, jp.len() + n + "}}"@.len())[k
                                - jp.len() - n] == s[k]);
                        }
                    }
                }
            }
        }
    } else if occurs_at(s, 0, pp) {
        lemma_scan_quoted_sound(s.skip(pp.len() as int));
        if let Some(r) = scan_quoted(s.skip(pp.len() as int)) {
            let g = r.0;
            let n = r.1;
            let off = pp.len() + n;
            if occurs_at(s, off as int, cm) {
                lemma_scan_quoted_sound(s.skip(off + cm.len()));
                if let Some(r2) = scan_quoted(s.skip(off + cm.len())) {
                    let msg = r2.0;
                    let n2 = r2.1;
                    let off3 = off + cm.len() + n2;
                    if occurs_at(s, off3 as int, "}}"@) && s.len() == off3 + 2 {
                        assert(s.skip(pp.len() as int).take(n) == quoted(g));
                        assert(n == quoted(g).len());
                        assert(s.skip(off + cm.len()).take(n2) == quoted(msg));
                        assert(n2 == quoted(msg).len());
                        assert(s =~= pp + quoted(g) + cm + quoted(msg) + "}}"@) by {
                            assert forall|k: int| 0 <= k < s.len() implies s[k] == (pp + quoted(g)
                                + cm + quoted(msg) + "}}"@)[k] by {
                                if k < pp.len() {
                                    assert(s.subrange(0, pp.len() as int)[k] == s[k]);
                                } else if k < off {
                                    assert(s.skip(pp.len() as int).take(n)[k - pp.len()] == s[k]);
                                } else if k < off + cm.len() {
                                    assert(s.subrange(off as int, off + cm.len())[k - off]
                                        == s[k]);
                                } else if k < off3 {
                                    assert(s.skip(off + cm.len()).take(n2)[k - off - cm.len()]
                                        == s[k]);
                                } else {
                                    assert(s.subrange(off3 as int, off3 + "}}"@.len())[k - off3]
                                        == s[k]);
                                }
                            }
                        }
                    }
                }
            }
        }
    }
}

/// Only encodings decode: a line the decoder accepts as a server frame
/// is exactly that frame's payload.
pub proof fn lemma_server_decode_sound(s: Seq<char>)
    ensures
        spec_decode_server(s) matches Some(m) ==> s == server_payload(m),
{
    let mp = "{\"Message\":{\"group_name\":"@;
    let ep = "{\"Error\":"@;
    let cm = ",\"message\":"@;
    reveal_strlit("}}");
    reveal_strlit("}");
    if occurs_at(s, 0, mp) {
        lemma_scan_quoted_sound(s.skip(mp.len() as int));
        if let Some(r) = scan_quoted(s.skip(mp.len() as int)) {
            let g = r.0;
            let n = r.1;
            let off = mp.len() + n;
            if occurs_at(s, off as int, cm) {
                lemma_scan_quoted_sound(s.skip(off + cm.len()));
                if let Some(r2) = scan_quoted(s.skip(off + cm.len())) {
                    let msg = r2.0;
                    let n2 = r2.1;
                    let off3 = off + cm.len() + n2;
                    if occurs_at(s, off3 as int, "}}"@) && s.len() == off3 + 2 {
                        assert(s.skip(mp.len() as int).take(n) == quoted(g));
                        assert(n == quoted(g).len());
                        assert(s.skip(off + cm.len()).take(n2) == quoted(msg));
                        assert(n2 == quoted(msg).len());
                        assert(s =~= mp + quoted(g) + cm + quoted(msg) + "}}"@) by {
                            assert forall|k: int| 0 <= k < s.len() implies s[k] == (mp + quoted(g)
                                + cm + quoted(msg) + "}}"@)[k] by {
                                if k < mp.len() {
                                    assert(s.subrange(0, mp.len() as int)[k] == s[k]);
                                } else if k < off {
                                    assert(s.skip(mp.len() as int).take(n)[k - mp.len()] == s[k]);
                                } else if k < off + cm.len() {
                                    assert(s.subrange(off as int, off + cm.len())[k - off]
                                        == s[k]);
                                } else if k < off3 {
                                    assert(s.skip(off + cm.len()).take(n2)[k - off - cm.len()]
                                        == s[k]);
                                } else {
                                    assert(s.subrange(off3 as int, off3 + "}}"@.len())[k - off3]
                                        == s[k]);
                                }
                            }
                        }
                    }
                }
            }
        }
    } else if occurs_at(s, 0, ep) {
        lemma_scan_quoted_sound(s.skip(ep.len() as int));
        if let Some(r) = scan_quoted(s.skip(ep.len() as int)) {
            let e = r.0;
            let n = r.1;
            if occurs_at(s, ep.len() + n, "}"@) && s.len() == ep.len() + n + 1 {
                assert(s.skip(ep.len() as int).take(n) == quoted(e));
                assert(n == quoted(e).len());
                assert(s =~= ep + quoted(e) + "}"@) by {
                    assert forall|k: int| 0 <= k < s.len() implies s[k] == (ep + quoted(e)
                        + "}"@)[k] by {
                        if k < ep.len() {
                            assert(s.subrange(0, ep.len() as int)[k] == s[k]);
                        } else if k < ep.len() + n {
                            assert(s.skip(ep.len() as int).take(n)[k - ep.len()] == s[k]);
                        } else {
                            assert(s.subrange(ep.len() + n, ep.len() + n + "}"@.len())[k - ep.len()
                                - n] == s[k]);
                        }
                    }
                }
            }
        }
    }
}

/// Escaping never lets a line terminator through.
proof fn lemma_escape_no_newline(g: Seq<char>)
    ensures
        forall|k: int| 0 <= k < escape(g).len() ==> escape(g)[k] != '\n',
    decreases g.len(),
{
    if g.len() > 0 {
        lemma_escape_no_newline(g.drop_first());
        assert forall|k: int| 0 <= k < escape(g).len() implies escape(g)[k] != '\n' by {
            let e = esc_char(g[0]);
            if k < e.len() {
                assert(escape(g)[k] == e[k]);
            } else {
                assert(escape(g)[k] == escape(g.drop_first())[k - e.len()]);
            }
        }
    }
}

/// A quoted string holds no line terminator.
proof fn lemma_quoted_no_newline(g: Seq<char>)
    ensures
        forall|k: int| 0 <= k < quoted(g).len() ==> quoted(g)[k] != '\n',
{
    lemma_escape_no_newline(g);
}

/// A server payload holds no line terminator, so the frame
/// `server_payload(m).push('\n')` that `encode_server` emits is exactly
/// one line: two frames written whole can never blend into a line that
/// fails to decode.
pub proof fn lemma_server_payload_single_line(m: ServerMsg)
    ensures
        forall|k: int| 0 <= k < server_payload(m).len() ==> server_payload(m)[k] != '\n',
{
    reveal_strlit("{\"Message\":{\"group_name\":");
    reveal_strlit("{\"Error\":");
    reveal_strlit(",\"message\":");
    reveal_strlit("}}");
    reveal_strlit("}");
    let s = server_payload(m);
    match m {
        ServerMsg::Message { group_name: g, message: msg } => {
            lemma_quoted_no_newline(g);
            lemma_quoted_no_newline(msg);
            let mp = "{\"Message\":{\"group_name\":"@;
            let cm = ",\"message\":"@;
            assert forall|k: int| 0 <= k < s.len() implies s[k] != '\n' by {
                if k < mp.len() {
                    assert(s[k] == mp[k]);
                } else if k < mp.len() + quoted(g).len() {
                    assert(s[k] == quoted(g)[k - mp.len()]);
                } else if k < mp.len() + quoted(g).len() + cm.len() {
                    assert(s[k] == cm[k - mp.len() - quoted(g).len()]);
                } else if k < mp.len() + quoted(g).len() + cm.len() + quoted(msg).len() {
                    assert(s[k] == quoted(msg)[k - mp.len() - quoted(g).len() - cm.len()]);
                } else {
                    assert(s[k] == "}}"@[k - mp.len() - quoted(g).len() - cm.len() - quoted(
                        msg,
                    ).len()]);
                }
            }
        }
        ServerMsg::Error(e) => {
            lemma_quoted_no_newline(e);
            let ep = "{\"Error\":"@;
            assert forall|k: int| 0 <= k < s.len() implies s[k] != '\n' by {
                if k < ep.len() {
                    assert(s[k] == ep[k]);
                } else if k < ep.len() + quoted(e).len() {
                    assert(s[k] == quoted(e)[k - ep.len()]);
                } else {
                    assert(s[k] == "}"@[k - ep.len() - quoted(e).len()]);
                }
            }
        }
    }
}

/// A client payload holds no line terminator either: every encoded
/// request is exactly one line.
pub proof fn lemma_client_payload_single_line(m: ClientMsg)
    ensures
        forall|k: int| 0 <= k < client_payload(m).len() ==> client_payload(m)[k] != '\n',
{
    reveal_strlit("{\"Join\":{\"group_name\":");
    reveal_strlit("{\"Post\":{\"group_name\":");
    reveal_strlit(",\"message\":");
    reveal_strlit("}}");
    let s = client_payload(m);
    match m {
        ClientMsg::Join { group_name: g } => {
            lemma_quoted_no_newline(g);
            let jp = "{\"Join\":{\"group_name\":"@;
            assert forall|k: int| 0 <= k < s.len() implies s[k] != '\n' by {
                if k < jp.len() {
                    assert(s[k] == jp[k]);
                } else if k < jp.len() + quoted(g).len() {
                    assert(s[k] == quoted(g)[k - jp.len()]);
                } else {
                    assert(s[k] == "}}"@[k - jp.len() - quoted(g).len()]);
                }
            }
        }
        ClientMsg::Post { group_name: g, message: msg } => {
            lemma_quoted_no_newline(g);
            lemma_quoted_no_newline(msg);
            let pp = "{\"Post\":{\"group_name\":"@;
            let cm = ",\"message\":"@;
            assert forall|k: int| 0 <= k < s.len() implies s[k] != '\n' by {
                if k < pp.len() {
                    assert(s[k] == pp[k]);
                } else if k < pp.len() + quoted(g).len() {
                    assert(s[k] == quoted(g)[k - pp.len()]);
                } else if k < pp.len() + quoted(g).len() + cm.len() {
                    assert(s[k] == cm[k - pp.len() - quoted(g).len()]);
                } else if k < pp.len() + quoted(g).len() + cm.len() + quoted(msg).len() {
                    assert(s[k] == quoted(msg)[k - pp.len() - quoted(g).len() - cm.len()]);
                } else {
                    assert(s[k] == "}}"@[k - pp.len() - quoted(g).len() - cm.len() - quoted(
                        msg,
                    ).len()]);
                }
            }
        }
    }
}

} // verus!
