//! Wire protocol of the relay's control frames: one newline-terminated line
//! of text per frame, `VERB argument`.
use vstd::prelude::*;

use crate::text::{
    chars_eq, chars_of, find_char, first_index, lemma_first_index, ltrim, ltrim_start, push_chars,
    rtrim, rtrim_end, trim, is_ws,
};

verus! {

/// The first line sent by a connecting party.
#[derive(Debug, Clone, PartialEq, Eq)]
pub enum ClientFrame {
    /// The host's long-lived control connection for `network_name`.
    Register { network_name: String },
    /// A joiner's request to reach the host registered under `network_name`.
    Connect { network_name: String },
    /// The host's response to a `NEW_MEMBER` notification for `session_id`.
    Accept { session_id: String },
}

/// A line sent by the relay back to a connected party.
#[derive(Debug, Clone, PartialEq, Eq)]
pub enum ServerFrame {
    /// Acknowledges a successful `REGISTER`, or a completed pairing (`OK`).
    Okay,
    /// Sent down the host's control connection when a joiner is waiting.
    NewMember { session_id: String },
    /// Registration/connect rejected (`ERR`).
    Error { message: String },
}

/// Abstract client frames.
pub enum ClientFrameV {
    Register(Seq<char>),
    Connect(Seq<char>),
    Accept(Seq<char>),
}

/// Abstract server frames.
pub enum ServerFrameV {
    Okay,
    NewMember(Seq<char>),
    Error(Seq<char>),
}

impl View for ClientFrame {
    type V = ClientFrameV;

    open spec fn view(&self) -> ClientFrameV {
        match self {
            ClientFrame::Register { network_name } => ClientFrameV::Register(network_name@),
            ClientFrame::Connect { network_name } => ClientFrameV::Connect(network_name@),
            ClientFrame::Accept { session_id } => ClientFrameV::Accept(session_id@),
        }
    }
}

impl View for ServerFrame {
    type V = ServerFrameV;

    open spec fn view(&self) -> ServerFrameV {
        match self {
            ServerFrame::Okay => ServerFrameV::Okay,
            ServerFrame::NewMember { session_id } => ServerFrameV::NewMember(session_id@),
            ServerFrame::Error { message } => ServerFrameV::Error(message@),
        }
    }
}

pub open spec fn verb_register() -> Seq<char> {
    seq!['R', 'E', 'G', 'I', 'S', 'T', 'E', 'R']
}

pub open spec fn verb_connect() -> Seq<char> {
    seq!['C', 'O', 'N', 'N', 'E', 'C', 'T']
}

pub open spec fn verb_accept() -> Seq<char> {
    seq!['A', 'C', 'C', 'E', 'P', 'T']
}

pub open spec fn verb_ok() -> Seq<char> {
    seq!['O', 'K']
}

pub open spec fn verb_new_member() -> Seq<char> {
    seq!['N', 'E', 'W', '_', 'M', 'E', 'M', 'B', 'E', 'R']
}

pub open spec fn verb_err() -> Seq<char> {
    seq!['E', 'R', 'R']
}

fn lit_register() -> (v: Vec<char>)
    ensures
        v@ == verb_register(),
{
    let v = vec!['R', 'E', 'G', 'I', 'S', 'T', 'E', 'R'];
    assert(v@ =~= verb_register());
    v
}

fn lit_connect() -> (v: Vec<char>)
    ensures
        v@ == verb_connect(),
{
    let v = vec!['C', 'O', 'N', 'N', 'E', 'C', 'T'];
    assert(v@ =~= verb_connect());
    v
}

fn lit_accept() -> (v: Vec<char>)
    ensures
        v@ == verb_accept(),
{
    let v = vec!['A', 'C', 'C', 'E', 'P', 'T'];
    assert(v@ =~= verb_accept());
    v
}

fn lit_ok() -> (v: Vec<char>)
    ensures
        v@ == verb_ok(),
{
    let v = vec!['O', 'K'];
    assert(v@ =~= verb_ok());
    v
}

fn lit_new_member() -> (v: Vec<char>)
    ensures
        v@ == verb_new_member(),
{
    let v = vec!['N', 'E', 'W', '_', 'M', 'E', 'M', 'B', 'E', 'R'];
    assert(v@ =~= verb_new_member());
    v
}

fn lit_err() -> (v: Vec<char>)
    ensures
        v@ == verb_err(),
{
    let v = vec!['E', 'R', 'R'];
    assert(v@ =~= verb_err());
    v
}

/// `verb arg\n`.
pub open spec fn framed(verb: Seq<char>, arg: Seq<char>) -> Seq<char> {
    verb + seq![' '] + arg + seq!['\n']
}

/// The line a client frame is sent as.
pub open spec fn client_line(f: ClientFrameV) -> Seq<char> {
    match f {
        ClientFrameV::Register(a) => framed(verb_register(), a),
        ClientFrameV::Connect(a) => framed(verb_connect(), a),
        ClientFrameV::Accept(a) => framed(verb_accept(), a),
    }
}

/// The line a server frame is sent as.
pub open spec fn server_line(f: ServerFrameV) -> Seq<char> {
    match f {
        ServerFrameV::Okay => verb_ok() + seq!['\n'],
        ServerFrameV::NewMember(a) => framed(verb_new_member(), a),
        ServerFrameV::Error(a) => framed(verb_err(), a),
    }
}

/// `(verb, trimmed argument)` of a line split at its first space, once
/// trailing whitespace is removed.
pub open spec fn split_line(line: Seq<char>) -> Option<(Seq<char>, Seq<char>)> {
    let l = rtrim(line);
    match first_index(l, ' ') {
        Some(i) => Some((l.subrange(0, i), trim(l.subrange(i + 1, l.len() as int)))),
        None => None,
    }
}

/// How a client line is read: a known verb and a non-empty argument.
pub open spec fn parse_client_line(line: Seq<char>) -> Option<ClientFrameV> {
    match split_line(line) {
        Some((verb, arg)) => if arg.len() == 0 {
            None
        } else if verb == verb_register() {
            Some(ClientFrameV::Register(arg))
        } else if verb == verb_connect() {
            Some(ClientFrameV::Connect(arg))
        } else if verb == verb_accept() {
            Some(ClientFrameV::Accept(arg))
        } else {
            None
        },
        None => None,
    }
}

/// How a server line is read: `OK`, `NEW_MEMBER` with a non-empty argument,
/// or `ERR` with any message.
pub open spec fn parse_server_line(line: Seq<char>) -> Option<ServerFrameV> {
    if rtrim(line) == verb_ok() {
        Some(ServerFrameV::Okay)
    } else {
        match split_line(line) {
            Some((verb, arg)) => if verb == verb_new_member() && arg.len() > 0 {
                Some(ServerFrameV::NewMember(arg))
            } else if verb == verb_err() {
                Some(ServerFrameV::Error(arg))
            } else {
                None
            },
            None => None,
        }
    }
}

pub open spec fn opt_client_view(o: Option<ClientFrame>) -> Option<ClientFrameV> {
    match o {
        Some(f) => Some(f@),
        None => None,
    }
}

pub open spec fn opt_server_view(o: Option<ServerFrame>) -> Option<ServerFrameV> {
    match o {
        Some(f) => Some(f@),
        None => None,
    }
}

fn framed_string(verb: &[char], arg: &String) -> (s: String)
    ensures
        s@ == framed(verb@, arg@),
{
    let mut s = String::new();
    push_chars(&mut s, verb);
    s.push(' ');
    let a = chars_of(arg.as_str());
    push_chars(&mut s, a.as_slice());
    s.push('\n');
    assert(s@ =~= framed(verb@, arg@));
    s
}

/// Splits a line as [`split_line`] does, returning the verb's end and the
/// argument's bounds within the line's characters.
fn split(cs: &Vec<char>) -> (r: Option<(usize, usize, usize)>)
    ensures
        match r {
            Some((v, a, b)) => v <= a <= b <= cs@.len() && split_line(cs@) == Some(
                (cs@.subrange(0, v as int), cs@.subrange(a as int, b as int)),
            ),
            None => split_line(cs@) is None,
        },
{
    let n = rtrim_end(cs.as_slice(), 0, cs.len());
    assert(cs@.subrange(0, cs@.len() as int) =~= cs@);
    let ghost l = rtrim(cs@);
    let i = find_char(cs.as_slice(), 0, n, ' ');
    if i == n {
        return None;
    }
    let e = rtrim_end(cs.as_slice(), i + 1, n);
    let a = ltrim_start(cs.as_slice(), i + 1, e);
    proof {
        assert(l == cs@.subrange(0, n as int));
        assert(l.subrange(0, i as int) =~= cs@.subrange(0, i as int));
        assert(l.subrange(i + 1, l.len() as int) =~= cs@.subrange(i + 1, n as int));
    }
    Some((i, a, e))
}

impl ClientFrame {
    /// The frame as one line, newline included.
    pub fn encode(&self) -> (s: String)
        ensures
            s@ == client_line(self@),
    {
        match self {
            ClientFrame::Register { network_name } => framed_string(
                lit_register().as_slice(),
                network_name,
            ),
            ClientFrame::Connect { network_name } => framed_string(
                lit_connect().as_slice(),
                network_name,
            ),
            ClientFrame::Accept { session_id } => framed_string(lit_accept().as_slice(), session_id),
        }
    }

    /// Reads one line; `None` for an unknown verb or a missing argument.
    pub fn parse(line: &str) -> (f: Option<ClientFrame>)
        ensures
            opt_client_view(f) == parse_client_line(line@),
    {
        let cs = chars_of(line);
        let (v, a, b) = match split(&cs) {
            Some(t) => t,
            None => {
                return None;
            },
        };
        if a == b {
            return None;
        }
        let arg = crate::text::string_of(&cs.as_slice()[a..b]);
        proof {
            assert(cs@.subrange(a as int, b as int).len() > 0);
        }
        if chars_eq(cs.as_slice(), 0, v, lit_register().as_slice()) {
            Some(ClientFrame::Register { network_name: arg })
        } else if chars_eq(cs.as_slice(), 0, v, lit_connect().as_slice()) {
            Some(ClientFrame::Connect { network_name: arg })
        } else if chars_eq(cs.as_slice(), 0, v, lit_accept().as_slice()) {
            Some(ClientFrame::Accept { session_id: arg })
        } else {
            None
        }
    }
}

impl ServerFrame {
    /// The frame as one line, newline included.
    pub fn encode(&self) -> (s: String)
        ensures
            s@ == server_line(self@),
    {
        match self {
            ServerFrame::Okay => {
                let mut s = String::new();
                push_chars(&mut s, lit_ok().as_slice());
                s.push('\n');
                assert(s@ =~= server_line(self@));
                s
            },
            ServerFrame::NewMember { session_id } => framed_string(
                lit_new_member().as_slice(),
                session_id,
            ),
            ServerFrame::Error { message } => framed_string(lit_err().as_slice(), message),
        }
    }

    /// Reads one line; `None` for anything but the three frames.
    pub fn parse(line: &str) -> (f: Option<ServerFrame>)
        ensures
            opt_server_view(f) == parse_server_line(line@),
    {
        let cs = chars_of(line);
        let n = rtrim_end(cs.as_slice(), 0, cs.len());
        assert(cs@.subrange(0, cs@.len() as int) =~= cs@);
        if chars_eq(cs.as_slice(), 0, n, lit_ok().as_slice()) {
            return Some(ServerFrame::Okay);
        }
        let (v, a, b) = match split(&cs) {
            Some(t) => t,
            None => {
                return None;
            },
        };
        let arg = crate::text::string_of(&cs.as_slice()[a..b]);
        if chars_eq(cs.as_slice(), 0, v, lit_new_member().as_slice()) && a < b {
            Some(ServerFrame::NewMember { session_id: arg })
        } else if chars_eq(cs.as_slice(), 0, v, lit_err().as_slice()) {
            Some(ServerFrame::Error { message: arg })
        } else {
            None
        }
    }
}

proof fn lemma_rtrim_framed(verb: Seq<char>, arg: Seq<char>)
    requires
        arg.len() > 0,
        !is_ws(arg.last()),
    ensures
        rtrim(framed(verb, arg)) == verb + seq![' '] + arg,
{
    let f = framed(verb, arg);
    let g = verb + seq![' '] + arg;
    assert(f.drop_last() =~= g);
    assert(('\n' as u32) == 10);
    assert(is_ws(f.last()));
    assert(g.last() == arg.last());
    assert(rtrim(g) == g);
    assert(rtrim(f) == rtrim(f.drop_last()));
}

proof fn lemma_split_framed(verb: Seq<char>, arg: Seq<char>)
    requires
        arg.len() > 0,
        trim(arg) == arg,
        forall|j: int| 0 <= j < verb.len() ==> #[trigger] verb[j] != ' ',
    ensures
        split_line(framed(verb, arg)) == Some((verb, arg)),
{
    lemma_trimmed_last(arg);
    lemma_rtrim_framed(verb, arg);
    let l = verb + seq![' '] + arg;
    assert(l =~= verb + (seq![' '] + arg));
    crate::text::lemma_first_index_of_prefix(verb, seq![' '] + arg, ' ');
    assert(l.subrange(0, verb.len() as int) =~= verb);
    assert(l.subrange(verb.len() + 1 as int, l.len() as int) =~= arg);
}

/// A trimmed, non-empty text does not end in whitespace.
proof fn lemma_trimmed_last(a: Seq<char>)
    requires
        a.len() > 0,
        trim(a) == a,
    ensures
        !is_ws(a.last()),
{
    if is_ws(a.last()) {
        lemma_rtrim_shorter(a);
        lemma_ltrim_shorter(rtrim(a));
    }
}

proof fn lemma_rtrim_shorter(a: Seq<char>)
    ensures
        rtrim(a).len() <= a.len(),
        a.len() > 0 && is_ws(a.last()) ==> rtrim(a).len() < a.len(),
    decreases a.len(),
{
    if a.len() > 0 && is_ws(a.last()) {
        lemma_rtrim_shorter(a.drop_last());
    }
}

proof fn lemma_ltrim_shorter(a: Seq<char>)
    ensures
        ltrim(a).len() <= a.len(),
    decreases a.len(),
{
    if a.len() > 0 && is_ws(a[0]) {
        lemma_ltrim_shorter(a.drop_first());
    }
}

/// Round trip of client frames: a frame whose argument is non-empty and has no
/// surrounding whitespace is read back exactly as it was written.
pub proof fn law_client_frame_round_trip(f: ClientFrameV)
    requires
        match f {
            ClientFrameV::Register(a) => a.len() > 0 && trim(a) == a,
            ClientFrameV::Connect(a) => a.len() > 0 && trim(a) == a,
            ClientFrameV::Accept(a) => a.len() > 0 && trim(a) == a,
        },
    ensures
        parse_client_line(client_line(f)) == Some(f),
{
    match f {
        ClientFrameV::Register(a) => {
            lemma_split_framed(verb_register(), a);
        },
        ClientFrameV::Connect(a) => {
            lemma_split_framed(verb_connect(), a);
        },
        ClientFrameV::Accept(a) => {
            lemma_split_framed(verb_accept(), a);
        },
    }
}

/// Round trip of server frames: `OK` always, and `NEW_MEMBER`/`ERR` whenever
/// their argument is non-empty and has no surrounding whitespace.
pub proof fn law_server_frame_round_trip(f: ServerFrameV)
    requires
        match f {
            ServerFrameV::Okay => true,
            ServerFrameV::NewMember(a) => a.len() > 0 && trim(a) == a,
            ServerFrameV::Error(a) => a.len() > 0 && trim(a) == a,
        },
    ensures
        parse_server_line(server_line(f)) == Some(f),
{
    match f {
        ServerFrameV::Okay => {
            let l = verb_ok() + seq!['\n'];
            assert(l.drop_last() =~= verb_ok());
            assert(('\n' as u32) == 10);
            assert(('K' as u32) == 75);
            assert(rtrim(verb_ok()) == verb_ok());
            assert(rtrim(l) == verb_ok());
        },
        ServerFrameV::NewMember(a) => {
            lemma_split_framed(verb_new_member(), a);
            lemma_trimmed_last(a);
            lemma_rtrim_framed(verb_new_member(), a);
            assert((verb_new_member() + seq![' '] + a).len() != verb_ok().len());
        },
        ServerFrameV::Error(a) => {
            lemma_split_framed(verb_err(), a);
            lemma_trimmed_last(a);
            lemma_rtrim_framed(verb_err(), a);
            let l = verb_err() + seq![' '] + a;
            assert(l.len() > 2);
        },
    }
}

} // verus!
