//! The assistant's event stream, distilled: strict JSON-lines framing of
//! what the child process writes, and the translation of each event into
//! what the UI cares about (text deltas, start and end of a run, one-line
//! notices).

use vstd::prelude::*;
use crate::strs::{chars_of, string_of};
use crate::num::{decimal, int_text, digits};

verus! {

/// What the UI cares about, distilled from the event stream.
#[derive(PartialEq, Eq, Debug)]
pub enum PiEvent {
    /// A chunk of assistant text.
    Delta(String),
    /// The agent started working on a prompt.
    Start,
    /// The agent finished.
    End,
    /// A one-line notice for the log.
    Notice(String),
    /// The process is gone; a human-readable reason.
    Died(String),
}

/// What an event is, mathematically.
pub enum EventV {
    Delta(Seq<char>),
    Start,
    End,
    Notice(Seq<char>),
    Died(Seq<char>),
}

impl View for PiEvent {
    type V = EventV;

    open spec fn view(&self) -> EventV {
        match self {
            PiEvent::Delta(s) => EventV::Delta(s@),
            PiEvent::Start => EventV::Start,
            PiEvent::End => EventV::End,
            PiEvent::Notice(s) => EventV::Notice(s@),
            PiEvent::Died(s) => EventV::Died(s@),
        }
    }
}

/// A value found under one of the tool-argument keys.
#[derive(Debug)]
pub enum ArgValue {
    Text(String),
    Number(u64),
    Other,
}

/// Which app reads the stream: the collaboration app shows only text
/// arguments; the reader also shows numeric ones and looks under more keys.
#[derive(Clone, Copy, PartialEq, Eq, Structural, Debug)]
pub enum Flavor {
    Collab,
    Reader,
}

/// The fields of one event line that the translation reads (each `None`
/// when absent or not a string).
#[derive(Debug)]
pub struct RpcLine {
    /// `type`.
    pub kind: Option<String>,
    /// `assistantMessageEvent.type`.
    pub event_kind: Option<String>,
    /// `assistantMessageEvent.delta`.
    pub delta: Option<String>,
    /// `toolName`.
    pub tool_name: Option<String>,
    /// `args[k]` for each key `k` of `arg_keys`, in that order.
    pub args: Vec<ArgValue>,
    pub error: Option<String>,
    pub method: Option<String>,
    pub title: Option<String>,
    pub message: Option<String>,
    /// `success` is the boolean `false`.
    pub success_false: bool,
}

/// The argument keys tried, most informative first.
pub open spec fn arg_keys_spec(f: Flavor) -> Seq<Seq<char>> {
    match f {
        Flavor::Collab => seq!["command"@, "path"@, "file_path"@, "pattern"@],
        Flavor::Reader => seq!["command"@, "path"@, "file_path"@, "pattern"@, "phrase"@, "id"@],
    }
}

pub fn arg_keys(f: Flavor) -> (v: Vec<&'static str>)
    ensures
        v@.len() == arg_keys_spec(f).len(),
        forall|i: int| 0 <= i < v@.len() ==> (#[trigger] v@[i])@ == arg_keys_spec(f)[i],
{
    let mut v: Vec<&'static str> = Vec::new();
    v.push("command");
    v.push("path");
    v.push("file_path");
    v.push("pattern");
    if f == Flavor::Reader {
        v.push("phrase");
        v.push("id");
    }
    v
}

pub open spec fn opt_text(o: Option<String>) -> Option<Seq<char>> {
    match o {
        Some(s) => Some(s@),
        None => None,
    }
}

/// The text an argument contributes, if it counts for this flavour.
pub open spec fn arg_text(a: ArgValue, f: Flavor) -> Option<Seq<char>> {
    match a {
        ArgValue::Text(s) => Some(s@),
        ArgValue::Number(n) => if f == Flavor::Reader {
            Some(digits(n as nat, 10))
        } else {
            None
        },
        ArgValue::Other => None,
    }
}

/// The first argument that counts, or nothing.
pub open spec fn first_arg(args: Seq<ArgValue>, f: Flavor) -> Seq<char>
    decreases args.len(),
{
    if args.len() == 0 {
        Seq::empty()
    } else {
        match arg_text(args[0], f) {
            Some(t) => t,
            None => first_arg(args.drop_first(), f),
        }
    }
}

/// Bytes of a character in UTF-8.
pub open spec fn utf8_len(c: char) -> int {
    if (c as u32) < 0x80 {
        1
    } else if (c as u32) < 0x800 {
        2
    } else if (c as u32) < 0x10000 {
        3
    } else {
        4
    }
}

/// Bytes of a text in UTF-8.
pub open spec fn utf8_bytes(s: Seq<char>) -> int
    decreases s.len(),
{
    if s.len() == 0 {
        0
    } else {
        utf8_bytes(s.drop_last()) + utf8_len(s.last())
    }
}

/// Can the text be cut to `n` bytes without splitting a character?
pub open spec fn cuttable(s: Seq<char>, n: int) -> bool {
    utf8_bytes(s) <= n || exists|k: int| 0 <= k <= s.len() && utf8_bytes(#[trigger] s.take(k)) == n
}

/// The text cut to at most `n` bytes.
pub open spec fn cut_bytes(s: Seq<char>, n: int) -> Seq<char> {
    if utf8_bytes(s) <= n {
        s
    } else {
        s.take(choose|k: int| 0 <= k <= s.len() && utf8_bytes(#[trigger] s.take(k)) == n)
    }
}

/// The notice for a tool run: "[name] arg", cut to 120 bytes.
pub open spec fn tool_notice(l: RpcLine, f: Flavor) -> Seq<char> {
    let name = match opt_text(l.tool_name) {
        Some(n) => n,
        None => "tool"@,
    };
    cut_bytes(seq!['['] + name + seq![']', ' '] + first_arg(l.args@, f), 120)
}

pub open spec fn or_text(o: Option<String>, d: Seq<char>) -> Seq<char> {
    match o {
        Some(s) => s@,
        None => d,
    }
}

/// Is the method one of the dialogs the app cannot answer?
pub open spec fn is_dialog(m: Seq<char>) -> bool {
    m == "select"@ || m == "confirm"@ || m == "input"@ || m == "editor"@
}

/// What a line means to the UI, and whether a dialog it opened must be
/// dismissed.
pub open spec fn translate_spec(l: RpcLine, f: Flavor) -> (Option<EventV>, bool) {
    let kind = or_text(l.kind, Seq::empty());
    if kind == "agent_start"@ {
        (Some(EventV::Start), false)
    } else if kind == "agent_end"@ {
        (Some(EventV::End), false)
    } else if kind == "message_update"@ {
        if opt_text(l.event_kind) == Some("text_delta"@) && l.delta is Some {
            (Some(EventV::Delta(l.delta.unwrap()@)), false)
        } else {
            (None, false)
        }
    } else if kind == "tool_execution_start"@ {
        (Some(EventV::Notice(tool_notice(l, f))), false)
    } else if kind == "auto_retry_start"@ {
        (Some(EventV::Notice("[retrying after transient error]"@)), false)
    } else if kind == "extension_error"@ {
        (Some(EventV::Notice("[extension error: "@ + or_text(l.error, "?"@) + "]"@)), false)
    } else if kind == "extension_ui_request"@ {
        let m = or_text(l.method, Seq::empty());
        if is_dialog(m) {
            (Some(EventV::Notice("[dismissed dialog: "@ + or_text(l.title, m) + "]"@)), true)
        } else if m == "notify"@ {
            (Some(EventV::Notice("["@ + or_text(l.message, Seq::empty()) + "]"@)), false)
        } else {
            (None, false)
        }
    } else if kind == "response"@ {
        if l.success_false {
            (Some(EventV::Notice("[pi error: "@ + or_text(l.error, "unknown error"@) + "]"@)), false)
        } else {
            (None, false)
        }
    } else {
        (None, false)
    }
}

pub open spec fn opt_event(o: Option<PiEvent>) -> Option<EventV> {
    match o {
        Some(e) => Some(e@),
        None => None,
    }
}

/// Dialogs the headless assistant opens are dismissed, never left
/// waiting: a UI request whose method is `select`, `confirm`, `input` or
/// `editor` is answered with the dismiss flag and the notice
/// "[dismissed dialog: <title, or else the method>]"; any other UI
/// request is not dismissed.
pub proof fn lemma_dialog_requests_dismissed(l: RpcLine, f: Flavor)
    requires
        or_text(l.kind, Seq::empty()) == "extension_ui_request"@,
    ensures
        or_text(l.method, Seq::empty()) == "select"@ ==> translate_spec(l, f) == (
            Some(EventV::Notice("[dismissed dialog: "@ + or_text(l.title, "select"@) + "]"@)),
            true,
        ),
        or_text(l.method, Seq::empty()) == "confirm"@ ==> translate_spec(l, f) == (
            Some(EventV::Notice("[dismissed dialog: "@ + or_text(l.title, "confirm"@) + "]"@)),
            true,
        ),
        or_text(l.method, Seq::empty()) == "input"@ ==> translate_spec(l, f) == (
            Some(EventV::Notice("[dismissed dialog: "@ + or_text(l.title, "input"@) + "]"@)),
            true,
        ),
        or_text(l.method, Seq::empty()) == "editor"@ ==> translate_spec(l, f) == (
            Some(EventV::Notice("[dismissed dialog: "@ + or_text(l.title, "editor"@) + "]"@)),
            true,
        ),
        or_text(l.method, Seq::empty()) != "select"@ && or_text(l.method, Seq::empty()) != "confirm"@ && or_text(
            l.method,
            Seq::empty(),
        ) != "input"@ && or_text(l.method, Seq::empty()) != "editor"@ ==> !translate_spec(l, f).1,
{
    reveal_strlit("extension_ui_request");
    reveal_strlit("agent_start");
    reveal_strlit("agent_end");
    reveal_strlit("message_update");
    reveal_strlit("tool_execution_start");
    reveal_strlit("auto_retry_start");
    reveal_strlit("extension_error");
    let k = "extension_ui_request"@;
    assert(k.len() == 20);
    assert(k[0] == 'e');
    assert(k != "agent_start"@);
    assert(k != "agent_end"@);
    assert(k != "message_update"@);
    assert(k != "tool_execution_start"@) by {
        assert("tool_execution_start"@[0] == 't');
    }
    assert(k != "auto_retry_start"@);
    assert(k != "extension_error"@);
}

/// Does the text equal the literal?
fn is(s: &Vec<char>, lit: &str) -> (b: bool)
    ensures
        b == (s@ == lit@),
{
    let l = chars_of(lit);
    if s.len() != l.len() {
        return false;
    }
    let mut i: usize = 0;
    while i < s.len()
        invariant
            i <= s@.len(),
            s@.len() == l@.len(),
            l@ == lit@,
            forall|j: int| 0 <= j < i ==> s@[j] == l@[j],
        decreases s.len() - i,
    {
        if s[i] != l[i] {
            return false;
        }
        i += 1;
    }
    assert(s@ =~= l@);
    true
}

fn text(v: &Vec<char>) -> (s: String)
    ensures
        s@ == v@,
{
    let s = string_of(v, 0, v.len());
    assert(s@ =~= v@);
    s
}

fn text_or(o: &Option<String>, d: &str) -> (v: Vec<char>)
    ensures
        v@ == or_text(*o, d@),
{
    match o {
        Some(s) => chars_of(s.as_str()),
        None => chars_of(d),
    }
}

fn bracketed(pre: &str, mid: &Vec<char>, post: &str) -> (s: String)
    ensures
        s@ == pre@ + mid@ + post@,
{
    let mut v = chars_of(pre);
    v.extend_from_slice(mid.as_slice());
    let p = chars_of(post);
    v.extend_from_slice(p.as_slice());
    string_of(&v, 0, v.len())
}

proof fn lemma_utf8_len_bounds(c: char)
    ensures
        1 <= utf8_len(c) <= 4,
{
}

proof fn lemma_utf8_take(s: Seq<char>, k: int)
    requires
        0 <= k < s.len(),
    ensures
        utf8_bytes(s.take(k + 1)) == utf8_bytes(s.take(k)) + utf8_len(s[k]),
{
    assert(s.take(k + 1).drop_last() =~= s.take(k));
}

proof fn lemma_utf8_mono(s: Seq<char>, a: int, b: int)
    requires
        0 <= a <= b <= s.len(),
    ensures
        utf8_bytes(s.take(a)) + (b - a) <= utf8_bytes(s.take(b)),
    decreases b - a,
{
    if a < b {
        lemma_utf8_mono(s, a, b - 1);
        lemma_utf8_take(s, b - 1);
        lemma_utf8_len_bounds(s[b - 1]);
    }
}

fn prefix(v: &Vec<char>, n: usize) -> (r: Vec<char>)
    requires
        n <= v@.len(),
    ensures
        r@ == v@.take(n as int),
{
    let mut r: Vec<char> = Vec::new();
    let mut i: usize = 0;
    while i < n
        invariant
            i <= n <= v@.len(),
            r@ =~= v@.take(i as int),
        decreases n - i,
    {
        r.push(v[i]);
        i += 1;
    }
    r
}

/// The text cut to at most `n` bytes (it must not split a character).
fn cut(v: &Vec<char>, n: usize) -> (r: Vec<char>)
    requires
        cuttable(v@, n as int),
        n <= 1000,
    ensures
        r@ == cut_bytes(v@, n as int),
{
    let mut bytes: usize = 0;
    let mut i: usize = 0;
    while i < v.len()
        invariant
            i <= v@.len(),
            n <= 1000,
            cuttable(v@, n as int),
            bytes == utf8_bytes(v@.take(i as int)),
            bytes <= n,
        decreases v.len() - i,
    {
        let c = v[i];
        let w: usize = if (c as u32) < 0x80 {
            1
        } else if (c as u32) < 0x800 {
            2
        } else if (c as u32) < 0x10000 {
            3
        } else {
            4
        };
        proof {
            lemma_utf8_take(v@, i as int);
        }
        if bytes + w > n {
            proof {
                assert(utf8_bytes(v@) > n) by {
                    lemma_utf8_mono(v@, i as int + 1, v@.len() as int);
                    assert(v@.take(v@.len() as int) =~= v@);
                }
                let k = choose|k: int| 0 <= k <= v@.len() && utf8_bytes(#[trigger] v@.take(k)) == n;
                if k < i {
                    lemma_utf8_mono(v@, k + 1, i as int);
                    lemma_utf8_take(v@, k);
                    lemma_utf8_len_bounds(v@[k]);
                    assert(false);
                } else if k > i {
                    lemma_utf8_mono(v@, i as int + 1, k);
                    assert(false);
                }
                assert(k == i);
            }
            return prefix(v, i);
        }
        bytes = bytes + w;
        i += 1;
    }
    assert(v@.take(v@.len() as int) =~= v@);
    prefix(v, v.len())
}

/// Is `k` where the longest prefix of at most `n` bytes ends?
pub open spec fn floor_cut_at(s: Seq<char>, n: int, k: int) -> bool {
    0 <= k <= s.len() && utf8_bytes(s.take(k)) <= n && (k == s.len() || utf8_bytes(s.take(k + 1)) > n)
}

/// The longest prefix of the text that fits in `n` bytes (`n >= 0`).
pub open spec fn floor_cut_spec(s: Seq<char>, n: int) -> Seq<char> {
    s.take(choose|k: int| floor_cut_at(s, n, k))
}

proof fn lemma_floor_cut_unique(s: Seq<char>, n: int, a: int, b: int)
    requires
        floor_cut_at(s, n, a),
        floor_cut_at(s, n, b),
    ensures
        a == b,
{
    if a < b {
        lemma_utf8_mono(s, a + 1, b);
    } else if b < a {
        lemma_utf8_mono(s, b + 1, a);
    }
}

/// The longest prefix of the text that fits in `n` bytes: a cut at the
/// last character boundary at or before byte `n`.
pub fn floor_cut(v: &Vec<char>, n: usize) -> (r: Vec<char>)
    ensures
        r@ == floor_cut_spec(v@, n as int),
{
    let mut bytes: usize = 0;
    let mut i: usize = 0;
    while i < v.len()
        invariant
            i <= v@.len(),
            bytes == utf8_bytes(v@.take(i as int)),
            bytes <= n,
        decreases v.len() - i,
    {
        let c = v[i];
        let w: usize = if (c as u32) < 0x80 {
            1
        } else if (c as u32) < 0x800 {
            2
        } else if (c as u32) < 0x10000 {
            3
        } else {
            4
        };
        proof {
            lemma_utf8_take(v@, i as int);
        }
        if w > n - bytes {
            proof {
                assert(floor_cut_at(v@, n as int, i as int));
                let k = choose|k: int| floor_cut_at(v@, n as int, k);
                lemma_floor_cut_unique(v@, n as int, i as int, k);
            }
            return prefix(v, i);
        }
        bytes = bytes + w;
        i += 1;
    }
    proof {
        assert(floor_cut_at(v@, n as int, v@.len() as int));
        let k = choose|k: int| floor_cut_at(v@, n as int, k);
        lemma_floor_cut_unique(v@, n as int, v@.len() as int, k);
    }
    prefix(v, v.len())
}

/// The first argument that counts.
fn first_arg_text(args: &Vec<ArgValue>, f: Flavor) -> (v: Vec<char>)
    ensures
        v@ == first_arg(args@, f),
{
    let mut i: usize = 0;
    assert(args@.skip(0) =~= args@);
    while i < args.len()
        invariant
            i <= args@.len(),
            first_arg(args@.skip(i as int), f) == first_arg(args@, f),
        decreases args.len() - i,
    {
        assert(args@.skip(i as int)[0] == args@[i as int]);
        assert(args@.skip(i as int).drop_first() =~= args@.skip(i + 1));
        match &args[i] {
            ArgValue::Text(s) => {
                return chars_of(s.as_str());
            },
            ArgValue::Number(n) => {
                if f == Flavor::Reader {
                    return decimal(*n);
                }
            },
            ArgValue::Other => {},
        }
        i += 1;
    }
    Vec::new()
}

/// Can the tool notice of this line be cut to 120 bytes? (Otherwise the
/// cut would split a character.)
pub open spec fn tool_notice_ok(l: RpcLine, f: Flavor) -> bool {
    let name = match opt_text(l.tool_name) {
        Some(n) => n,
        None => "tool"@,
    };
    cuttable(seq!['['] + name + seq![']', ' '] + first_arg(l.args@, f), 120)
}

/// Translate one event line; the flag asks the caller to dismiss the
/// dialog the line opened.
pub fn translate(l: &RpcLine, f: Flavor) -> (r: (Option<PiEvent>, bool))
    requires
        or_text(l.kind, Seq::empty()) == "tool_execution_start"@ ==> tool_notice_ok(*l, f),
    ensures
        (opt_event(r.0), r.1) == translate_spec(*l, f),
{
    let kind = text_or(&l.kind, "");
    proof {
        reveal_strlit("");
        assert(""@ =~= Seq::<char>::empty());
    }
    if is(&kind, "agent_start") {
        (Some(PiEvent::Start), false)
    } else if is(&kind, "agent_end") {
        (Some(PiEvent::End), false)
    } else if is(&kind, "message_update") {
        let ek = match &l.event_kind {
            Some(s) => is(&chars_of(s.as_str()), "text_delta"),
            None => false,
        };
        if ek {
            match &l.delta {
                Some(d) => {
                    let v = chars_of(d.as_str());
                    (Some(PiEvent::Delta(text(&v))), false)
                },
                None => (None, false),
            }
        } else {
            (None, false)
        }
    } else if is(&kind, "tool_execution_start") {
        let name = text_or(&l.tool_name, "tool");
        let arg = first_arg_text(&l.args, f);
        let mut line: Vec<char> = Vec::new();
        line.push('[');
        line.extend_from_slice(name.as_slice());
        line.push(']');
        line.push(' ');
        line.extend_from_slice(arg.as_slice());
        assert(line@ =~= seq!['['] + name@ + seq![']', ' '] + arg@);
        assert(name@ == (match opt_text(l.tool_name) {
            Some(n) => n,
            None => "tool"@,
        }));
        assert(tool_notice_ok(*l, f));
        let c = cut(&line, 120);
        (Some(PiEvent::Notice(text(&c))), false)
    } else if is(&kind, "auto_retry_start") {
        let v = chars_of("[retrying after transient error]");
        (Some(PiEvent::Notice(text(&v))), false)
    } else if is(&kind, "extension_error") {
        let e = text_or(&l.error, "?");
        (Some(PiEvent::Notice(bracketed("[extension error: ", &e, "]"))), false)
    } else if is(&kind, "extension_ui_request") {
        let m = text_or(&l.method, "");
        if is(&m, "select") || is(&m, "confirm") || is(&m, "input") || is(&m, "editor") {
            let t = match &l.title {
                Some(s) => chars_of(s.as_str()),
                None => crate::strs::copy_chars(m.as_slice()),
            };
            (Some(PiEvent::Notice(bracketed("[dismissed dialog: ", &t, "]"))), true)
        } else if is(&m, "notify") {
            let msg = text_or(&l.message, "");
            (Some(PiEvent::Notice(bracketed("[", &msg, "]"))), false)
        } else {
            (None, false)
        }
    } else if is(&kind, "response") {
        if l.success_false {
            let e = text_or(&l.error, "unknown error");
            (Some(PiEvent::Notice(bracketed("[pi error: ", &e, "]"))), false)
        } else {
            (None, false)
        }
    } else {
        (None, false)
    }
}

/// Is there a line feed in the bytes?
pub open spec fn has_newline(b: Seq<u8>) -> bool {
    exists|i: int| 0 <= i < b.len() && b[i] == 10u8
}

/// Position of the first line feed.
pub open spec fn first_newline(b: Seq<u8>) -> int {
    choose|i: int| 0 <= i < b.len() && b[i] == 10u8 && forall|j: int| 0 <= j < i ==> b[j] != 10u8
}

/// A line without its carriage return, if it ends in one.
pub open spec fn strip_cr_spec(l: Seq<u8>) -> Seq<u8> {
    if l.len() > 0 && l.last() == 13u8 {
        l.drop_last()
    } else {
        l
    }
}

/// Take the first complete line out of the buffer (strict JSON lines:
/// split on line feeds only; a trailing carriage return is dropped). The
/// line may be empty; without a complete line the buffer is untouched.
pub fn take_line(buf: &mut Vec<u8>) -> (r: Option<Vec<u8>>)
    ensures
        !has_newline(old(buf)@) ==> r is None && final(buf)@ == old(buf)@,
        has_newline(old(buf)@) ==> {
            let p = first_newline(old(buf)@);
            &&& r is Some
            &&& r.unwrap()@ == strip_cr_spec(old(buf)@.take(p))
            &&& final(buf)@ == old(buf)@.skip(p + 1)
        },
{
    let mut i: usize = 0;
    while i < buf.len()
        invariant
            i <= buf@.len(),
            buf@ == old(buf)@,
            forall|j: int| 0 <= j < i ==> buf@[j] != 10u8,
        decreases buf.len() - i,
    {
        if buf[i] == 10u8 {
            let ghost b0 = buf@;
            assert(has_newline(b0)) by {
                assert(b0[i as int] == 10u8);
            }
            proof {
                let c = choose|c: int| 0 <= c < b0.len() && b0[c] == 10u8 && forall|j: int| 0 <= j < c ==> b0[j] != 10u8;
                assert(c == i) by {
                    if c < i {
                        assert(b0[c] != 10u8);
                    } else if c > i {
                        assert(b0[i as int] != 10u8);
                    }
                }
            }
            let mut line: Vec<u8> = Vec::new();
            let mut k: usize = 0;
            while k < i
                invariant
                    k <= i,
                    i < b0.len(),
                    buf@ == b0,
                    line@ =~= b0.take(k as int),
                decreases i - k,
            {
                line.push(buf[k]);
                k += 1;
            }
            let mut rest: Vec<u8> = Vec::new();
            let mut m: usize = i + 1;
            while m < buf.len()
                invariant
                    i + 1 <= m <= b0.len(),
                    buf@ == b0,
                    rest@ =~= b0.subrange(i + 1, m as int),
                decreases buf.len() - m,
            {
                rest.push(buf[m]);
                m += 1;
            }
            *buf = rest;
            assert(buf@ =~= b0.skip(i + 1));
            if line.len() > 0 && line[line.len() - 1] == 13u8 {
                line.pop();
            }
            return Some(line);
        }
        i += 1;
    }
    assert(!has_newline(buf@)) by {
        if has_newline(buf@) {
            let j = choose|j: int| 0 <= j < buf@.len() && buf@[j] == 10u8;
            assert(buf@[j] != 10u8);
        }
    }
    None
}

/// Why the process is gone: its exit code (-1 when killed by a signal)
/// when it has exited, else that its output closed.
pub open spec fn died_text_spec(exited: Option<Option<i32>>) -> Seq<char> {
    match exited {
        Some(code) => "exit "@ + int_text(
            match code {
                Some(c) => c as int,
                None => -1,
            },
        ),
        None => "stdout closed"@,
    }
}

pub fn died_text(exited: Option<Option<i32>>) -> (s: String)
    ensures
        s@ == died_text_spec(exited),
{
    match exited {
        Some(code) => {
            let c: i64 = match code {
                Some(c) => c as i64,
                None => -1,
            };
            let d = crate::num::signed_decimal(c);
            proof {
                reveal_strlit("");
            }
            let r = bracketed("exit ", &d, "");
            assert(r@ =~= "exit "@ + d@);
            r
        },
        None => {
            let v = chars_of("stdout closed");
            string_of(&v, 0, v.len())
        },
    }
}

/// The message that hands the assistant a paused page: the context, its
/// existing patches, the measured layout, and what to do.
pub open spec fn pause_message_spec(context: Seq<char>, patches: Seq<char>, layout: Seq<char>) -> Seq<char> {
    context + " (page attached, half scale: multiply image coordinates by 2 for page coordinates). The user just paused. Your existing ink patches: "@
        + patches + ". Measured layout (page coordinates): "@ + layout
        + " If this pause warrants action, act (read code over ssh if needed, then draw); otherwise reply `pass`."@
}

pub fn pause_message(context: &str, patches: &str, layout: &str) -> (s: String)
    ensures
        s@ == pause_message_spec(context@, patches@, layout@),
{
    let mut v = chars_of(context);
    v.extend_from_slice(chars_of(" (page attached, half scale: multiply image coordinates by 2 for page coordinates). The user just paused. Your existing ink patches: ").as_slice());
    v.extend_from_slice(chars_of(patches).as_slice());
    v.extend_from_slice(chars_of(". Measured layout (page coordinates): ").as_slice());
    v.extend_from_slice(chars_of(layout).as_slice());
    v.extend_from_slice(chars_of(" If this pause warrants action, act (read code over ssh if needed, then draw); otherwise reply `pass`.").as_slice());
    text(&v)
}

} // verus!
