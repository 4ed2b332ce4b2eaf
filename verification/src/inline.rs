//! The markdown reader's inline markup: a line's **bold**, `code`,
//! $math$, links and images as styled spans, and LaTeX math as text with
//! real symbols where the face has them and true super/subscripts. Sizes
//! are kept relative to the line's size (code and image labels a little
//! smaller, each script level smaller still and shifted); turning them
//! into pixels is the renderer's business.

use vstd::prelude::*;
use crate::fold::Face;
use crate::mdview::{
    TexSym, TexSymV, tex_spec, tex_symbol, brace_group, brace_group_spec, lemma_brace_group, alpha_end, lemma_alpha_end,
    is_ascii_alpha,
};
use crate::mdview::{find_seq, outside_html, parse_link, parse_link_spec, strip_inline_noise, strip_noise_spec};
use crate::text::{is_ws, join};
use crate::strs::{chars_of, string_of};
use crate::svg::{find_from, lemma_find_from_bounds, words_of};

verus! {

/// How a span's size relates to its line's.
#[derive(Clone, Copy, PartialEq, Eq, Structural, Debug)]
pub enum Shrink {
    /// The line's size.
    Full,
    /// Inline code, a little smaller.
    Code,
    /// An image's label, a little smaller.
    Image,
}

/// A run of text in one style. `scripts` lists the script levels it sits
/// in, outermost first (true: superscript, false: subscript); each level
/// shrinks the text and shifts its baseline.
#[derive(Debug)]
pub struct Span {
    pub text: String,
    pub face: Face,
    pub shrink: Shrink,
    pub underline: bool,
    pub scripts: Vec<bool>,
}

pub struct SpanV {
    pub text: Seq<char>,
    pub face: Face,
    pub shrink: Shrink,
    pub underline: bool,
    pub scripts: Seq<bool>,
}

impl View for Span {
    type V = SpanV;

    open spec fn view(&self) -> SpanV {
        SpanV {
            text: self.text@,
            face: self.face,
            shrink: self.shrink,
            underline: self.underline,
            scripts: self.scripts@,
        }
    }
}

pub open spec fn spans_view(v: Seq<Span>) -> Seq<SpanV> {
    Seq::new(v.len(), |i: int| v[i]@)
}

/// Plain text in the face, at the line's size.
pub open spec fn plain(t: Seq<char>, face: Face) -> SpanV {
    SpanV { text: t, face, shrink: Shrink::Full, underline: false, scripts: Seq::empty() }
}

/// The pending text, if any, closed into a span.
pub open spec fn flushed(out: Seq<SpanV>, buf: Seq<char>, face: Face) -> Seq<SpanV> {
    if buf.len() > 0 {
        out.push(plain(buf, face))
    } else {
        out
    }
}

/// The spans moved one script level in (up: superscript).
pub open spec fn lifted(ss: Seq<SpanV>, up: bool) -> Seq<SpanV> {
    Seq::new(
        ss.len(),
        |k: int|
            SpanV {
                text: ss[k].text,
                face: ss[k].face,
                shrink: ss[k].shrink,
                underline: ss[k].underline,
                scripts: seq![up] + ss[k].scripts,
            },
    )
}

/// A fraction's part in parentheses when it is more than one character
/// and not a command.
pub open spec fn wrap_if(s: Seq<char>) -> Seq<char> {
    if s.len() > 1 && s[0] != '\\' {
        seq!['('] + s + seq![')']
    } else {
        s
    }
}

/// A command's text: its symbol when the face has the glyph (`gl` lists
/// the glyphs it has), else the symbol's fallback; other commands as
/// the symbol table says.
pub open spec fn sym_text(w: Seq<char>, gl: Seq<char>) -> Seq<char> {
    match tex_spec(w) {
        TexSymV::Symbol(c, f) => if gl.contains(c) {
            seq![c]
        } else {
            f
        },
        TexSymV::Text(t) => t,
    }
}

pub open spec fn is_text_cmd(w: Seq<char>) -> bool {
    w == "text"@ || w == "mathrm"@ || w == "mathbf"@ || w == "operatorname"@
}

/// Characters of the text not yet scanned from `i`.
pub open spec fn left(b: Seq<char>, i: int) -> int {
    if 0 <= i < b.len() {
        b.len() - i
    } else {
        0
    }
}

/// Scanning LaTeX `b` from `i` with `buf` pending and `out` done.
pub open spec fn math_scan(b: Seq<char>, i: int, buf: Seq<char>, out: Seq<SpanV>, face: Face, gl: Seq<char>) -> Seq<SpanV>
    decreases b.len(), left(b, i),
{
    if !(0 <= i < b.len()) {
        let o = flushed(out, buf, face);
        if o.len() == 0 {
            seq![plain(Seq::empty(), face)]
        } else {
            o
        }
    } else if b[i] == '\\' {
        let j = alpha_end(b, i + 1);
        let word = b.subrange(i + 1, j);
        proof {
            lemma_alpha_end(b, i + 1);
        }
        if word.len() == 0 {
            if j < b.len() {
                let e = b[j];
                math_scan(b, j + 1, buf.push(if e == ',' || e == ';' || e == '!' { ' ' } else { e }), out, face, gl)
            } else {
                math_scan(b, j, buf, out, face, gl)
            }
        } else if word == "frac"@ {
            let (num, j2) = brace_group_spec(b, j);
            let (den, j3) = brace_group_spec(b, j2);
            proof {
                lemma_brace_group(b, j);
                lemma_brace_group(b, j2);
            }
            math_scan(
                b,
                j3,
                Seq::empty(),
                flushed(out, buf, face) + math_spec(wrap_if(num), face, gl) + seq![plain("/"@, face)] + math_spec(
                    wrap_if(den),
                    face,
                    gl,
                ),
                face,
                gl,
            )
        } else if word == "sqrt"@ {
            let (arg, j2) = brace_group_spec(b, j);
            proof {
                lemma_brace_group(b, j);
            }
            let root = if gl.contains('\u{221A}') {
                "\u{221A}("@
            } else {
                "sqrt("@
            };
            math_scan(
                b,
                j2,
                Seq::empty(),
                flushed(out, buf, face) + seq![plain(root, face)] + math_spec(arg, face, gl) + seq![plain(")"@, face)],
                face,
                gl,
            )
        } else if is_text_cmd(word) {
            let (arg, j2) = brace_group_spec(b, j);
            proof {
                lemma_brace_group(b, j);
            }
            math_scan(b, j2, buf + arg, out, face, gl)
        } else {
            math_scan(b, j, buf + sym_text(word, gl), out, face, gl)
        }
    } else if b[i] == '^' || b[i] == '_' {
        let (grp, j2) = brace_group_spec(b, i + 1);
        proof {
            lemma_brace_group(b, i + 1);
        }
        math_scan(b, j2, Seq::empty(), flushed(out, buf, face) + lifted(math_spec(grp, face, gl), b[i] == '^'), face, gl)
    } else if b[i] == '{' || b[i] == '}' {
        math_scan(b, i + 1, buf, out, face, gl)
    } else if b[i] == '~' {
        math_scan(b, i + 1, buf.push(' '), out, face, gl)
    } else {
        math_scan(b, i + 1, buf.push(b[i]), out, face, gl)
    }
}

/// LaTeX `b` as spans in `face` (never none: an empty formula is one
/// empty span).
pub open spec fn math_spec(b: Seq<char>, face: Face, gl: Seq<char>) -> Seq<SpanV>
    decreases b.len(), b.len() + 1,
{
    math_scan(b, 0, Seq::empty(), Seq::empty(), face, gl)
}


fn text_of(v: &Vec<char>) -> (s: String)
    ensures
        s@ == v@,
{
    let s = string_of(v.as_slice(), 0, v.len());
    assert(s@ =~= v@);
    s
}

fn plain_span(t: &Vec<char>, face: Face) -> (sp: Span)
    ensures
        sp@ == plain(t@, face),
{
    let sp = Span { text: text_of(t), face, shrink: Shrink::Full, underline: false, scripts: Vec::new() };
    assert(sp@.scripts =~= Seq::<bool>::empty());
    sp
}

/// Close the pending text into a span.
fn flush(out: &mut Vec<Span>, buf: &mut Vec<char>, face: Face)
    ensures
        spans_view(final(out)@) == flushed(spans_view(old(out)@), old(buf)@, face),
        final(buf)@ == Seq::<char>::empty(),
{
    if buf.len() > 0 {
        let sp = plain_span(buf, face);
        let ghost before = spans_view(out@);
        out.push(sp);
        assert(spans_view(out@) =~= before.push(plain(old(buf)@, face)));
        *buf = Vec::new();
    }
}

fn push_span(out: &mut Vec<Span>, sp: Span)
    ensures
        spans_view(final(out)@) == spans_view(old(out)@).push(sp@),
{
    let ghost v = sp@;
    out.push(sp);
    assert(spans_view(out@) =~= spans_view(old(out)@).push(v));
}

fn append_spans(out: &mut Vec<Span>, more: Vec<Span>)
    ensures
        spans_view(final(out)@) == spans_view(old(out)@) + spans_view(more@),
{
    let mut m = more;
    let ghost mv = spans_view(m@);
    out.append(&mut m);
    assert(spans_view(out@) =~= spans_view(old(out)@) + mv);
}

fn contains_char(gl: &[char], c: char) -> (b: bool)
    ensures
        b == gl@.contains(c),
{
    let mut i: usize = 0;
    while i < gl.len()
        invariant
            i <= gl@.len(),
            forall|k: int| 0 <= k < i ==> gl@[k] != c,
        decreases gl.len() - i,
    {
        if gl[i] == c {
            return true;
        }
        i += 1;
    }
    false
}

fn sym_chars(word: &Vec<char>, gl: &[char]) -> (t: Vec<char>)
    ensures
        t@ == sym_text(word@, gl@),
{
    let w = text_of(word);
    match tex_symbol(w.as_str()) {
        TexSym::Symbol(c, f) => {
            if contains_char(gl, c) {
                let mut t: Vec<char> = Vec::new();
                t.push(c);
                assert(t@ =~= seq![c]);
                t
            } else {
                chars_of(f.as_str())
            }
        },
        TexSym::Text(t) => chars_of(t.as_str()),
    }
}

fn wrap_if_exec(s: &Vec<char>) -> (r: Vec<char>)
    ensures
        r@ == wrap_if(s@),
{
    if s.len() > 1 && s[0] != '\\' {
        let mut r: Vec<char> = Vec::new();
        r.push('(');
        r.extend_from_slice(s.as_slice());
        r.push(')');
        assert(r@ =~= seq!['('] + s@ + seq![')']);
        r
    } else {
        s.clone()
    }
}

/// Is `w` exactly the text `lit`?
fn same(w: &Vec<char>, lit: &str) -> (b: bool)
    ensures
        b == (w@ == lit@),
{
    let l = chars_of(lit);
    if w.len() != l.len() {
        return false;
    }
    let mut i: usize = 0;
    while i < w.len()
        invariant
            i <= w@.len(),
            w@.len() == l@.len(),
            l@ == lit@,
            forall|k: int| 0 <= k < i ==> w@[k] == l@[k],
        decreases w.len() - i,
    {
        if w[i] != l[i] {
            assert(w@[i as int] != l@[i as int]);
            return false;
        }
        i += 1;
    }
    assert(w@ =~= l@);
    true
}

fn lift(ss: Vec<Span>, up: bool) -> (r: Vec<Span>)
    ensures
        spans_view(r@) == lifted(spans_view(ss@), up),
{
    let ghost sv = spans_view(ss@);
    let mut src = ss;
    let mut rev: Vec<Span> = Vec::new();
    while src.len() > 0
        invariant
            src@.len() + rev@.len() == sv.len(),
            forall|k: int| 0 <= k < src@.len() ==> #[trigger] src@[k]@ == sv[k],
            forall|k: int| 0 <= k < rev@.len() ==> #[trigger] rev@[k]@ == lifted(sv, up)[sv.len() - 1 - k],
        decreases src.len(),
    {
        let ghost last = src@[src@.len() - 1];
        assert(last@ == sv[src@.len() - 1]);
        let s = src.pop().unwrap();
        let mut sc: Vec<bool> = Vec::new();
        sc.push(up);
        let mut rest = s.scripts;
        sc.append(&mut rest);
        let t = Span { text: s.text, face: s.face, shrink: s.shrink, underline: s.underline, scripts: sc };
        assert(t@.scripts =~= seq![up] + sv[src@.len() as int].scripts);
        rev.push(t);
    }
    let mut out: Vec<Span> = Vec::new();
    while rev.len() > 0
        invariant
            out@.len() + rev@.len() == sv.len(),
            forall|k: int| 0 <= k < rev@.len() ==> #[trigger] rev@[k]@ == lifted(sv, up)[sv.len() - 1 - k],
            forall|k: int| 0 <= k < out@.len() ==> #[trigger] out@[k]@ == lifted(sv, up)[k],
        decreases rev.len(),
    {
        let ghost last = rev@[rev@.len() - 1];
        assert(last@ == lifted(sv, up)[sv.len() - 1 - (rev@.len() - 1)]);
        let t = rev.pop().unwrap();
        out.push(t);
    }
    assert(spans_view(out@) =~= lifted(sv, up));
    out
}

/// LaTeX as spans in `face`: commands to symbols (the glyph when `gl`
/// has it, else readable text), `\frac` as a slash between its parts,
/// `\sqrt` with a root sign, `^` and `_` as script levels, braces
/// dropped, `~` and `\,` as spaces. An empty formula is one empty span.
pub fn math_spans(b: &[char], face: Face, gl: &[char]) -> (out: Vec<Span>)
    requires
        b@.len() < usize::MAX - 3,
    ensures
        spans_view(out@) == math_spec(b@, face, gl@),
    decreases b@.len(),
{
    let n = b.len();
    let mut out: Vec<Span> = Vec::new();
    let mut buf: Vec<char> = Vec::new();
    let mut i: usize = 0;
    assert(spans_view(out@) =~= Seq::<SpanV>::empty());
    assert(buf@ =~= Seq::<char>::empty());
    while i < n
        invariant
            n == b@.len(),
            n < usize::MAX - 3,
            i <= n + 2,
            math_spec(b@, face, gl@) == math_scan(b@, i as int, buf@, spans_view(out@), face, gl@),
        decreases n + 2 - i,
    {
        let c = b[i];
        let ghost bi = buf@;
        let ghost oi = spans_view(out@);
        let ghost i0 = i as int;
        if c == '\\' {
            let mut j = i + 1;
            while j < n && (('a' <= b[j] && b[j] <= 'z') || ('A' <= b[j] && b[j] <= 'Z'))
                invariant
                    i < j <= n,
                    n == b@.len(),
                    alpha_end(b@, i + 1) == alpha_end(b@, j as int),
                decreases n - j,
            {
                j += 1;
            }
            proof {
                lemma_alpha_end(b@, i + 1);
            }
            let mut word: Vec<char> = Vec::new();
            let mut k = i + 1;
            while k < j
                invariant
                    i + 1 <= k <= j <= n,
                    n == b@.len(),
                    word@ == b@.subrange(i + 1, k as int),
                decreases j - k,
            {
                word.push(b[k]);
                k += 1;
                assert(word@ =~= b@.subrange(i + 1, k as int));
            }
            if word.len() == 0 {
                if j < n {
                    let e = b[j];
                    buf.push(if e == ',' || e == ';' || e == '!' { ' ' } else { e });
                    i = j + 1;
                } else {
                    i = j;
                }
                assert(math_scan(b@, i0, bi, oi, face, gl@) == math_scan(b@, i as int, buf@, spans_view(out@), face, gl@));
            } else if same(&word, "frac") {
                proof {
                    reveal_strlit("frac");
                }
                let (num, j2) = brace_group(b, j);
                proof {
                    lemma_brace_group(b@, j as int);
                }
                let (den, j3) = brace_group(b, j2);
                proof {
                    lemma_brace_group(b@, j2 as int);
                }
                let wn = wrap_if_exec(&chars_of(num.as_str()));
                let wd = wrap_if_exec(&chars_of(den.as_str()));
                let ghost o0 = spans_view(out@);
                let ghost b0 = buf@;
                flush(&mut out, &mut buf, face);
                let a = math_spans(wn.as_slice(), face, gl);
                append_spans(&mut out, a);
                let slash = chars_of("/");
                push_span(&mut out, plain_span(&slash, face));
                let ghost mid = spans_view(out@);
                let d = math_spans(wd.as_slice(), face, gl);
                append_spans(&mut out, d);
                proof {
                    let f = flushed(oi, bi, face);
                    let ma = math_spec(wrap_if(brace_group_spec(b@, j as int).0), face, gl@);
                    let md = math_spec(wrap_if(brace_group_spec(b@, j2 as int).0), face, gl@);
                    assert(mid =~= (f + ma).push(plain("/"@, face)));
                    assert(spans_view(out@) =~= f + ma + seq![plain("/"@, face)] + md);
                }
                i = j3;
                assert(math_scan(b@, i0, bi, oi, face, gl@) == math_scan(b@, i as int, buf@, spans_view(out@), face, gl@));
            } else if same(&word, "sqrt") {
                let (arg, j2) = brace_group(b, j);
                proof {
                    lemma_brace_group(b@, j as int);
                }
                flush(&mut out, &mut buf, face);
                let root = if contains_char(gl, '\u{221A}') {
                    chars_of("\u{221A}(")
                } else {
                    chars_of("sqrt(")
                };
                push_span(&mut out, plain_span(&root, face));
                let a = math_spans(chars_of(arg.as_str()).as_slice(), face, gl);
                append_spans(&mut out, a);
                let close = chars_of(")");
                let ghost mid = spans_view(out@);
                push_span(&mut out, plain_span(&close, face));
                proof {
                    let f = flushed(oi, bi, face);
                    let root_t = if gl@.contains('\u{221A}') {
                        "\u{221A}("@
                    } else {
                        "sqrt("@
                    };
                    let ma = math_spec(brace_group_spec(b@, j as int).0, face, gl@);
                    assert(mid =~= f.push(plain(root_t, face)) + ma);
                    assert(spans_view(out@) =~= f + seq![plain(root_t, face)] + ma + seq![plain(")"@, face)]);
                }
                i = j2;
                assert(math_scan(b@, i0, bi, oi, face, gl@) == math_scan(b@, i as int, buf@, spans_view(out@), face, gl@));
            } else if same(&word, "text") || same(&word, "mathrm") || same(&word, "mathbf") || same(
                &word,
                "operatorname",
            ) {
                let (arg, j2) = brace_group(b, j);
                proof {
                    lemma_brace_group(b@, j as int);
                }
                let a = chars_of(arg.as_str());
                buf.extend_from_slice(a.as_slice());
                assert(buf@ =~= bi + brace_group_spec(b@, j as int).0);
                i = j2;
                assert(math_scan(b@, i0, bi, oi, face, gl@) == math_scan(b@, i as int, buf@, spans_view(out@), face, gl@));
            } else {
                let t = sym_chars(&word, gl);
                buf.extend_from_slice(t.as_slice());
                assert(buf@ =~= bi + sym_text(word@, gl@));
                i = j;
                assert(math_scan(b@, i0, bi, oi, face, gl@) == math_scan(b@, i as int, buf@, spans_view(out@), face, gl@));
            }
        } else if c == '^' || c == '_' {
            let (grp, j2) = brace_group(b, i + 1);
            proof {
                lemma_brace_group(b@, i + 1);
            }
            flush(&mut out, &mut buf, face);
            let inner = math_spans(chars_of(grp.as_str()).as_slice(), face, gl);
            let l = lift(inner, c == '^');
            append_spans(&mut out, l);
            i = j2;
            assert(math_scan(b@, i0, bi, oi, face, gl@) == math_scan(b@, i as int, buf@, spans_view(out@), face, gl@));
        } else if c == '{' || c == '}' {
            i += 1;
        } else if c == '~' {
            buf.push(' ');
            i += 1;
        } else {
            buf.push(c);
            i += 1;
        }
    }
    flush(&mut out, &mut buf, face);
    if out.len() == 0 {
        let empty: Vec<char> = Vec::new();
        push_span(&mut out, plain_span(&empty, face));
    }
    out
}


/* ---- a line's inline markup ------------------------------------------------ */

pub open spec fn styled(t: Seq<char>, face: Face, shrink: Shrink, underline: bool) -> SpanV {
    SpanV { text: t, face, shrink, underline, scripts: Seq::empty() }
}

pub proof fn lemma_link_after(b: Seq<char>, i: int)
    requires
        0 <= i,
    ensures
        parse_link_spec(b, i) matches Some((l, after)) ==> i < after <= b.len(),
{
    lemma_find_from_bounds(b, seq![']'], i + 1);
    match find_from(b, seq![']'], i + 1) {
        Some(close) => {
            lemma_find_from_bounds(b, seq![')'], close + 2);
        },
        None => {},
    }
}

/// Scanning the (cleaned) line `b` from `i`, with `cur` pending plain
/// text and `out` done.
pub open spec fn inline_scan(b: Seq<char>, i: int, cur: Seq<char>, out: Seq<SpanV>, face: Face, gl: Seq<char>) -> Seq<SpanV>
    decreases left(b, i),
{
    if !(0 <= i < b.len()) {
        flushed(out, cur, face)
    } else {
        let c = b[i];
        let bold = if c == '*' && i + 1 < b.len() && b[i + 1] == '*' {
            find_from(b, seq!['*', '*'], i + 2)
        } else {
            None
        };
        let code = if c == '`' {
            find_from(b, seq!['`'], i + 1)
        } else {
            None
        };
        let math = if c == '$' {
            find_from(b, seq!['$'], i + 1)
        } else {
            None
        };
        let image = if c == '!' && i + 1 < b.len() && b[i + 1] == '[' {
            parse_link_spec(b, i + 1)
        } else {
            None
        };
        let link = if c == '[' {
            parse_link_spec(b, i)
        } else {
            None
        };
        proof {
            lemma_find_from_bounds(b, seq!['*', '*'], i + 2);
            lemma_find_from_bounds(b, seq!['`'], i + 1);
            lemma_find_from_bounds(b, seq!['$'], i + 1);
            lemma_link_after(b, i + 1);
            lemma_link_after(b, i);
        }
        if bold is Some {
            let end = bold->0;
            inline_scan(
                b,
                end + 2,
                Seq::empty(),
                flushed(out, cur, face).push(styled(b.subrange(i + 2, end), Face::Heading, Shrink::Full, false)),
                face,
                gl,
            )
        } else if code is Some {
            let e = code->0;
            inline_scan(
                b,
                e + 1,
                Seq::empty(),
                flushed(out, cur, face).push(styled(b.subrange(i + 1, e), Face::Mono, Shrink::Code, false)),
                face,
                gl,
            )
        } else if math is Some {
            let e = math->0;
            inline_scan(b, e + 1, Seq::empty(), flushed(out, cur, face) + math_spec(b.subrange(i + 1, e), face, gl), face, gl)
        } else if image is Some {
            let (label, after) = image->0;
            inline_scan(
                b,
                after,
                Seq::empty(),
                flushed(out, cur, face).push(styled("[image: "@ + label + "]"@, Face::Mono, Shrink::Image, false)),
                face,
                gl,
            )
        } else if link is Some {
            let (label, after) = link->0;
            inline_scan(
                b,
                after,
                Seq::empty(),
                flushed(out, cur, face).push(styled(label, face, Shrink::Full, true)),
                face,
                gl,
            )
        } else if c == '*' {
            inline_scan(b, i + 1, cur, out, face, gl)
        } else {
            inline_scan(b, i + 1, cur.push(c), out, face, gl)
        }
    }
}

/// A line's inline markup as spans in `face`, after html tags are dropped
/// and whitespace collapsed: **bold** in the heading face, `code` in mono,
/// $math$, ![image](url) as its label, [link](url) underlined (the URL
/// dropped), and a lone `*` (italics) dropped.
pub open spec fn inline_spec(s: Seq<char>, face: Face, gl: Seq<char>) -> Seq<SpanV> {
    inline_scan(strip_noise_spec(s), 0, Seq::empty(), Seq::empty(), face, gl)
}

fn sub_chars(b: &Vec<char>, from: usize, to: usize) -> (r: Vec<char>)
    requires
        from <= to <= b@.len(),
    ensures
        r@ == b@.subrange(from as int, to as int),
{
    let mut r: Vec<char> = Vec::new();
    let mut k = from;
    while k < to
        invariant
            from <= k <= to <= b@.len(),
            r@ == b@.subrange(from as int, k as int),
        decreases to - k,
    {
        r.push(b[k]);
        k += 1;
        assert(r@ =~= b@.subrange(from as int, k as int));
    }
    r
}

fn styled_span(t: &Vec<char>, face: Face, shrink: Shrink, underline: bool) -> (sp: Span)
    ensures
        sp@ == styled(t@, face, shrink, underline),
{
    let sp = Span { text: text_of(t), face, shrink, underline, scripts: Vec::new() };
    assert(sp@.scripts =~= Seq::<bool>::empty());
    sp
}

/// Parse a line's inline markup into styled spans (`gl`: the symbol
/// glyphs the face has, for math).
pub fn parse_inline(s: &str, base_face: Face, gl: &[char]) -> (out: Vec<Span>)
    requires
        s@.len() < usize::MAX - 4,
    ensures
        spans_view(out@) == inline_spec(s@, base_face, gl@),
{
    let cleaned = strip_inline_noise(s);
    let b = chars_of(cleaned.as_str());
    let n = b.len();
    proof {
        lemma_noise_shorter(s@);
    }
    let bold_m = vec!['*', '*'];
    let tick = vec!['`'];
    let dollar = vec!['$'];
    assert(bold_m@ =~= seq!['*', '*']);
    assert(tick@ =~= seq!['`']);
    assert(dollar@ =~= seq!['$']);
    let mut out: Vec<Span> = Vec::new();
    let mut cur: Vec<char> = Vec::new();
    let mut i: usize = 0;
    assert(spans_view(out@) =~= Seq::<SpanV>::empty());
    assert(cur@ =~= Seq::<char>::empty());
    while i < n
        invariant
            n == b@.len(),
            b@ == strip_noise_spec(s@),
            n < usize::MAX - 4,
            bold_m@ == seq!['*', '*'],
            tick@ == seq!['`'],
            dollar@ == seq!['$'],
            i <= n,
            inline_spec(s@, base_face, gl@) == inline_scan(b@, i as int, cur@, spans_view(out@), base_face, gl@),
        decreases n - i,
    {
        let c = b[i];
        let ghost ci = cur@;
        let ghost oi = spans_view(out@);
        let ghost i0 = i as int;
        proof {
            lemma_find_from_bounds(b@, seq!['*', '*'], i + 2);
            lemma_find_from_bounds(b@, seq!['`'], i + 1);
            lemma_find_from_bounds(b@, seq!['$'], i + 1);
            lemma_link_after(b@, i + 1);
            lemma_link_after(b@, i as int);
        }
        let bold = if c == '*' && i + 1 < n && b[i + 1] == '*' {
            find_seq(b.as_slice(), i + 2, bold_m.as_slice())
        } else {
            None
        };
        if let Some(end) = bold {
            flush(&mut out, &mut cur, base_face);
            let t = sub_chars(&b, i + 2, end);
            push_span(&mut out, styled_span(&t, Face::Heading, Shrink::Full, false));
            i = end + 2;
            continue;
        }
        let code = if c == '`' {
            find_seq(b.as_slice(), i + 1, tick.as_slice())
        } else {
            None
        };
        if let Some(e) = code {
            flush(&mut out, &mut cur, base_face);
            let t = sub_chars(&b, i + 1, e);
            push_span(&mut out, styled_span(&t, Face::Mono, Shrink::Code, false));
            i = e + 1;
            continue;
        }
        let math = if c == '$' {
            find_seq(b.as_slice(), i + 1, dollar.as_slice())
        } else {
            None
        };
        if let Some(e) = math {
            flush(&mut out, &mut cur, base_face);
            let t = sub_chars(&b, i + 1, e);
            let m = math_spans(t.as_slice(), base_face, gl);
            append_spans(&mut out, m);
            i = e + 1;
            continue;
        }
        let image = if c == '!' && i + 1 < n && b[i + 1] == '[' {
            parse_link(b.as_slice(), i + 1)
        } else {
            None
        };
        if let Some((label, after)) = image {
            flush(&mut out, &mut cur, base_face);
            let mut t = chars_of("[image: ");
            let l = chars_of(label.as_str());
            t.extend_from_slice(l.as_slice());
            t.push(']');
            assert(t@ =~= "[image: "@ + label@ + "]"@) by {
                reveal_strlit("]");
            }
            push_span(&mut out, styled_span(&t, Face::Mono, Shrink::Image, false));
            i = after;
            continue;
        }
        let link = if c == '[' {
            parse_link(b.as_slice(), i)
        } else {
            None
        };
        if let Some((label, after)) = link {
            flush(&mut out, &mut cur, base_face);
            let t = chars_of(label.as_str());
            push_span(&mut out, styled_span(&t, base_face, Shrink::Full, true));
            i = after;
            continue;
        }
        if c != '*' {
            cur.push(c);
        }
        i += 1;
    }
    flush(&mut out, &mut cur, base_face);
    out
}

pub open spec fn letters(ws: Seq<Seq<char>>) -> int
    decreases ws.len(),
{
    if ws.len() == 0 {
        0
    } else {
        letters(ws.drop_last()) + ws.last().len()
    }
}

proof fn lemma_join_len(ws: Seq<Seq<char>>)
    ensures
        join(ws, seq![' ']).len() == if ws.len() == 0 { 0 } else { letters(ws) + ws.len() - 1 },
    decreases ws.len(),
{
    if ws.len() > 1 {
        lemma_join_len(ws.drop_last());
    } else if ws.len() == 1 {
        assert(ws.drop_last().len() == 0);
        assert(letters(ws.drop_last()) == 0);
    }
}

proof fn lemma_letters_update(ws: Seq<Seq<char>>, w: Seq<char>)
    requires
        ws.len() > 0,
    ensures
        letters(ws.update(ws.len() - 1, w)) == letters(ws) - ws.last().len() + w.len(),
{
    assert(ws.update(ws.len() - 1, w).drop_last() =~= ws.drop_last());
}

proof fn lemma_words_len(x: Seq<char>)
    ensures
        letters(words_of(x)) + words_of(x).len() <= x.len() + 1,
        x.len() > 0 && is_ws(x.last()) ==> letters(words_of(x)) + words_of(x).len() <= x.len(),
        x.len() > 0 && !is_ws(x.last()) ==> words_of(x).len() > 0,
    decreases x.len(),
{
    if x.len() > 0 {
        let xp = x.drop_last();
        lemma_words_len(xp);
        let w = words_of(xp);
        if is_ws(x.last()) {
        } else if x.len() >= 2 && !is_ws(x[x.len() - 2]) && w.len() > 0 {
            lemma_letters_update(w, w.last().push(x.last()));
        } else {
            assert(w.push(seq![x.last()]).drop_last() =~= w);
            if x.len() >= 2 {
                assert(xp.last() == x[x.len() - 2]);
            }
        }
    }
}

proof fn lemma_outside_html_len(s: Seq<char>, depth: int)
    ensures
        outside_html(s, depth).len() <= s.len(),
    decreases s.len(),
{
    if s.len() > 0 {
        let d = if s[0] == '<' {
            depth + 1
        } else if s[0] == '>' && depth > 0 {
            depth - 1
        } else {
            depth
        };
        lemma_outside_html_len(s.drop_first(), d);
    }
}

/// Dropping tags and collapsing whitespace never lengthens the text.
proof fn lemma_noise_shorter(s: Seq<char>)
    ensures
        strip_noise_spec(s).len() <= s.len(),
{
    let x = outside_html(s, 0);
    lemma_outside_html_len(s, 0);
    lemma_words_len(x);
    lemma_join_len(words_of(x));
}

} // verus!
