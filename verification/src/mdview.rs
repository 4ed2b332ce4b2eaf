//! Inline pieces of the markdown reader: heading anchors, table-cell
//! noise, LaTeX symbol names, brace groups, links and list markers, and
//! packing laid-out lines into pages.

use vstd::prelude::*;
use crate::strs::{chars_of, string_of};
use crate::text::{is_ws, trim_end, is_ascii_digit, join, matches_at, trim_end_at};
use crate::svg::{find_from, lemma_find_from_bounds, words_of};

verus! {

/// Is `w` exactly the text `lit`?
fn is_word(w: &Vec<char>, lit: &str) -> (b: bool)
    ensures
        b == (w@ == lit@),
{
    let l = chars_of(lit);
    if w.len() != l.len() {
        return false;
    }
    let m = matches_at(w, 0, &l);
    proof {
        if m {
            assert(w@ =~= l@);
        } else if w@ == l@ {
            assert(w@.subrange(0, l@.len() as int) =~= l@);
        }
    }
    m
}

/// The symbol a LaTeX command names, with the ASCII text shown when the
/// face has no glyph for it.
pub open spec fn tex_table(w: Seq<char>) -> Option<(char, Seq<char>)> {
    if w == "approx"@ {
        Some(('\u{2248}', "~"@))
    } else if w == "sim"@ {
        Some(('\u{223C}', "~"@))
    } else if w == "cdot"@ {
        Some(('\u{00B7}', "*"@))
    } else if w == "times"@ {
        Some(('\u{00D7}', "x"@))
    } else if w == "pm"@ {
        Some(('\u{00B1}', "+/-"@))
    } else if w == "mp"@ {
        Some(('\u{2213}', "-/+"@))
    } else if w == "le"@ || w == "leq"@ {
        Some(('\u{2264}', "<="@))
    } else if w == "ge"@ || w == "geq"@ {
        Some(('\u{2265}', ">="@))
    } else if w == "ne"@ || w == "neq"@ {
        Some(('\u{2260}', "!="@))
    } else if w == "infty"@ {
        Some(('\u{221E}', "inf"@))
    } else if w == "sum"@ {
        Some(('\u{03A3}', "sum"@))
    } else if w == "prod"@ {
        Some(('\u{03A0}', "prod"@))
    } else if w == "int"@ {
        Some(('\u{222B}', "integral"@))
    } else if w == "partial"@ {
        Some(('\u{2202}', "d"@))
    } else if w == "nabla"@ {
        Some(('\u{2207}', "grad"@))
    } else if w == "propto"@ {
        Some(('\u{221D}', "prop-to"@))
    } else if w == "in"@ {
        Some(('\u{2208}', "in"@))
    } else if w == "to"@ || w == "rightarrow"@ {
        Some(('\u{2192}', "->"@))
    } else if w == "leftarrow"@ {
        Some(('\u{2190}', "<-"@))
    } else if w == "Rightarrow"@ || w == "implies"@ {
        Some(('\u{21D2}', "=>"@))
    } else if w == "ell"@ {
        Some(('\u{2113}', "l"@))
    } else if w == "prime"@ {
        Some(('\u{2032}', "'"@))
    } else if w == "dots"@ || w == "ldots"@ || w == "cdots"@ {
        Some(('\u{2026}', "..."@))
    } else if w == "alpha"@ {
        Some(('\u{03B1}', "alpha"@))
    } else if w == "beta"@ {
        Some(('\u{03B2}', "beta"@))
    } else if w == "gamma"@ {
        Some(('\u{03B3}', "gamma"@))
    } else if w == "delta"@ {
        Some(('\u{03B4}', "delta"@))
    } else if w == "epsilon"@ || w == "varepsilon"@ {
        Some(('\u{03B5}', "eps"@))
    } else if w == "zeta"@ {
        Some(('\u{03B6}', "zeta"@))
    } else if w == "eta"@ {
        Some(('\u{03B7}', "eta"@))
    } else if w == "theta"@ {
        Some(('\u{03B8}', "theta"@))
    } else if w == "iota"@ {
        Some(('\u{03B9}', "iota"@))
    } else if w == "kappa"@ {
        Some(('\u{03BA}', "kappa"@))
    } else if w == "lambda"@ {
        Some(('\u{03BB}', "lambda"@))
    } else if w == "mu"@ {
        Some(('\u{03BC}', "mu"@))
    } else if w == "nu"@ {
        Some(('\u{03BD}', "nu"@))
    } else if w == "xi"@ {
        Some(('\u{03BE}', "xi"@))
    } else if w == "pi"@ {
        Some(('\u{03C0}', "pi"@))
    } else if w == "rho"@ {
        Some(('\u{03C1}', "rho"@))
    } else if w == "sigma"@ {
        Some(('\u{03C3}', "sigma"@))
    } else if w == "tau"@ {
        Some(('\u{03C4}', "tau"@))
    } else if w == "upsilon"@ {
        Some(('\u{03C5}', "u"@))
    } else if w == "phi"@ || w == "varphi"@ {
        Some(('\u{03C6}', "phi"@))
    } else if w == "chi"@ {
        Some(('\u{03C7}', "chi"@))
    } else if w == "psi"@ {
        Some(('\u{03C8}', "psi"@))
    } else if w == "omega"@ {
        Some(('\u{03C9}', "omega"@))
    } else if w == "Gamma"@ {
        Some(('\u{0393}', "Gamma"@))
    } else if w == "Delta"@ {
        Some(('\u{0394}', "Delta"@))
    } else if w == "Theta"@ {
        Some(('\u{0398}', "Theta"@))
    } else if w == "Lambda"@ {
        Some(('\u{039B}', "Lambda"@))
    } else if w == "Xi"@ {
        Some(('\u{039E}', "Xi"@))
    } else if w == "Pi"@ {
        Some(('\u{03A0}', "Pi"@))
    } else if w == "Sigma"@ {
        Some(('\u{03A3}', "Sigma"@))
    } else if w == "Phi"@ {
        Some(('\u{03A6}', "Phi"@))
    } else if w == "Psi"@ {
        Some(('\u{03A8}', "Psi"@))
    } else if w == "Omega"@ {
        Some(('\u{03A9}', "Omega"@))
    } else {
        None
    }
}

/// What a LaTeX command shows as.
pub enum TexSym {
    /// This glyph, or the fallback text when the face lacks it.
    Symbol(char, String),
    /// This text.
    Text(String),
}

pub enum TexSymV {
    Symbol(char, Seq<char>),
    Text(Seq<char>),
}

impl View for TexSym {
    type V = TexSymV;

    open spec fn view(&self) -> TexSymV {
        match self {
            TexSym::Symbol(c, f) => TexSymV::Symbol(*c, f@),
            TexSym::Text(t) => TexSymV::Text(t@),
        }
    }
}

/// A LaTeX command name as display text: a symbol from the table;
/// nothing for sizing commands; two spaces for a quad; otherwise the
/// command's own name.
pub open spec fn tex_spec(w: Seq<char>) -> TexSymV {
    match tex_table(w) {
        Some((c, f)) => TexSymV::Symbol(c, f),
        None => if w == "left"@ || w == "right"@ || w == "displaystyle"@ || w == "limits"@ {
            TexSymV::Text(Seq::empty())
        } else if w == "quad"@ || w == "qquad"@ {
            TexSymV::Text("  "@)
        } else {
            TexSymV::Text(w)
        },
    }
}

fn tex_lookup(w: &Vec<char>) -> (r: Option<(char, &'static str)>)
    ensures
        match r {
            Some((c, f)) => tex_table(w@) == Some((c, f@)),
            None => tex_table(w@) is None,
        },
{
    if is_word(&w, "approx") {
        Some(('\u{2248}', "~"))
    } else if is_word(&w, "sim") {
        Some(('\u{223C}', "~"))
    } else if is_word(&w, "cdot") {
        Some(('\u{00B7}', "*"))
    } else if is_word(&w, "times") {
        Some(('\u{00D7}', "x"))
    } else if is_word(&w, "pm") {
        Some(('\u{00B1}', "+/-"))
    } else if is_word(&w, "mp") {
        Some(('\u{2213}', "-/+"))
    } else if is_word(&w, "le") || is_word(&w, "leq") {
        Some(('\u{2264}', "<="))
    } else if is_word(&w, "ge") || is_word(&w, "geq") {
        Some(('\u{2265}', ">="))
    } else if is_word(&w, "ne") || is_word(&w, "neq") {
        Some(('\u{2260}', "!="))
    } else if is_word(&w, "infty") {
        Some(('\u{221E}', "inf"))
    } else if is_word(&w, "sum") {
        Some(('\u{03A3}', "sum"))
    } else if is_word(&w, "prod") {
        Some(('\u{03A0}', "prod"))
    } else if is_word(&w, "int") {
        Some(('\u{222B}', "integral"))
    } else if is_word(&w, "partial") {
        Some(('\u{2202}', "d"))
    } else if is_word(&w, "nabla") {
        Some(('\u{2207}', "grad"))
    } else if is_word(&w, "propto") {
        Some(('\u{221D}', "prop-to"))
    } else if is_word(&w, "in") {
        Some(('\u{2208}', "in"))
    } else if is_word(&w, "to") || is_word(&w, "rightarrow") {
        Some(('\u{2192}', "->"))
    } else if is_word(&w, "leftarrow") {
        Some(('\u{2190}', "<-"))
    } else if is_word(&w, "Rightarrow") || is_word(&w, "implies") {
        Some(('\u{21D2}', "=>"))
    } else if is_word(&w, "ell") {
        Some(('\u{2113}', "l"))
    } else if is_word(&w, "prime") {
        Some(('\u{2032}', "'"))
    } else if is_word(&w, "dots") || is_word(&w, "ldots") || is_word(&w, "cdots") {
        Some(('\u{2026}', "..."))
    } else if is_word(&w, "alpha") {
        Some(('\u{03B1}', "alpha"))
    } else if is_word(&w, "beta") {
        Some(('\u{03B2}', "beta"))
    } else if is_word(&w, "gamma") {
        Some(('\u{03B3}', "gamma"))
    } else if is_word(&w, "delta") {
        Some(('\u{03B4}', "delta"))
    } else if is_word(&w, "epsilon") || is_word(&w, "varepsilon") {
        Some(('\u{03B5}', "eps"))
    } else if is_word(&w, "zeta") {
        Some(('\u{03B6}', "zeta"))
    } else if is_word(&w, "eta") {
        Some(('\u{03B7}', "eta"))
    } else if is_word(&w, "theta") {
        Some(('\u{03B8}', "theta"))
    } else if is_word(&w, "iota") {
        Some(('\u{03B9}', "iota"))
    } else if is_word(&w, "kappa") {
        Some(('\u{03BA}', "kappa"))
    } else if is_word(&w, "lambda") {
        Some(('\u{03BB}', "lambda"))
    } else if is_word(&w, "mu") {
        Some(('\u{03BC}', "mu"))
    } else if is_word(&w, "nu") {
        Some(('\u{03BD}', "nu"))
    } else if is_word(&w, "xi") {
        Some(('\u{03BE}', "xi"))
    } else if is_word(&w, "pi") {
        Some(('\u{03C0}', "pi"))
    } else if is_word(&w, "rho") {
        Some(('\u{03C1}', "rho"))
    } else if is_word(&w, "sigma") {
        Some(('\u{03C3}', "sigma"))
    } else if is_word(&w, "tau") {
        Some(('\u{03C4}', "tau"))
    } else if is_word(&w, "upsilon") {
        Some(('\u{03C5}', "u"))
    } else if is_word(&w, "phi") || is_word(&w, "varphi") {
        Some(('\u{03C6}', "phi"))
    } else if is_word(&w, "chi") {
        Some(('\u{03C7}', "chi"))
    } else if is_word(&w, "psi") {
        Some(('\u{03C8}', "psi"))
    } else if is_word(&w, "omega") {
        Some(('\u{03C9}', "omega"))
    } else if is_word(&w, "Gamma") {
        Some(('\u{0393}', "Gamma"))
    } else if is_word(&w, "Delta") {
        Some(('\u{0394}', "Delta"))
    } else if is_word(&w, "Theta") {
        Some(('\u{0398}', "Theta"))
    } else if is_word(&w, "Lambda") {
        Some(('\u{039B}', "Lambda"))
    } else if is_word(&w, "Xi") {
        Some(('\u{039E}', "Xi"))
    } else if is_word(&w, "Pi") {
        Some(('\u{03A0}', "Pi"))
    } else if is_word(&w, "Sigma") {
        Some(('\u{03A3}', "Sigma"))
    } else if is_word(&w, "Phi") {
        Some(('\u{03A6}', "Phi"))
    } else if is_word(&w, "Psi") {
        Some(('\u{03A8}', "Psi"))
    } else if is_word(&w, "Omega") {
        Some(('\u{03A9}', "Omega"))
    } else {
        None
    }
}

fn owned(s: &str) -> (r: String)
    ensures
        r@ == s@,
{
    let cs = chars_of(s);
    string_of(&cs, 0, cs.len())
}

/// A LaTeX symbol command as display text; the caller shows the glyph of
/// a `Symbol` when its face has one, else the fallback.
pub fn tex_symbol(word: &str) -> (s: TexSym)
    ensures
        s@ == tex_spec(word@),
{
    let w = chars_of(word);
    match tex_lookup(&w) {
        Some((c, f)) => TexSym::Symbol(c, owned(f)),
        None => {
            if is_word(&w, "left") || is_word(&w, "right") || is_word(&w, "displaystyle")
                || is_word(&w, "limits") {
                TexSym::Text(String::new())
            } else if is_word(&w, "quad") || is_word(&w, "qquad") {
                TexSym::Text(owned("  "))
            } else {
                TexSym::Text(owned(word))
            }
        },
    }
}

/* ---- groups, links, markers -------------------------------------------- */

pub open spec fn is_ascii_alpha(c: char) -> bool {
    ('a' <= c <= 'z') || ('A' <= c <= 'Z')
}

/// Scanning a braced group from `j` with `depth` braces open: the
/// characters inside the outermost braces and the index after the
/// closing one (or the end).
pub open spec fn brace_scan(b: Seq<char>, j: int, depth: int) -> (Seq<char>, int)
    decreases b.len() - j,
{
    if j < 0 || j >= b.len() || depth <= 0 {
        (Seq::empty(), j)
    } else {
        let d = if b[j] == '{' {
            depth + 1
        } else if b[j] == '}' {
            depth - 1
        } else {
            depth
        };
        let (rest, end) = brace_scan(b, j + 1, d);
        (if d > 0 {
            seq![b[j]] + rest
        } else {
            rest
        }, end)
    }
}

/// End of the run of ASCII letters starting at `j`.
pub open spec fn alpha_end(b: Seq<char>, j: int) -> int
    decreases b.len() - j,
{
    if 0 <= j < b.len() && is_ascii_alpha(b[j]) {
        alpha_end(b, j + 1)
    } else {
        j
    }
}

/// The argument starting at `i` and the index after it: a `{...}` group
/// (nested braces kept), a `\command`, or a single character (nothing
/// past the end).
pub open spec fn brace_group_spec(b: Seq<char>, i: int) -> (Seq<char>, int) {
    if 0 <= i < b.len() && b[i] == '{' {
        brace_scan(b, i + 1, 1)
    } else if 0 <= i < b.len() && b[i] == '\\' {
        let e = alpha_end(b, i + 1);
        (seq!['\\'] + b.subrange(i + 1, e), e)
    } else {
        (if 0 <= i < b.len() {
            seq![b[i]]
        } else {
            Seq::empty()
        }, i + 1)
    }
}

proof fn lemma_brace_scan(b: Seq<char>, j: int, depth: int)
    requires
        0 <= j,
    ensures
        ({
            let (c, e) = brace_scan(b, j, depth);
            c.len() <= e - j && j <= e && (j <= b.len() ==> e <= b.len())
        }),
    decreases b.len() - j,
{
    if !(j >= b.len() || depth <= 0) {
        let d = if b[j] == '{' {
            depth + 1
        } else if b[j] == '}' {
            depth - 1
        } else {
            depth
        };
        lemma_brace_scan(b, j + 1, d);
    }
}

/// A run of letters ends no earlier than it starts, and within the text.
pub proof fn lemma_alpha_end(b: Seq<char>, j: int)
    requires
        0 <= j,
    ensures
        j <= alpha_end(b, j),
        j <= b.len() ==> alpha_end(b, j) <= b.len(),
    decreases b.len() - j,
{
    if 0 <= j < b.len() && is_ascii_alpha(b[j]) {
        lemma_alpha_end(b, j + 1);
    }
}

/// The argument at `i` ends after `i`, and is no longer than what is left
/// of the text (without its braces when braced).
pub proof fn lemma_brace_group(b: Seq<char>, i: int)
    requires
        0 <= i,
    ensures
        ({
            let (g, e) = brace_group_spec(b, i);
            &&& e >= i + 1
            &&& (i < b.len() ==> e <= b.len())
            &&& g.len() <= (if i < b.len() { b.len() - i } else { 0 })
            &&& (i < b.len() && b[i] == '{' ==> g.len() <= b.len() - i - 1)
            &&& (i < b.len() && b[i] == '\\' ==> g.len() > 0 && g[0] == '\\')
            &&& (!(i < b.len() && (b[i] == '{' || b[i] == '\\')) ==> g.len() <= 1)
        }),
{
    if 0 <= i < b.len() && b[i] == '{' {
        lemma_brace_scan(b, i + 1, 1);
    } else if 0 <= i < b.len() && b[i] == '\\' {
        lemma_alpha_end(b, i + 1);
    }
}

/// The `{...}` group starting at `i` (or a single token when unbraced),
/// and the index after it.
pub fn brace_group(b: &[char], i: usize) -> (r: (String, usize))
    requires
        i < usize::MAX,
    ensures
        (r.0@, r.1 as int) == brace_group_spec(b@, i as int),
{
    if i < b.len() && b[i] == '{' {
        let mut depth: i128 = 1;
        let mut j = i + 1;
        let mut out: Vec<char> = Vec::new();
        while j < b.len() && depth > 0
            invariant
                i < j <= b@.len(),
                1 <= depth + 0 || depth <= 0,
                depth <= j - i,
                depth >= -1,
                brace_scan(b@, i + 1, 1) == ({
                    let (rest, end) = brace_scan(b@, j as int, depth as int);
                    (out@ + rest, end)
                }),
            decreases b.len() - j,
        {
            let c = b[j];
            if c == '{' {
                depth += 1;
            } else if c == '}' {
                depth -= 1;
            }
            if depth > 0 {
                out.push(c);
            }
            proof {
                let (rest, end) = brace_scan(b@, j + 1, depth as int);
                if depth > 0 {
                    assert(out@.drop_last() + (seq![c] + rest) =~= out@ + rest);
                }
            }
            j += 1;
        }
        (string_of(&out, 0, out.len()), j)
    } else if i < b.len() && b[i] == '\\' {
        let mut j = i + 1;
        while j < b.len() && (('a' <= b[j] && b[j] <= 'z') || ('A' <= b[j] && b[j] <= 'Z'))
            invariant
                i < j <= b@.len(),
                alpha_end(b@, i + 1) == alpha_end(b@, j as int),
            decreases b.len() - j,
        {
            j += 1;
        }
        let mut w: Vec<char> = vec!['\\'];
        let mut k = i + 1;
        while k < j
            invariant
                i + 1 <= k <= j <= b@.len(),
                w@ == seq!['\\'] + b@.subrange(i + 1, k as int),
            decreases j - k,
        {
            w.push(b[k]);
            k += 1;
            assert(w@ =~= seq!['\\'] + b@.subrange(i + 1, k as int));
        }
        (string_of(&w, 0, w.len()), j)
    } else {
        let mut w: Vec<char> = Vec::new();
        if i < b.len() {
            w.push(b[i]);
        }
        assert(w@ =~= (if i < b@.len() { seq![b@[i as int]] } else { Seq::<char>::empty() }));
        (string_of(&w, 0, w.len()), i + 1)
    }
}

/// The first occurrence of `seq` in `b` at or after `from`.
pub fn find_seq(b: &[char], from: usize, seq: &[char]) -> (r: Option<usize>)
    requires
        seq@.len() > 0,
    ensures
        match r {
            Some(i) => find_from(b@, seq@, from as int) == Some(i as int),
            None => find_from(b@, seq@, from as int) is None,
        },
{
    let mut i = from;
    while i < b.len() && seq.len() <= b.len() - i
        invariant
            from <= i,
            find_from(b@, seq@, from as int) == find_from(b@, seq@, i as int),
        decreases b.len() - i,
    {
        if matches_at(b, i, seq) {
            return Some(i);
        }
        i += 1;
    }
    None
}

/// A `[label](url)` link at `i`: the label and the index after the `)`.
pub open spec fn parse_link_spec(b: Seq<char>, i: int) -> Option<(Seq<char>, int)> {
    match find_from(b, seq![']'], i + 1) {
        None => None,
        Some(close) => if close + 1 >= b.len() || b[close + 1] != '(' {
            None
        } else {
            match find_from(b, seq![')'], close + 2) {
                None => None,
                Some(paren) => Some((b.subrange(i + 1, close), paren + 1)),
            }
        },
    }
}

/// `[label](url)` at `i` (which points at '['): the label (the URL is
/// dropped) and the index after the link.
pub fn parse_link(b: &[char], i: usize) -> (r: Option<(String, usize)>)
    requires
        i < usize::MAX,
    ensures
        match r {
            Some((l, e)) => parse_link_spec(b@, i as int) == Some((l@, e as int)),
            None => parse_link_spec(b@, i as int) is None,
        },
{
    let close_b = vec![']'];
    let open_p = vec![')'];
    assert(close_b@ =~= seq![']']);
    assert(open_p@ =~= seq![')']);
    let close = match find_seq(b, i + 1, close_b.as_slice()) {
        None => {
            return None;
        },
        Some(c) => c,
    };
    proof {
        lemma_find_from_bounds(b@, seq![']'], i + 1);
        assert(find_from(b@, seq![']'], i + 1) == Some(close as int));
        assert(close + 1 <= b@.len());
    }
    if b.len() - close <= 1 || b[close + 1] != '(' {
        return None;
    }
    let paren = match find_seq(b, close + 2, open_p.as_slice()) {
        None => {
            return None;
        },
        Some(p) => p,
    };
    proof {
        lemma_find_from_bounds(b@, seq![')'], close + 2);
    }
    Some((string_of(b, i + 1, close), paren + 1))
}

/// Number of leading ASCII digits of `t`.
pub open spec fn digit_run(t: Seq<char>) -> int
    decreases t.len(),
{
    if t.len() > 0 && is_ascii_digit(t[0]) {
        1 + digit_run(t.drop_first())
    } else {
        0
    }
}

pub open spec fn has_prefix2(t: Seq<char>, a: char, b: char) -> bool {
    t.len() >= 2 && t[0] == a && t[1] == b
}

/// A list item's marker and the text after it: "- ", "* " and "+ " all
/// give "-"; "N. " with one to three digits gives "N."; otherwise no
/// marker and the whole line.
pub open spec fn list_marker_spec(t: Seq<char>) -> (Option<Seq<char>>, Seq<char>) {
    if has_prefix2(t, '-', ' ') || has_prefix2(t, '*', ' ') || has_prefix2(t, '+', ' ') {
        (Some(seq!['-']), t.skip(2))
    } else {
        let d = digit_run(t);
        if 1 <= d <= 3 && has_prefix2(t.skip(d), '.', ' ') {
            (Some(t.take(d).push('.')), t.skip(d + 2))
        } else {
            (None, t)
        }
    }
}

proof fn lemma_digit_run(t: Seq<char>, k: int)
    requires
        0 <= k <= t.len(),
        forall|j: int| 0 <= j < k ==> is_ascii_digit(#[trigger] t[j]),
    ensures
        digit_run(t) == k + digit_run(t.skip(k)),
    decreases k,
{
    if k > 0 {
        lemma_digit_run(t.drop_first(), k - 1);
        assert(t.drop_first().skip(k - 1) =~= t.skip(k));
    } else {
        assert(t.skip(0) =~= t);
    }
}

/// Split a list item into its marker and its text.
pub fn split_list_marker(t: &str) -> (r: (Option<String>, String))
    ensures
        (match r.0 {
            Some(m) => Some(m@),
            None => None,
        }, r.1@) == list_marker_spec(t@),
{
    let cs = chars_of(t);
    let n = cs.len();
    if n >= 2 && cs[1] == ' ' && (cs[0] == '-' || cs[0] == '*' || cs[0] == '+') {
        let m = vec!['-'];
        return (Some(string_of(&m, 0, 1)), string_of(&cs, 2, n));
    }
    let mut d: usize = 0;
    while d < n && '0' <= cs[d] && cs[d] <= '9'
        invariant
            d <= n == cs@.len(),
            forall|j: int| 0 <= j < d ==> is_ascii_digit(#[trigger] cs@[j]),
        decreases n - d,
    {
        d += 1;
    }
    proof {
        lemma_digit_run(cs@, d as int);
        assert(digit_run(cs@.skip(d as int)) == 0);
    }
    if d >= 1 && d <= 3 && d + 2 <= n && cs[d] == '.' && cs[d + 1] == ' ' {
        let mut m: Vec<char> = Vec::new();
        let mut k: usize = 0;
        while k < d
            invariant
                k <= d <= n,
                n == cs@.len(),
                m@ == cs@.take(k as int),
            decreases d - k,
        {
            m.push(cs[k]);
            k += 1;
            assert(m@ =~= cs@.take(k as int));
        }
        m.push('.');
        return (Some(string_of(&m, 0, m.len())), string_of(&cs, d + 2, n));
    }
    assert(cs@.subrange(0, n as int) =~= cs@);
    (None, string_of(&cs, 0, n))
}

/// A heading without its `{#anchor}` attribute (and the space before it).
pub open spec fn strip_anchor_spec(s: Seq<char>) -> Seq<char> {
    match find_from(s, seq!['{', '#'], 0) {
        Some(i) => trim_end(s.take(i)),
        None => s,
    }
}

pub fn strip_anchor(s: &str) -> (r: String)
    ensures
        r@ == strip_anchor_spec(s@),
{
    let cs = chars_of(s);
    let pat = vec!['{', '#'];
    assert(pat@ =~= seq!['{', '#']);
    match find_seq(&cs, 0, pat.as_slice()) {
        Some(i) => {
            proof {
                lemma_find_from_bounds(cs@, seq!['{', '#'], 0);
            }
            let e = trim_end_at(&cs, 0, i);
            assert(cs@.subrange(0, i as int) =~= cs@.take(i as int));
            string_of(&cs, 0, e)
        },
        None => {
            assert(cs@.subrange(0, cs@.len() as int) =~= cs@);
            string_of(&cs, 0, cs.len())
        },
    }
}

/// Text outside html tags, where a `>` only closes an open tag (a stray
/// `>` is text), with `depth` tags open before `s`.
pub open spec fn outside_html(s: Seq<char>, depth: int) -> Seq<char>
    decreases s.len(),
{
    if s.len() == 0 {
        Seq::empty()
    } else if s[0] == '<' {
        outside_html(s.drop_first(), depth + 1)
    } else if s[0] == '>' && depth > 0 {
        outside_html(s.drop_first(), depth - 1)
    } else if depth == 0 {
        seq![s[0]] + outside_html(s.drop_first(), depth)
    } else {
        outside_html(s.drop_first(), depth)
    }
}

/// A table cell's text: html tags removed, whitespace collapsed.
pub open spec fn strip_noise_spec(s: Seq<char>) -> Seq<char> {
    join(words_of(outside_html(s, 0)), seq![' '])
}

/// Remove html tags and collapse whitespace (for table cells).
pub fn strip_inline_noise(s: &str) -> (r: String)
    ensures
        r@ == strip_noise_spec(s@),
{
    let cs = chars_of(s);
    let mut text: Vec<char> = Vec::new();
    let mut depth: i128 = 0;
    let mut i: usize = 0;
    assert(cs@.skip(0) =~= cs@);
    while i < cs.len()
        invariant
            i <= cs@.len(),
            cs@ == s@,
            0 <= depth <= i,
            outside_html(cs@, 0) == text@ + outside_html(cs@.skip(i as int), depth as int),
        decreases cs.len() - i,
    {
        let c = cs[i];
        assert(cs@.skip(i as int).drop_first() =~= cs@.skip(i + 1));
        assert(cs@.skip(i as int)[0] == c);
        if c == '<' {
            depth += 1;
        } else if c == '>' && depth > 0 {
            depth -= 1;
        } else if depth == 0 {
            let ghost prev = text@;
            text.push(c);
            assert(prev + (seq![c] + outside_html(cs@.skip(i + 1), depth as int)) =~= text@
                + outside_html(cs@.skip(i + 1), depth as int));
        }
        i += 1;
    }
    assert(cs@.skip(i as int) =~= Seq::<char>::empty());
    assert(text@ + Seq::<char>::empty() =~= text@);
    let words = crate::svg::split_words(&text);
    let sep = vec![' '];
    assert(sep@ =~= seq![' ']);
    let joined = crate::text::join_chars(&words, sep.as_slice());
    string_of(&joined, 0, joined.len())
}

/* ---- pages --------------------------------------------------------------- */

/// Packing the first `k` line heights: the pages closed so far, where the
/// open page starts, and how tall it is. A line that does not fit on a
/// page that already holds a line starts the next page.
pub open spec fn pack_state(hs: Seq<i32>, page_h: int, k: int) -> (Seq<(usize, usize)>, int, int)
    decreases k,
{
    if k <= 0 {
        (Seq::empty(), 0, 0)
    } else {
        let (ps, start, h) = pack_state(hs, page_h, k - 1);
        let i = k - 1;
        if h + hs[i] > page_h && i > start {
            (ps.push((start as usize, i as usize)), i, hs[i] as int)
        } else {
            (ps, start, h + hs[i])
        }
    }
}

/// The pages, as index ranges of the lines; at least one page.
pub open spec fn paginate_spec(hs: Seq<i32>, page_h: int) -> Seq<(usize, usize)> {
    let (ps, start, _) = pack_state(hs, page_h, hs.len() as int);
    if start < hs.len() || ps.len() == 0 {
        ps.push((start as usize, hs.len() as usize))
    } else {
        ps
    }
}

/// Pack lines of the given heights into pages at most `page_h` tall (a
/// single line taller than a page gets a page of its own); the pages as
/// index ranges.
pub fn paginate(heights: &[i32], page_h: i32) -> (pages: Vec<(usize, usize)>)
    ensures
        pages@ == paginate_spec(heights@, page_h as int),
{
    let mut pages: Vec<(usize, usize)> = Vec::new();
    let mut start: usize = 0;
    let mut h: i128 = 0;
    let mut i: usize = 0;
    while i < heights.len()
        invariant
            i <= heights@.len(),
            start <= i,
            pack_state(heights@, page_h as int, i as int) == (pages@, start as int, h as int),
            -0x8000_0000 * i <= h <= 0x7fff_ffff * i,
        decreases heights.len() - i,
    {
        let lh = heights[i] as i128;
        if h + lh > page_h as i128 && i > start {
            pages.push((start, i));
            start = i;
            h = 0;
        }
        h = h + lh;
        i += 1;
    }
    if start < heights.len() || pages.len() == 0 {
        pages.push((start, heights.len()));
    }
    pages
}

proof fn lemma_pack_tiles(hs: Seq<i32>, page_h: int, k: int)
    requires
        0 <= k <= hs.len() <= usize::MAX,
    ensures
        ({
            let (ps, start, _) = pack_state(hs, page_h, k);
            &&& 0 <= start <= k
            &&& ps.len() == 0 ==> start == 0
            &&& ps.len() > 0 ==> ps[0].0 == 0 && ps.last().1 == start
            &&& forall|j: int| 0 <= j < ps.len() ==> (#[trigger] ps[j]).0 < ps[j].1
            &&& forall|j: int| 0 <= j < ps.len() - 1 ==> (#[trigger] ps[j]).1 == ps[j + 1].0
        }),
    decreases k,
{
    if k > 0 {
        lemma_pack_tiles(hs, page_h, k - 1);
    }
}

/// The pages tile the lines: the first starts at line 0, each ends where
/// the next starts, the last ends after the last line, and every page but
/// the only page of no lines holds at least one line.
pub proof fn lemma_paginate_tiles(hs: Seq<i32>, page_h: int)
    requires
        hs.len() <= usize::MAX,
    ensures
        ({
            let ps = paginate_spec(hs, page_h);
            &&& ps.len() >= 1
            &&& ps[0].0 == 0
            &&& ps.last().1 == hs.len()
            &&& forall|j: int| 0 <= j < ps.len() - 1 ==> (#[trigger] ps[j]).1 == ps[j + 1].0
            &&& forall|j: int| 0 <= j < ps.len() ==> (#[trigger] ps[j]).0 < ps[j].1 || hs.len() == 0
        }),
{
    lemma_pack_tiles(hs, page_h, hs.len() as int);
}


/* ---- mono blocks --------------------------------------------------------- */

/// Characters per line of a mono block `width` px wide at `adv` px per
/// character (at least 8).
pub open spec fn per_line(width: int, adv: int) -> int {
    let a = if adv < 1 { 1 } else { adv };
    let p = width / a;
    if p < 8 {
        8
    } else {
        p
    }
}

/// The text cut every `per` characters (the last piece may be short).
pub open spec fn chunks_spec(s: Seq<char>, per: int) -> Seq<Seq<char>> {
    Seq::new(
        ((s.len() + per - 1) / per) as nat,
        |k: int| s.subrange(k * per, if (k + 1) * per < s.len() { (k + 1) * per } else { s.len() as int }),
    )
}

/// Hard character-wrap for mono content (code, tables): a line that fits
/// stays whole, a longer one is cut into pieces of the line's capacity.
pub open spec fn hard_wrap_spec(s: Seq<char>, width: int, adv: int) -> Seq<Seq<char>> {
    let per = per_line(width, adv);
    if s.len() <= per {
        seq![s]
    } else {
        chunks_spec(s, per)
    }
}

/// `adv`: the mono face's advance at the block's size, in px.
pub fn hard_wrap_mono(s: &str, width: i32, adv: i32) -> (lines: Vec<String>)
    ensures
        lines.deep_view() == hard_wrap_spec(s@, width as int, adv as int),
{
    let a: i32 = if adv < 1 { 1 } else { adv };
    let per: usize = if width < 8 {
        assert(per_line(width as int, adv as int) == 8) by {
            assert((width as int) / (a as int) < 8) by (nonlinear_arith)
                requires
                    width < 8,
                    a >= 1,
            ;
        }
        8
    } else {
        let p = width / a;
        if p < 8 {
            8
        } else {
            p as usize
        }
    };
    assert(per == per_line(width as int, adv as int));
    let cs = chars_of(s);
    let n = cs.len();
    let mut out: Vec<String> = Vec::new();
    if n <= per {
        out.push(string_of(&cs, 0, n));
        assert(cs@.subrange(0, n as int) =~= s@);
        assert(out.deep_view() =~= seq![s@]);
        return out;
    }
    let ghost total: int = (n as int + per as int - 1) / (per as int);
    assert(1 <= total <= n) by (nonlinear_arith)
        requires
            total == (n as int + per as int - 1) / (per as int),
            n > per,
            per >= 8,
    ;
    let mut k: usize = 0;
    let mut at: usize = 0;
    while at < n
        invariant
            n == cs@.len(),
            cs@ == s@,
            per >= 8,
            per == per_line(width as int, adv as int),
            at <= n,
            at < n ==> at == k * per,
            k <= total,
            total <= n,
            total == (n as int + per as int - 1) / (per as int),
            out.deep_view() =~= chunks_spec(s@, per as int).take(k as int),
            at < n ==> k < total,
            at >= n ==> k == total,
        decreases n - at,
    {
        let end = if n - at > per { at + per } else { n };
        let ghost before = out.deep_view();
        out.push(string_of(&cs, at, end));
        proof {
            assert((k + 1) * per == k * per + per) by (nonlinear_arith);
            assert(out.deep_view() =~= before.push(chunks_spec(s@, per as int)[k as int]));
            assert(chunks_spec(s@, per as int).take(k + 1) =~= chunks_spec(s@, per as int).take(k as int).push(chunks_spec(s@, per as int)[k as int]));
            if at + per < n {
                assert(k + 1 < total) by (nonlinear_arith)
                    requires
                        at == k * per,
                        at + per < n,
                        total == (n as int + per as int - 1) / (per as int),
                        per >= 8,
                ;
            } else {
                assert(k + 1 == total) by (nonlinear_arith)
                    requires
                        at == k * per,
                        at < n,
                        at + per >= n,
                        total == (n as int + per as int - 1) / (per as int),
                        per >= 8,
                ;
            }
        }
        at = end;
        k += 1;
    }
    assert(chunks_spec(s@, per as int).take(total) =~= chunks_spec(s@, per as int));
    out
}

} // verus!
