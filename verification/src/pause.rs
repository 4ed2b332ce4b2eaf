//! When the reader hands a paused page to the assistant, and the message
//! that goes with it: the page's printed text (cut to a size the model
//! reads whole), what kind of page it is, its patches and its layout.

use vstd::prelude::*;
use crate::canvas::text;
use crate::num::{decimal, digits};
use crate::rpc::{floor_cut, floor_cut_spec, utf8_bytes, utf8_len};
use crate::strs::chars_of;
use crate::text::{trim, trim_range};

verus! {

/// What a due pause check does.
#[derive(Clone, Copy, PartialEq, Eq, Structural, Debug)]
pub enum PauseStep {
    /// Not yet: nothing armed, not due, or the user is mid-gesture.
    Wait,
    /// A finger is still on the glass: push the deadline out a beat.
    Defer,
    /// No assistant is running: disarm.
    Disarm,
    /// Disarm; the page did not change or holds no ink, so nothing is sent.
    Skip,
    /// Disarm and send the page.
    Send,
}

/// `busy`: a lasso, selection or stroke is under way; `armed`: a pause
/// deadline is set; `due`: it has passed; `touching`: the glass was
/// touched within the idle delay.
pub open spec fn pause_spec(busy: bool, armed: bool, due: bool, touching: bool, agent_up: bool, changed: bool, blank: bool) -> PauseStep {
    if busy || !armed || !due {
        PauseStep::Wait
    } else if touching {
        PauseStep::Defer
    } else if !agent_up {
        PauseStep::Disarm
    } else if !changed || blank {
        PauseStep::Skip
    } else {
        PauseStep::Send
    }
}

pub fn pause_step(busy: bool, armed: bool, due: bool, touching: bool, agent_up: bool, changed: bool, blank: bool) -> (s: PauseStep)
    ensures
        s == pause_spec(busy, armed, due, touching, agent_up, changed, blank),
{
    if busy || !armed || !due {
        PauseStep::Wait
    } else if touching {
        PauseStep::Defer
    } else if !agent_up {
        PauseStep::Disarm
    } else if !changed || blank {
        PauseStep::Skip
    } else {
        PauseStep::Send
    }
}

/// A page is sent only when it changed and holds ink, with an assistant up.
pub proof fn lemma_send_needs_ink(busy: bool, armed: bool, due: bool, touching: bool, agent_up: bool, changed: bool, blank: bool)
    requires
        pause_spec(busy, armed, due, touching, agent_up, changed, blank) == PauseStep::Send,
    ensures
        !busy && armed && due && !touching && agent_up && changed && !blank,
{
}

/// Does the text take more than `n` bytes in UTF-8?
fn exceeds(v: &Vec<char>, n: usize) -> (b: bool)
    ensures
        b == (utf8_bytes(v@) > n),
{
    let mut bytes: usize = 0;
    let mut i: usize = 0;
    while i < v.len()
        invariant
            i <= v@.len(),
            bytes == utf8_bytes(v@.take(i as int)),
            bytes <= n,
        decreases v.len() - i,
    {
        let c = v[i];
        let w: usize = if (c as u32) < 0x80 {
            1
        } else if (c as u32) < 0x800 {
            2
        } else if (c as u32) < 0x10000 {
            3
        } else {
            4
        };
        assert(v@.take(i + 1).drop_last() =~= v@.take(i as int));
        assert(w == utf8_len(v@[i as int]));
        if w > n - bytes {
            proof {
                lemma_bytes_grow(v@, i as int + 1);
            }
            return true;
        }
        bytes = bytes + w;
        i += 1;
    }
    assert(v@.take(v@.len() as int) =~= v@);
    false
}

proof fn lemma_bytes_grow(s: Seq<char>, k: int)
    requires
        0 <= k <= s.len(),
    ensures
        utf8_bytes(s.take(k)) <= utf8_bytes(s),
    decreases s.len() - k,
{
    if k < s.len() {
        lemma_bytes_grow(s, k + 1);
        assert(s.take(k + 1).drop_last() =~= s.take(k));
    } else {
        assert(s.take(k) =~= s);
    }
}

/// The cap on the printed text sent with a page, in bytes.
pub const EXCERPT_MAX: usize = 4500;

/// The printed text sent with a page: cut at a character boundary to at
/// most 4500 bytes and marked "[...]" when longer; a placeholder when it
/// holds nothing but whitespace.
pub open spec fn excerpt_spec(s: Seq<char>) -> Seq<char> {
    let t = if utf8_bytes(s) > 4500 {
        floor_cut_spec(s, 4500) + "\n[...]"@
    } else {
        s
    };
    if trim(t).len() == 0 {
        "(no extractable text on this page)"@
    } else {
        t
    }
}

pub fn page_excerpt(s: &str) -> (r: String)
    ensures
        r@ == excerpt_spec(s@),
{
    let v = chars_of(s);
    let t = if exceeds(&v, EXCERPT_MAX) {
        let mut c = floor_cut(&v, EXCERPT_MAX);
        let tail = chars_of("\n[...]");
        c.extend_from_slice(tail.as_slice());
        c
    } else {
        v
    };
    assert(t@ == if utf8_bytes(s@) > 4500 {
        floor_cut_spec(s@, 4500) + "\n[...]"@
    } else {
        s@
    });
    let (a, b) = trim_range(t.as_slice(), 0, t.len());
    assert(t@.subrange(0, t@.len() as int) =~= t@);
    assert(trim(t@).len() == b - a);
    if a == b {
        let r = String::from_str("(no extractable text on this page)");
        proof {
            reveal_strlit("(no extractable text on this page)");
        }
        r
    } else {
        text(&t)
    }
}

/// What the paused page is.
#[derive(Clone, Copy, PartialEq, Eq, Structural, Debug)]
pub enum PageKind {
    Notebook,
    /// A printed page of the book's PDF (from 0).
    Printed(u64),
    /// A note page inserted in a book.
    Note,
}

pub open spec fn kind_spec(k: PageKind) -> Seq<char> {
    match k {
        PageKind::Notebook => "a notebook page"@,
        PageKind::Printed(p) => "printed page "@ + digits((p + 1) as nat, 10) + " of the PDF"@,
        PageKind::Note => "a blank note page in a book"@,
    }
}

fn put(v: &mut Vec<char>, s: &str)
    ensures
        final(v)@ == old(v)@ + s@,
{
    let t = chars_of(s);
    v.extend_from_slice(t.as_slice());
}

fn put_chars(v: &mut Vec<char>, t: &Vec<char>)
    ensures
        final(v)@ == old(v)@ + t@,
{
    v.extend_from_slice(t.as_slice());
}

pub fn kind_text(k: PageKind) -> (s: String)
    requires
        k matches PageKind::Printed(p) ==> p < u64::MAX,
    ensures
        s@ == kind_spec(k),
{
    let mut v: Vec<char> = Vec::new();
    match k {
        PageKind::Notebook => put(&mut v, "a notebook page"),
        PageKind::Printed(p) => {
            put(&mut v, "printed page ");
            put_chars(&mut v, &decimal(p + 1));
            put(&mut v, " of the PDF");
        },
        PageKind::Note => put(&mut v, "a blank note page in a book"),
    }
    text(&v)
}

/// The message that hands a paused book or notebook page to the
/// assistant: where it is, what kind of page, its printed text, the
/// patches already there and the measured layout.
pub open spec fn book_pause_spec(title: Seq<char>, page: nat, count: nat, kind: Seq<char>, body: Seq<char>, patches: Seq<char>, layout: Seq<char>) -> Seq<char> {
    "\""@ + title + "\" \u{2014} page "@ + digits(page, 10) + " of "@ + digits(count, 10) + " ("@ + kind
        + "). The attached image is the page as the user sees it (half scale), with everyone's ink. The user just paused writing. Extracted text of this page:\n---\n"@
        + body + "\n---\nYour existing patches here: "@ + patches
        + ". Measured layout (page coordinates \u{2014} trust these numbers): "@ + layout
        + " Respond with your canvas_* tools only if it genuinely helps; otherwise reply `pass`."@
}

/// `page` counts from 1.
pub fn book_pause_message(title: &str, page: u64, count: u64, kind: &str, body: &str, patches: &str, layout: &str) -> (s: String)
    ensures
        s@ == book_pause_spec(title@, page as nat, count as nat, kind@, body@, patches@, layout@),
{
    let mut v: Vec<char> = Vec::new();
    put(&mut v, "\"");
    put(&mut v, title);
    put(&mut v, "\" \u{2014} page ");
    put_chars(&mut v, &decimal(page));
    put(&mut v, " of ");
    put_chars(&mut v, &decimal(count));
    put(&mut v, " (");
    put(&mut v, kind);
    put(
        &mut v,
        "). The attached image is the page as the user sees it (half scale), with everyone's ink. The user just paused writing. Extracted text of this page:\n---\n",
    );
    put(&mut v, body);
    put(&mut v, "\n---\nYour existing patches here: ");
    put(&mut v, patches);
    put(&mut v, ". Measured layout (page coordinates \u{2014} trust these numbers): ");
    put(&mut v, layout);
    put(&mut v, " Respond with your canvas_* tools only if it genuinely helps; otherwise reply `pass`.");
    text(&v)
}

} // verus!
