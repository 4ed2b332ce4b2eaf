//! The tool socket's framing: a client sends one JSON request per line;
//! what has arrived is split into complete, non-empty lines, and a client
//! that sends too much without a line end is cut off.

use vstd::prelude::*;

verus! {

/// A connection buffering more than this without completing requests is
/// a runaway client and is dropped.
pub const IPC_MAX_BUF: usize = 4194304;

pub fn is_runaway(buffered: usize) -> (b: bool)
    ensures
        b == (buffered > IPC_MAX_BUF),
{
    buffered > IPC_MAX_BUF
}

/// Scanning `s` from `i`, with the current line begun at `start`: the
/// complete non-empty lines met, and what is left after the last line end.
pub open spec fn frame_from(s: Seq<u8>, start: int, i: int) -> (Seq<Seq<u8>>, Seq<u8>)
    decreases s.len() - i,
{
    if i >= s.len() || i < start || start < 0 {
        (Seq::empty(), s.subrange(start, s.len() as int))
    } else if s[i] == 10u8 {
        let (ls, t) = frame_from(s, i + 1, i + 1);
        (if i > start {
            seq![s.subrange(start, i)] + ls
        } else {
            ls
        }, t)
    } else {
        frame_from(s, start, i + 1)
    }
}

/// The requests in a buffer and the unfinished rest.
pub open spec fn frame(s: Seq<u8>) -> (Seq<Seq<u8>>, Seq<u8>) {
    frame_from(s, 0, 0)
}

pub open spec fn no_newline(s: Seq<u8>) -> bool {
    forall|k: int| 0 <= k < s.len() ==> s[k] != 10u8
}

/// Take every complete request line out of the buffer (line feeds end
/// lines; empty lines are skipped); the buffer keeps the unfinished rest.
pub fn take_requests(buf: &mut Vec<u8>) -> (lines: Vec<Vec<u8>>)
    ensures
        (lines@.map_values(|l: Vec<u8>| l@), final(buf)@) == frame(old(buf)@),
        forall|k: int| 0 <= k < lines@.len() ==> (#[trigger] lines@[k])@.len() > 0 && no_newline(lines@[k]@),
        no_newline(final(buf)@),
{
    let ghost s = buf@;
    let n = buf.len();
    let mut out: Vec<Vec<u8>> = Vec::new();
    let mut start: usize = 0;
    let mut i: usize = 0;
    while i < n
        invariant
            0 <= start <= i <= n,
            n == s.len(),
            buf@ == s,
            forall|k: int| start <= k < i ==> s[k] != 10u8,
            forall|k: int| 0 <= k < out@.len() ==> (#[trigger] out@[k])@.len() > 0 && no_newline(out@[k]@),
            frame(s) == (out@.map_values(|l: Vec<u8>| l@) + frame_from(s, start as int, i as int).0, frame_from(
                s,
                start as int,
                i as int,
            ).1),
        decreases n - i,
    {
        if buf[i] == 10u8 {
            let ghost before = out@.map_values(|l: Vec<u8>| l@);
            if i > start {
                let mut line: Vec<u8> = Vec::new();
                let mut k: usize = start;
                while k < i
                    invariant
                        start <= k <= i,
                        i < n,
                        n == s.len(),
                        buf@ == s,
                        line@ == s.subrange(start as int, k as int),
                    decreases i - k,
                {
                    line.push(buf[k]);
                    assert(s.subrange(start as int, k + 1) =~= s.subrange(start as int, k as int).push(s[k as int]));
                    k += 1;
                }
                out.push(line);
                proof {
                    assert(out@.map_values(|l: Vec<u8>| l@) =~= before + seq![s.subrange(start as int, i as int)]);
                }
            }
            proof {
                let (ls, t) = frame_from(s, i + 1, i + 1);
                if i > start {
                    assert(before + (seq![s.subrange(start as int, i as int)] + ls) =~= (before + seq![s.subrange(
                        start as int,
                        i as int,
                    )]) + ls);
                }
            }
            start = i + 1;
        }
        i += 1;
    }
    let mut rest: Vec<u8> = Vec::new();
    let mut k: usize = start;
    while k < n
        invariant
            start <= k <= n,
            n == s.len(),
            buf@ == s,
            rest@ == s.subrange(start as int, k as int),
        decreases n - k,
    {
        rest.push(buf[k]);
        assert(s.subrange(start as int, k + 1) =~= s.subrange(start as int, k as int).push(s[k as int]));
        k += 1;
    }
    proof {
        assert(out@.map_values(|l: Vec<u8>| l@) + Seq::<Seq<u8>>::empty() =~= out@.map_values(|l: Vec<u8>| l@));
    }
    *buf = rest;
    out
}

} // verus!
