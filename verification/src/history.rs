//! The local transcript of a conversation: one record per sent message
//! (the user's ink) and per finished reply. The ink is black and white, so
//! it is stored bit-packed (one bit per pixel, 1 = inked) and base64'd;
//! reading a record back gives the entry it was made from.

use vstd::prelude::*;
use crate::conv::{Entry, GrayImg};
use crate::png::{b64_decode, base64_decode};

verus! {

/// How many trailing entries are loaded, to bound memory and scrolling.
pub const MAX_LOAD: usize = 80;

/// Is a gray level ink (darker than mid-gray)?
pub open spec fn inked(v: u8) -> bool {
    v < 128
}

/// Bit `i` of a bit-packed image (least significant bit first); bits
/// past the end read as 0.
pub open spec fn bit_at(bits: Seq<u8>, i: int) -> bool {
    0 <= i / 8 < bits.len() && (bits[i / 8] >> ((i % 8) as u8)) & 1 == 1
}

/// The image as stored: ink becomes black, everything else white.
pub open spec fn threshold(g: Seq<u8>) -> Seq<u8> {
    g.map(|_i, v: u8| if inked(v) { 0u8 } else { 255u8 })
}

proof fn lemma_set_bit(b: u8, k: u8, j: u8)
    requires
        k < 8,
        j < 8,
    ensures
        ((b | (1u8 << k)) >> j) & 1 == if j == k {
            1
        } else {
            (b >> j) & 1
        },
{
    assert(((b | (1u8 << k)) >> j) & 1 == if j == k {
        1
    } else {
        (b >> j) & 1
    }) by (bit_vector)
        requires
            k < 8,
            j < 8,
    ;
}

proof fn lemma_zero_bits(j: u8)
    requires
        j < 8,
    ensures
        (0u8 >> j) & 1 == 0,
{
    assert((0u8 >> j) & 1 == 0) by (bit_vector);
}

proof fn lemma_bit_test(b: u8, k: u8)
    requires
        k < 8,
    ensures
        (b & (1u8 << k) != 0) == ((b >> k) & 1 == 1),
{
    assert((b & (1u8 << k) != 0) == ((b >> k) & 1 == 1)) by (bit_vector)
        requires
            k < 8,
    ;
}

/// Pack an image one bit per pixel (1 = inked), eight pixels per byte,
/// least significant bit first.
pub fn pack_bits(g: &[u8]) -> (out: Vec<u8>)
    ensures
        out@.len() == (g@.len() + 7) / 8,
        forall|i: int| 0 <= i < g@.len() ==> bit_at(out@, i) == inked(#[trigger] g@[i]),
        forall|i: int| g@.len() <= i < 8 * out@.len() ==> !#[trigger] bit_at(out@, i),
{
    let nbytes = g.len() / 8 + if g.len() % 8 == 0 {
        0
    } else {
        1
    };
    let mut out: Vec<u8> = Vec::new();
    while out.len() < nbytes
        invariant
            out@.len() <= nbytes,
            forall|k: int| 0 <= k < out@.len() ==> #[trigger] out@[k] == 0,
        decreases nbytes - out.len(),
    {
        out.push(0);
    }
    proof {
        assert forall|i: int| 0 <= i < 8 * out@.len() implies !#[trigger] bit_at(out@, i) by {
            lemma_zero_bits((i % 8) as u8);
        }
    }
    let mut i: usize = 0;
    while i < g.len()
        invariant
            i <= g@.len(),
            nbytes == (g@.len() + 7) / 8,
            out@.len() == nbytes,
            forall|k: int| 0 <= k < i ==> bit_at(out@, k) == inked(#[trigger] g@[k]),
            forall|k: int| i <= k < 8 * out@.len() ==> !#[trigger] bit_at(out@, k),
        decreases g.len() - i,
    {
        if g[i] < 128 {
            let byte = i / 8;
            let sh = (i % 8) as u8;
            let ghost old_out = out@;
            let nb = out[byte] | (1u8 << sh);
            out.set(byte, nb);
            proof {
                assert forall|k: int| #![trigger bit_at(out@, k)] 0 <= k < 8 * out@.len() && k != i implies bit_at(out@, k)
                    == bit_at(old_out, k) by {
                    if k / 8 == byte as int {
                        lemma_set_bit(old_out[byte as int], sh, (k % 8) as u8);
                    }
                }
                lemma_set_bit(old_out[byte as int], sh, sh);
            }
        }
        i += 1;
    }
    out
}

/// Unpack `n` pixels: inked bits become black (0), the rest white (255).
pub fn unpack_bits(bits: &[u8], n: usize) -> (out: Vec<u8>)
    ensures
        out@.len() == n,
        forall|i: int| 0 <= i < n ==> #[trigger] out@[i] == if bit_at(bits@, i) {
            0u8
        } else {
            255u8
        },
{
    let mut out: Vec<u8> = Vec::new();
    let mut i: usize = 0;
    while i < n
        invariant
            i <= n,
            out@.len() == i,
            forall|k: int| 0 <= k < i ==> #[trigger] out@[k] == if bit_at(bits@, k) {
                0u8
            } else {
                255u8
            },
        decreases n - i,
    {
        let byte = i / 8;
        let set = if byte < bits.len() {
            let sh = (i % 8) as u8;
            proof {
                lemma_bit_test(bits@[byte as int], sh);
            }
            bits[byte] & (1u8 << sh) != 0
        } else {
            false
        };
        out.push(if set {
            0u8
        } else {
            255u8
        });
        i += 1;
    }
    out
}

/// Unpacking what was packed gives back the image as black and white.
pub proof fn lemma_pack_roundtrip(g: Seq<u8>, packed: Seq<u8>, out: Seq<u8>)
    requires
        forall|i: int| 0 <= i < g.len() ==> bit_at(packed, i) == inked(#[trigger] g[i]),
        out.len() == g.len(),
        forall|i: int| 0 <= i < g.len() ==> #[trigger] out[i] == if bit_at(packed, i) {
            0u8
        } else {
            255u8
        },
    ensures
        out == threshold(g),
{
    assert(out =~= threshold(g));
}

/// The entry a stored record describes. `kind` is the record's `k`;
/// a "you" record needs a positive size and its bits (`b`), a "pi"
/// record its text (`t`). Other records are skipped.
pub enum Record {
    You { w: i64, h: i64, bits: Option<String> },
    Pi { text: Option<String> },
    Other,
}

/// The ink image a "you" record decodes to, when it has one.
pub open spec fn you_pixels(w: i64, h: i64, b64: Seq<char>) -> Seq<u8> {
    let n = ((w as i32) * (h as i32)) as usize as int;
    Seq::new(
        n as nat,
        |i: int|
            if bit_at(b64_decode(b64), i) {
                0u8
            } else {
                255u8
            },
    )
}

/// The entry for a record, if it makes one: sizes are read as `i32`
/// (truncating), and a "you" record needs both positive.
pub fn entry_of(r: Record) -> (e: Option<Entry>)
    requires
        r is You ==> ((r->w as i32) > 0 && (r->h as i32) > 0 ==> (r->w as i32) * (r->h as i32)
            <= i32::MAX),
    ensures
        match r {
            Record::You { w, h, bits } => match e {
                Some(Entry::You(img)) => {
                    &&& (w as i32) > 0
                    &&& (h as i32) > 0
                    &&& bits matches Some(b)
                    &&& img.w == w as i32
                    &&& img.h == h as i32
                    &&& img.px@ == you_pixels(w, h, bits->0@)
                },
                Some(_) => false,
                None => !((w as i32) > 0 && (h as i32) > 0 && bits is Some),
            },
            Record::Pi { text } => match e {
                Some(Entry::Pi(t)) => text is Some && t@ == text->0@,
                Some(_) => false,
                None => text is None,
            },
            Record::Other => e is None,
        },
{
    match r {
        Record::You { w, h, bits } => {
            let wi = w as i32;
            let hi = h as i32;
            if wi > 0 && hi > 0 {
                match bits {
                    Some(b) => {
                        let raw = base64_decode(b.as_str());
                        let n = (wi * hi) as usize;
                        let px = unpack_bits(&raw, n);
                        assert(px@ =~= you_pixels(w, h, b@));
                        Some(Entry::You(GrayImg { w: wi, h: hi, px }))
                    },
                    None => None,
                }
            } else {
                None
            }
        },
        Record::Pi { text } => match text {
            Some(t) => Some(Entry::Pi(t)),
            None => None,
        },
        Record::Other => None,
    }
}

/// The most recent `MAX_LOAD` entries of a loaded transcript.
pub fn keep_recent(all: Vec<Entry>) -> (kept: Vec<Entry>)
    ensures
        kept@ == if all@.len() > MAX_LOAD {
            all@.skip(all@.len() - MAX_LOAD)
        } else {
            all@
        },
{
    let n = all.len();
    if n > MAX_LOAD {
        let mut all = all;
        let tail = all.split_off(n - MAX_LOAD);
        tail
    } else {
        all
    }
}

} // verus!
