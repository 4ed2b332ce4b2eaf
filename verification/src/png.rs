//! Minimal 8-bit grayscale PNG encoder and standard base64, with no
//! outside dependencies.
//!
//! The zlib stream inside the PNG uses STORED (uncompressed) deflate
//! blocks: a valid PNG at about one byte per pixel. The snapshots only
//! travel over a local pipe, so compression would buy nothing.

use vstd::prelude::*;
use crate::strs::push_char;

verus! {

/* ---- CRC-32 (reflected, polynomial 0xEDB88320) ---------------------------- */

/// One bit step of the reflected CRC-32 register.
pub open spec fn crc_bit(c: u32) -> u32 {
    if c & 1 != 0 {
        0xEDB8_8320u32 ^ (c >> 1u32)
    } else {
        c >> 1u32
    }
}

/// `n` bit steps.
pub open spec fn crc_bits(c: u32, n: nat) -> u32
    decreases n,
{
    if n == 0 {
        c
    } else {
        crc_bits(crc_bit(c), (n - 1) as nat)
    }
}

/// The register after absorbing one byte.
pub open spec fn crc_byte(c: u32, b: u8) -> u32 {
    crc_bits(c ^ (b as u32), 8)
}

/// The register after absorbing `data`, starting from `c`.
pub open spec fn crc_update(c: u32, data: Seq<u8>) -> u32
    decreases data.len(),
{
    if data.len() == 0 {
        c
    } else {
        crc_byte(crc_update(c, data.drop_last()), data.last())
    }
}

/// The CRC-32 checksum used by PNG (and zip, gzip): initial register all
/// ones, final complement.
pub open spec fn crc32_spec(data: Seq<u8>) -> u32 {
    !crc_update(0xFFFF_FFFFu32, data)
}

fn crc32(data: &[u8]) -> (r: u32)
    ensures
        r == crc32_spec(data@),
{
    let mut c: u32 = 0xFFFF_FFFF;
    let mut i: usize = 0;
    while i < data.len()
        invariant
            i <= data@.len(),
            c == crc_update(0xFFFF_FFFFu32, data@.take(i as int)),
        decreases data.len() - i,
    {
        let c0 = c ^ (data[i] as u32);
        c = c0;
        let mut k: u32 = 0;
        while k < 8
            invariant
                k <= 8,
                c == crc_bits(c0, k as nat),
            decreases 8 - k,
        {
            proof {
                lemma_crc_bits_step(c0, k as nat);
            }
            c = if c & 1 != 0 {
                0xEDB8_8320u32 ^ (c >> 1u32)
            } else {
                c >> 1u32
            };
            k += 1;
        }
        proof {
            assert(data@.take(i + 1).drop_last() == data@.take(i as int));
            assert(data@.take(i + 1).last() == data@[i as int]);
        }
        i += 1;
    }
    assert(data@.take(data@.len() as int) == data@);
    !c
}

proof fn lemma_crc_bits_step(c: u32, n: nat)
    ensures
        crc_bits(c, n + 1) == crc_bit(crc_bits(c, n)),
    decreases n,
{
    if n == 0 {
        assert(crc_bits(crc_bit(c), 0) == crc_bit(c));
    } else {
        lemma_crc_bits_step(crc_bit(c), (n - 1) as nat);
        assert(crc_bits(c, n) == crc_bits(crc_bit(c), (n - 1) as nat));
    }
}

/* ---- Adler-32 ------------------------------------------------------------- */

pub const ADLER_MOD: u32 = 65521;

/// The two Adler sums (a, b) after absorbing `data`.
pub open spec fn adler_sums(data: Seq<u8>) -> (u32, u32)
    decreases data.len(),
{
    if data.len() == 0 {
        (1, 0)
    } else {
        let (a, b) = adler_sums(data.drop_last());
        let a2 = ((a + data.last()) % (ADLER_MOD as int)) as u32;
        (a2, ((b + a2) % (ADLER_MOD as int)) as u32)
    }
}

/// The Adler-32 checksum of zlib: `b * 65536 + a`.
pub open spec fn adler32_spec(data: Seq<u8>) -> u32 {
    (adler_sums(data).1 * 65536 + adler_sums(data).0) as u32
}

proof fn lemma_adler_bounds(data: Seq<u8>)
    ensures
        adler_sums(data).0 < ADLER_MOD,
        adler_sums(data).1 < ADLER_MOD,
    decreases data.len(),
{
    if data.len() > 0 {
        lemma_adler_bounds(data.drop_last());
    }
}

fn adler32(data: &[u8]) -> (r: u32)
    ensures
        r == adler32_spec(data@),
{
    let mut a: u32 = 1;
    let mut b: u32 = 0;
    let mut i: usize = 0;
    while i < data.len()
        invariant
            i <= data@.len(),
            (a, b) == adler_sums(data@.take(i as int)),
            a < ADLER_MOD,
            b < ADLER_MOD,
        decreases data.len() - i,
    {
        proof {
            assert(data@.take(i + 1).drop_last() == data@.take(i as int));
            assert(data@.take(i + 1).last() == data@[i as int]);
        }
        a = (a + data[i] as u32) % ADLER_MOD;
        b = (b + a) % ADLER_MOD;
        i += 1;
    }
    assert(data@.take(data@.len() as int) == data@);
    proof {
        lemma_adler_bounds(data@);
        assert((b << 16u32) | a == b * 65536 + a) by (bit_vector)
            requires
                a < 65521u32,
                b < 65521u32,
        ;
    }
    (b << 16u32) | a
}

/* ---- byte layouts --------------------------------------------------------- */

/// Big-endian bytes of `n mod 2^32`.
pub open spec fn be32(n: int) -> Seq<u8> {
    seq![
        ((n / 0x100_0000) % 256) as u8,
        ((n / 0x1_0000) % 256) as u8,
        ((n / 0x100) % 256) as u8,
        (n % 256) as u8,
    ]
}

/// Little-endian bytes of `n mod 2^16`.
pub open spec fn le16(n: int) -> Seq<u8> {
    seq![(n % 256) as u8, ((n / 256) % 256) as u8]
}

fn push_be32(out: &mut Vec<u8>, n: u32)
    ensures
        final(out)@ == old(out)@ + be32(n as int),
{
    out.push((n / 0x100_0000) as u8);
    out.push(((n / 0x1_0000) % 256) as u8);
    out.push(((n / 0x100) % 256) as u8);
    out.push((n % 256) as u8);
    assert(out@ == old(out)@ + be32(n as int));
}

fn push_be32_len(out: &mut Vec<u8>, n: usize)
    ensures
        final(out)@ == old(out)@ + be32(n as int),
{
    out.push(((n / 0x100_0000) % 256) as u8);
    out.push(((n / 0x1_0000) % 256) as u8);
    out.push(((n / 0x100) % 256) as u8);
    out.push((n % 256) as u8);
    assert(out@ == old(out)@ + be32(n as int));
}

fn push_le16(out: &mut Vec<u8>, n: u16)
    ensures
        final(out)@ == old(out)@ + le16(n as int),
{
    out.push((n % 256) as u8);
    out.push((n / 256) as u8);
    assert(out@ == old(out)@ + le16(n as int));
}

fn push_all(out: &mut Vec<u8>, data: &[u8], from: usize, to: usize)
    requires
        from <= to <= data@.len(),
    ensures
        final(out)@ == old(out)@ + data@.subrange(from as int, to as int),
{
    let mut i = from;
    while i < to
        invariant
            from <= i <= to <= data@.len(),
            out@ == old(out)@ + data@.subrange(from as int, i as int),
        decreases to - i,
    {
        out.push(data[i]);
        i += 1;
        assert(out@ == old(out)@ + data@.subrange(from as int, i as int));
    }
}

/// A PNG chunk: length, four-byte tag, payload, CRC of tag and payload.
pub open spec fn chunk_spec(tag: Seq<u8>, data: Seq<u8>) -> Seq<u8> {
    be32(data.len() as int) + tag + data + be32(crc32_spec(tag + data) as int)
}

fn chunk(out: &mut Vec<u8>, tag: &[u8; 4], data: &[u8])
    ensures
        final(out)@ == old(out)@ + chunk_spec(tag@, data@),
{
    let ghost o = out@;
    push_be32_len(out, data.len());
    assert(tag@.subrange(0, 4) == tag@);
    assert(data@.subrange(0, data@.len() as int) == data@);
    push_all(out, tag, 0, 4);
    push_all(out, data, 0, data.len());
    let mut crc_input: Vec<u8> = Vec::new();
    push_all(&mut crc_input, tag, 0, 4);
    push_all(&mut crc_input, data, 0, data.len());
    assert(crc_input@ == tag@ + data@);
    let crc = crc32(&crc_input);
    let ghost mid = out@;
    push_be32(out, crc);
    assert(mid == o + be32(data@.len() as int) + tag@ + data@);
    assert(out@ == o + be32(data@.len() as int) + tag@ + data@ + be32(crc32_spec(tag@ + data@) as int));
}

/// Raw scanlines: every complete row of `w` pixels prefixed with filter
/// byte 0 (None); a trailing partial row is dropped.
pub open spec fn scanlines(w: nat, gray: Seq<u8>) -> Seq<u8>
    recommends
        w > 0,
    decreases gray.len(),
{
    if w == 0 || gray.len() < w {
        Seq::empty()
    } else {
        seq![0u8] + gray.take(w as int) + scanlines(w, gray.skip(w as int))
    }
}

/// STORED deflate blocks of at most 65535 bytes; only the last one has
/// BFINAL set. Empty input yields no block at all.
pub open spec fn stored_blocks(raw: Seq<u8>) -> Seq<u8>
    decreases raw.len(),
{
    if raw.len() == 0 {
        Seq::empty()
    } else if raw.len() <= 65535 {
        seq![1u8] + le16(raw.len() as int) + le16(65535 - raw.len()) + raw
    } else {
        seq![0u8] + le16(65535) + le16(0) + raw.take(65535) + stored_blocks(raw.skip(65535))
    }
}

/// The zlib stream: header 78 01, the stored blocks, Adler-32 of the data.
pub open spec fn zlib_stored(raw: Seq<u8>) -> Seq<u8> {
    seq![0x78u8, 0x01u8] + stored_blocks(raw) + be32(adler32_spec(raw) as int)
}

pub open spec fn png_signature() -> Seq<u8> {
    seq![0x89u8, 0x50u8, 0x4Eu8, 0x47u8, 0x0Du8, 0x0Au8, 0x1Au8, 0x0Au8]
}

/// IHDR: width, height, bit depth 8, color type 0 (gray), default
/// compression, filter and no interlace.
pub open spec fn ihdr(w: u32, h: u32) -> Seq<u8> {
    be32(w as int) + be32(h as int) + seq![8u8, 0u8, 0u8, 0u8, 0u8]
}

pub open spec fn tag_ihdr() -> Seq<u8> {
    seq![0x49u8, 0x48u8, 0x44u8, 0x52u8]
}

pub open spec fn tag_idat() -> Seq<u8> {
    seq![0x49u8, 0x44u8, 0x41u8, 0x54u8]
}

pub open spec fn tag_iend() -> Seq<u8> {
    seq![0x49u8, 0x45u8, 0x4Eu8, 0x44u8]
}

/// The complete PNG file for a `w`-wide 8-bit grayscale image.
pub open spec fn png_gray(w: u32, h: u32, gray: Seq<u8>) -> Seq<u8> {
    png_signature() + chunk_spec(tag_ihdr(), ihdr(w, h)) + chunk_spec(
        tag_idat(),
        zlib_stored(scanlines(w as nat, gray)),
    ) + chunk_spec(tag_iend(), Seq::empty())
}

fn build_scanlines(w: usize, gray: &[u8]) -> (raw: Vec<u8>)
    requires
        w > 0,
    ensures
        raw@ == scanlines(w as nat, gray@),
{
    let mut raw: Vec<u8> = Vec::new();
    let mut pos: usize = 0;
    assert(gray@.skip(0) == gray@);
    assert(raw@ + scanlines(w as nat, gray@) == scanlines(w as nat, gray@));
    while gray.len() - pos >= w
        invariant
            w > 0,
            pos <= gray@.len(),
            raw@ + scanlines(w as nat, gray@.skip(pos as int)) == scanlines(w as nat, gray@),
        decreases gray.len() - pos,
    {
        let ghost before = raw@;
        raw.push(0);
        push_all(&mut raw, gray, pos, pos + w);
        proof {
            let rest = gray@.skip(pos as int);
            assert(rest.take(w as int) == gray@.subrange(pos as int, pos + w));
            assert(rest.skip(w as int) == gray@.skip(pos + w));
            assert(raw@ == before + seq![0u8] + rest.take(w as int));
            assert(before + seq![0u8] + rest.take(w as int) + scanlines(w as nat, rest.skip(w as int))
                == before + (seq![0u8] + rest.take(w as int) + scanlines(w as nat, rest.skip(w as int))));
        }
        pos += w;
    }
    assert(raw@ + Seq::<u8>::empty() == raw@);
    raw
}

fn build_blocks(z: &mut Vec<u8>, raw: &[u8])
    ensures
        final(z)@ == old(z)@ + stored_blocks(raw@),
{
    let mut pos: usize = 0;
    assert(raw@.skip(0) == raw@);
    while pos < raw.len()
        invariant
            pos <= raw@.len(),
            z@ + stored_blocks(raw@.skip(pos as int)) == old(z)@ + stored_blocks(raw@),
        decreases raw.len() - pos,
    {
        let ghost before = z@;
        let rest_len = raw.len() - pos;
        let ghost rest = raw@.skip(pos as int);
        if rest_len <= 65535 {
            z.push(1);
            let len = rest_len as u16;
            push_le16(z, len);
            push_le16(z, 65535 - len);
            push_all(z, raw, pos, raw.len());
            proof {
                assert(rest == raw@.subrange(pos as int, raw@.len() as int));
                assert(z@ == before + (seq![1u8] + le16(rest.len() as int) + le16(65535 - rest.len()) + rest));
                assert(raw@.skip(raw@.len() as int) == Seq::<u8>::empty());
            }
            pos = raw.len();
        } else {
            z.push(0);
            push_le16(z, 65535);
            push_le16(z, 0);
            push_all(z, raw, pos, pos + 65535);
            proof {
                assert(rest.take(65535) == raw@.subrange(pos as int, pos + 65535));
                assert(rest.skip(65535) == raw@.skip(pos + 65535));
                assert(z@ == before + (seq![0u8] + le16(65535) + le16(0) + rest.take(65535)));
                assert(stored_blocks(rest) == seq![0u8] + le16(65535) + le16(0) + rest.take(65535)
                    + stored_blocks(rest.skip(65535)));
            }
            pos = pos + 65535;
        }
    }
}

/// Encode a row-major 8-bit grayscale image (0 = black) as a PNG file.
/// Rows are `w` pixels; `h` is recorded in the header as given.
pub fn encode_gray(w: u32, h: u32, gray: &[u8]) -> (png: Vec<u8>)
    requires
        w > 0,
    ensures
        png@ == png_gray(w, h, gray@),
{
    let raw = build_scanlines(w as usize, gray);

    let mut z: Vec<u8> = Vec::new();
    z.push(0x78);
    z.push(0x01);
    build_blocks(&mut z, &raw);
    let ad = adler32(&raw);
    push_be32(&mut z, ad);

    let mut hdr: Vec<u8> = Vec::new();
    push_be32(&mut hdr, w);
    push_be32(&mut hdr, h);
    hdr.push(8);
    hdr.push(0);
    hdr.push(0);
    hdr.push(0);
    hdr.push(0);

    let mut png: Vec<u8> = Vec::new();
    png.push(0x89);
    png.push(0x50);
    png.push(0x4E);
    png.push(0x47);
    png.push(0x0D);
    png.push(0x0A);
    png.push(0x1A);
    png.push(0x0A);
    let ihdr_tag: [u8; 4] = [0x49, 0x48, 0x44, 0x52];
    let idat_tag: [u8; 4] = [0x49, 0x44, 0x41, 0x54];
    let iend_tag: [u8; 4] = [0x49, 0x45, 0x4E, 0x44];
    assert(ihdr_tag@ == tag_ihdr());
    assert(idat_tag@ == tag_idat());
    assert(iend_tag@ == tag_iend());
    assert(hdr@ == ihdr(w, h));
    assert(z@ == zlib_stored(scanlines(w as nat, gray@)));
    chunk(&mut png, &ihdr_tag, &hdr);
    chunk(&mut png, &idat_tag, &z);
    let empty: Vec<u8> = Vec::new();
    chunk(&mut png, &iend_tag, &empty);
    assert(png@ == png_gray(w, h, gray@));
    png
}

/* ---- base64 --------------------------------------------------------------- */

/// The standard base64 alphabet: `A-Z a-z 0-9 + /`.
pub open spec fn b64_char(v: int) -> char {
    if v < 26 {
        (65 + v) as char
    } else if v < 52 {
        (97 + v - 26) as char
    } else if v < 62 {
        (48 + v - 52) as char
    } else if v == 62 {
        '+'
    } else {
        '/'
    }
}

/// The alphabet index of `c`, or -1 for a character outside it.
pub open spec fn b64_value(c: char) -> int {
    if 'A' <= c <= 'Z' {
        c as int - 65
    } else if 'a' <= c <= 'z' {
        c as int - 97 + 26
    } else if '0' <= c <= '9' {
        c as int - 48 + 52
    } else if c == '+' {
        62
    } else if c == '/' {
        63
    } else {
        -1
    }
}

/// Base64 of `d`: each group of three bytes becomes four characters; a
/// final group of one or two bytes is padded with `=`.
pub open spec fn b64_encode(d: Seq<u8>) -> Seq<char>
    decreases d.len(),
{
    if d.len() == 0 {
        Seq::empty()
    } else if d.len() == 1 {
        seq![b64_char((d[0] as int) / 4), b64_char(((d[0] as int) % 4) * 16), '=', '=']
    } else if d.len() == 2 {
        seq![
            b64_char((d[0] as int) / 4),
            b64_char(((d[0] as int) % 4) * 16 + (d[1] as int) / 16),
            b64_char(((d[1] as int) % 16) * 4),
            '=',
        ]
    } else {
        seq![
            b64_char((d[0] as int) / 4),
            b64_char(((d[0] as int) % 4) * 16 + (d[1] as int) / 16),
            b64_char(((d[1] as int) % 16) * 4 + (d[2] as int) / 64),
            b64_char((d[2] as int) % 64),
        ] + b64_encode(d.skip(3))
    }
}

/// The 6-bit values of `s` up to its first `=`, skipping characters that
/// are not in the alphabet (whitespace, line breaks, stray bytes).
pub open spec fn sextets(s: Seq<char>) -> Seq<int>
    decreases s.len(),
{
    if s.len() == 0 || s[0] == '=' {
        Seq::empty()
    } else if b64_value(s[0]) < 0 {
        sextets(s.drop_first())
    } else {
        seq![b64_value(s[0])] + sextets(s.drop_first())
    }
}

/// The bytes carried by a run of 6-bit values: four values give three
/// bytes; a trailing two or three values give one or two bytes; a single
/// trailing value gives none.
pub open spec fn sextet_bytes(v: Seq<int>) -> Seq<u8>
    decreases v.len(),
{
    if v.len() < 2 {
        Seq::empty()
    } else if v.len() == 2 {
        seq![(v[0] * 4 + v[1] / 16) as u8]
    } else if v.len() == 3 {
        seq![(v[0] * 4 + v[1] / 16) as u8, ((v[1] % 16) * 16 + v[2] / 4) as u8]
    } else {
        seq![
            (v[0] * 4 + v[1] / 16) as u8,
            ((v[1] % 16) * 16 + v[2] / 4) as u8,
            ((v[2] % 4) * 64 + v[3]) as u8,
        ] + sextet_bytes(v.skip(4))
    }
}

/// What `base64_decode` returns for the text `s`.
pub open spec fn b64_decode(s: Seq<char>) -> Seq<u8> {
    sextet_bytes(sextets(s))
}

fn sextet_char(v: u32) -> (c: char)
    requires
        v < 64,
    ensures
        c == b64_char(v as int),
{
    if v < 26 {
        ((65 + v) as u8) as char
    } else if v < 52 {
        ((97 + v - 26) as u8) as char
    } else if v < 62 {
        ((48 + v - 52) as u8) as char
    } else if v == 62 {
        '+'
    } else {
        '/'
    }
}

fn sextet_value(c: char) -> (v: i32)
    ensures
        v == b64_value(c),
{
    if 'A' <= c && c <= 'Z' {
        (c as u32 - 65) as i32
    } else if 'a' <= c && c <= 'z' {
        (c as u32 - 97 + 26) as i32
    } else if '0' <= c && c <= '9' {
        (c as u32 - 48 + 52) as i32
    } else if c == '+' {
        62
    } else if c == '/' {
        63
    } else {
        -1
    }
}

/// Standard base64 with `=` padding.
pub fn base64(data: &[u8]) -> (out: String)
    ensures
        out@ == b64_encode(data@),
{
    let mut out = String::new();
    let mut i: usize = 0;
    assert(data@.skip(0) == data@);
    while i < data.len()
        invariant
            i <= data@.len(),
            out@ + b64_encode(data@.skip(i as int)) == b64_encode(data@),
        decreases data.len() - i,
    {
        let ghost rest = data@.skip(i as int);
        let ghost before = out@;
        let n = data.len() - i;
        let b0 = data[i] as u32;
        push_char(&mut out, sextet_char(b0 / 4));
        if n == 1 {
            push_char(&mut out, sextet_char((b0 % 4) * 16));
            push_char(&mut out, '=');
            push_char(&mut out, '=');
            assert(out@ == before + b64_encode(rest));
            i = data.len();
        } else {
            let b1 = data[i + 1] as u32;
            push_char(&mut out, sextet_char((b0 % 4) * 16 + b1 / 16));
            if n == 2 {
                push_char(&mut out, sextet_char((b1 % 16) * 4));
                push_char(&mut out, '=');
                assert(out@ == before + b64_encode(rest));
                i = data.len();
            } else {
                let b2 = data[i + 2] as u32;
                push_char(&mut out, sextet_char((b1 % 16) * 4 + b2 / 64));
                push_char(&mut out, sextet_char(b2 % 64));
                assert(rest.skip(3) == data@.skip(i + 3));
                assert(out@ + b64_encode(data@.skip(i + 3)) == before + b64_encode(rest));
                i = i + 3;
            }
        }
    }
    assert(data@.skip(data@.len() as int) == Seq::<u8>::empty());
    assert(out@ + Seq::<char>::empty() == out@);
    out
}

proof fn lemma_sextet_bytes_push(v: Seq<int>, x: int)
    ensures
        sextet_bytes(v.push(x)) == sextet_bytes(v) + (if v.len() % 4 == 0 {
            Seq::<u8>::empty()
        } else if v.len() % 4 == 1 {
            seq![(v[v.len() - 1] * 4 + x / 16) as u8]
        } else if v.len() % 4 == 2 {
            seq![((v[v.len() - 1] % 16) * 16 + x / 4) as u8]
        } else {
            seq![((v[v.len() - 1] % 4) * 64 + x) as u8]
        }),
    decreases v.len(),
{
    let w = v.push(x);
    if v.len() >= 4 {
        assert(w.skip(4) == v.skip(4).push(x));
        lemma_sextet_bytes_push(v.skip(4), x);
        assert(w[0] == v[0] && w[1] == v[1] && w[2] == v[2] && w[3] == v[3]);
        assert(v.skip(4).len() % 4 == v.len() % 4);
        if v.len() > 4 {
            assert(v.skip(4)[v.skip(4).len() - 1] == v[v.len() - 1]);
        }
        assert(sextet_bytes(w) == seq![
            (v[0] * 4 + v[1] / 16) as u8,
            ((v[1] % 16) * 16 + v[2] / 4) as u8,
            ((v[2] % 4) * 64 + v[3]) as u8,
        ] + sextet_bytes(w.skip(4)));
        assert(sextet_bytes(v) == seq![
            (v[0] * 4 + v[1] / 16) as u8,
            ((v[1] % 16) * 16 + v[2] / 4) as u8,
            ((v[2] % 4) * 64 + v[3]) as u8,
        ] + sextet_bytes(v.skip(4)));
    } else if v.len() == 3 {
        assert(w.skip(4) == Seq::<int>::empty());
        assert(sextet_bytes(w) == seq![
            (w[0] * 4 + w[1] / 16) as u8,
            ((w[1] % 16) * 16 + w[2] / 4) as u8,
            ((w[2] % 4) * 64 + w[3]) as u8,
        ] + sextet_bytes(w.skip(4)));
    } else if v.len() == 2 {
        assert(sextet_bytes(w) == seq![(w[0] * 4 + w[1] / 16) as u8, ((w[1] % 16) * 16 + w[2] / 4) as u8]);
    } else if v.len() == 1 {
        assert(sextet_bytes(v) == Seq::<u8>::empty());
        assert(sextet_bytes(w) == seq![(w[0] * 4 + w[1] / 16) as u8]);
    } else {
        assert(sextet_bytes(w) == Seq::<u8>::empty());
    }
}

/// Decode standard base64. Characters outside the alphabet (whitespace,
/// line breaks) are skipped and decoding stops at the first `=`.
pub fn base64_decode(s: &str) -> (out: Vec<u8>)
    ensures
        out@ == b64_decode(s@),
{
    let cs = crate::strs::chars_of(s);
    let mut out: Vec<u8> = Vec::new();
    let mut p: u32 = 0;
    let mut bits: u32 = 0;
    let mut i: usize = 0;
    let mut done = false;
    let ghost mut vals: Seq<int> = Seq::empty();
    assert(cs@.skip(0) == cs@);
    while i < cs.len() && !done
        invariant
            i <= cs@.len(),
            cs@ == s@,
            done ==> sextets(cs@.skip(i as int)) == Seq::<int>::empty(),
            vals + sextets(cs@.skip(i as int)) == sextets(s@),
            out@ == sextet_bytes(vals),
            forall|j: int| 0 <= j < vals.len() ==> 0 <= #[trigger] vals[j] < 64,
            vals.len() % 4 == 0 ==> bits == 0 && p == 0,
            vals.len() % 4 == 1 ==> bits == 6 && p == vals[vals.len() - 1],
            vals.len() % 4 == 2 ==> bits == 4 && p == vals[vals.len() - 1] % 16,
            vals.len() % 4 == 3 ==> bits == 2 && p == vals[vals.len() - 1] % 4,
        decreases cs.len() - i + (if done { 0int } else { 1int }),
    {
        let c = cs[i];
        let ghost rest = cs@.skip(i as int);
        assert(rest[0] == c);
        assert(rest.drop_first() == cs@.skip(i + 1));
        if c == '=' {
            done = true;
        } else {
            let v = sextet_value(c);
            if v >= 0 {
                let ghost old_vals = vals;
                proof {
                    lemma_sextet_bytes_push(vals, v as int);
                    vals = vals.push(v as int);
                    assert(vals + sextets(cs@.skip(i + 1)) == old_vals + sextets(rest));
                }
                let vu = v as u32;
                p = p * 64 + vu;
                bits = bits + 6;
                if bits >= 8 {
                    bits = bits - 8;
                    let unit: u32 = if bits == 0 { 1 } else if bits == 2 { 4 } else { 16 };
                    proof {
                        let k = old_vals.len();
                        if k % 4 == 1 {
                            assert(p / 16 == old_vals[k - 1] * 4 + v / 16) by (nonlinear_arith)
                                requires p == old_vals[k - 1] * 64 + v, 0 <= v < 64;
                            assert(p % 16 == v % 16) by (nonlinear_arith)
                                requires p == old_vals[k - 1] * 64 + v, 0 <= v < 64, 0 <= old_vals[k - 1];
                        } else if k % 4 == 2 {
                            assert(p / 4 == (old_vals[k - 1] % 16) * 16 + v / 4) by (nonlinear_arith)
                                requires p == (old_vals[k - 1] % 16) * 64 + v, 0 <= v < 64;
                            assert(p % 4 == v % 4) by (nonlinear_arith)
                                requires p == (old_vals[k - 1] % 16) * 64 + v, 0 <= v < 64, 0 <= old_vals[k - 1] % 16;
                        }
                    }
                    out.push((p / unit) as u8);
                    p = p % unit;
                }
            }
            i += 1;
        }
    }
    out
}

proof fn lemma_char_value(v: int)
    requires
        0 <= v < 64,
    ensures
        b64_value(b64_char(v)) == v,
        b64_char(v) != '=',
{
}

proof fn lemma_sextets_group(a: int, b: int, c: int, d: int, rest: Seq<char>)
    requires
        0 <= a < 64,
        0 <= b < 64,
        0 <= c < 64,
        0 <= d < 64,
    ensures
        sextets(seq![b64_char(a), b64_char(b), b64_char(c), b64_char(d)] + rest) == seq![a, b, c, d]
            + sextets(rest),
{
    lemma_char_value(a);
    lemma_char_value(b);
    lemma_char_value(c);
    lemma_char_value(d);
    let s4 = seq![b64_char(d)] + rest;
    let s3 = seq![b64_char(c)] + s4;
    let s2 = seq![b64_char(b)] + s3;
    let s1 = seq![b64_char(a)] + s2;
    assert(s1 == seq![b64_char(a), b64_char(b), b64_char(c), b64_char(d)] + rest);
    assert(s4.drop_first() == rest);
    assert(s3.drop_first() == s4);
    assert(s2.drop_first() == s3);
    assert(s1.drop_first() == s2);
    assert(s4[0] == b64_char(d));
    assert(s3[0] == b64_char(c));
    assert(s2[0] == b64_char(b));
    assert(s1[0] == b64_char(a));
    assert(sextets(s4) == seq![d] + sextets(rest));
    assert(sextets(s3) == seq![c] + sextets(s4));
    assert(sextets(s2) == seq![b] + sextets(s3));
    assert(sextets(s1) == seq![a] + sextets(s2));
    assert(seq![a] + (seq![b] + (seq![c] + (seq![d] + sextets(rest)))) == seq![a, b, c, d] + sextets(rest));
}

/// Decoding what `base64` produced gives the original bytes back.
pub proof fn lemma_base64_roundtrip(d: Seq<u8>)
    ensures
        b64_decode(b64_encode(d)) == d,
    decreases d.len(),
{
    if d.len() == 0 {
    } else if d.len() == 1 {
        let a = (d[0] as int) / 4;
        let b = ((d[0] as int) % 4) * 16;
        lemma_char_value(a);
        lemma_char_value(b);
        let s = b64_encode(d);
        let s1 = s.drop_first();
        let s2 = s1.drop_first();
        assert(s[0] == b64_char(a) && s1[0] == b64_char(b) && s2[0] == '=');
        assert(sextets(s2) == Seq::<int>::empty());
        assert(sextets(s1) == seq![b] + sextets(s2));
        assert(sextets(s) == seq![a] + sextets(s1));
        assert(sextets(s) == seq![a, b]);
        assert(a * 4 + b / 16 == (d[0] as int)) by (nonlinear_arith)
            requires a == (d[0] as int) / 4, b == ((d[0] as int) % 4) * 16, 0 <= (d[0] as int) < 256;
        assert(b64_decode(s) == seq![d[0]]);
        assert(d == seq![d[0]]);
    } else if d.len() == 2 {
        let a = (d[0] as int) / 4;
        let b = ((d[0] as int) % 4) * 16 + (d[1] as int) / 16;
        let c = ((d[1] as int) % 16) * 4;
        lemma_char_value(a);
        lemma_char_value(b);
        lemma_char_value(c);
        let s = b64_encode(d);
        let s1 = s.drop_first();
        let s2 = s1.drop_first();
        let s3 = s2.drop_first();
        assert(s[0] == b64_char(a) && s1[0] == b64_char(b) && s2[0] == b64_char(c) && s3[0] == '=');
        assert(sextets(s3) == Seq::<int>::empty());
        assert(sextets(s2) == seq![c] + sextets(s3));
        assert(sextets(s1) == seq![b] + sextets(s2));
        assert(sextets(s) == seq![a] + sextets(s1));
        assert(sextets(s) == seq![a, b, c]);
        assert(a * 4 + b / 16 == (d[0] as int)) by (nonlinear_arith)
            requires a == (d[0] as int) / 4, b == ((d[0] as int) % 4) * 16 + (d[1] as int) / 16, 0 <= (d[0] as int) < 256, 0 <= (d[1] as int) < 256;
        assert((b % 16) * 16 + c / 4 == (d[1] as int)) by (nonlinear_arith)
            requires b == ((d[0] as int) % 4) * 16 + (d[1] as int) / 16, c == ((d[1] as int) % 16) * 4, 0 <= (d[0] as int) < 256, 0 <= (d[1] as int) < 256;
        assert(b64_decode(s) == seq![d[0], d[1]]);
        assert(d == seq![d[0], d[1]]);
    } else {
        let a = (d[0] as int) / 4;
        let b = ((d[0] as int) % 4) * 16 + (d[1] as int) / 16;
        let c = ((d[1] as int) % 16) * 4 + (d[2] as int) / 64;
        let e = (d[2] as int) % 64;
        lemma_sextets_group(a, b, c, e, b64_encode(d.skip(3)));
        lemma_base64_roundtrip(d.skip(3));
        let v = seq![a, b, c, e] + sextets(b64_encode(d.skip(3)));
        assert(v.skip(4) == sextets(b64_encode(d.skip(3))));
        assert(a * 4 + b / 16 == (d[0] as int)) by (nonlinear_arith)
            requires a == (d[0] as int) / 4, b == ((d[0] as int) % 4) * 16 + (d[1] as int) / 16, 0 <= (d[0] as int) < 256, 0 <= (d[1] as int) < 256;
        assert((b % 16) * 16 + c / 4 == (d[1] as int)) by (nonlinear_arith)
            requires b == ((d[0] as int) % 4) * 16 + (d[1] as int) / 16, c == ((d[1] as int) % 16) * 4 + (d[2] as int) / 64,
                0 <= (d[0] as int) < 256, 0 <= (d[1] as int) < 256, 0 <= (d[2] as int) < 256;
        assert((c % 4) * 64 + e == (d[2] as int)) by (nonlinear_arith)
            requires c == ((d[1] as int) % 16) * 4 + (d[2] as int) / 64, e == (d[2] as int) % 64, 0 <= (d[1] as int) < 256, 0 <= (d[2] as int) < 256;
        assert(sextet_bytes(v) == seq![d[0], d[1], d[2]] + d.skip(3));
        assert(d == seq![d[0], d[1], d[2]] + d.skip(3));
    }
}

} // verus!
