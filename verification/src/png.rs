//! A minimal PNG encoder.
//!
//! Only enough of the format to write RGBA images. Pixel data is stored in
//! uncompressed DEFLATE blocks: the icons are tiny and written once, so a few
//! extra kilobytes are a good trade for having no compression code.

use vstd::prelude::*;

use crate::bytes::{append_all, append_range, be32, le16, push_be32, push_le16};

verus! {

// ---------------------------------------------------------------- CRC-32

/// The reflected IEEE polynomial.
pub open spec fn crc_poly() -> u32 {
    0xEDB8_8320u32
}

/// One bit of CRC-32 (IEEE, reflected): shift right and, when a one fell
/// out, fold the polynomial back in.
pub open spec fn crc_step(c: u32) -> u32 {
    if c & 1u32 != 0 {
        (c >> 1u32) ^ crc_poly()
    } else {
        (c >> 1u32) ^ 0u32
    }
}

/// `k` bit steps applied to `c`.
pub open spec fn crc_steps(c: u32, k: nat) -> u32
    decreases k,
{
    if k == 0 {
        c
    } else {
        crc_step(crc_steps(c, (k - 1) as nat))
    }
}

/// The CRC register after feeding `data` into a register holding `c`.
pub open spec fn crc_update(c: u32, data: Seq<u8>) -> u32
    decreases data.len(),
{
    if data.len() == 0 {
        c
    } else {
        crc_steps(crc_update(c, data.drop_last()) ^ (data.last() as u32), 8)
    }
}

/// CRC-32 of `data`: register preset to all ones, result complemented.
pub open spec fn crc32_spec(data: Seq<u8>) -> u32 {
    !crc_update(0xFFFF_FFFFu32, data)
}

/// CRC-32 (IEEE), computed bitwise.
pub fn crc32(data: &[u8]) -> (r: u32)
    ensures
        r == crc32_spec(data@),
{
    let mut crc: u32 = 0xFFFF_FFFF;
    let mut i: usize = 0;
    while i < data.len()
        invariant
            i <= data.len(),
            crc == crc_update(0xFFFF_FFFFu32, data@.take(i as int)),
        decreases data.len() - i,
    {
        let ghost start = crc ^ (data@[i as int] as u32);
        crc = crc ^ (data[i] as u32);
        let mut k: usize = 0;
        while k < 8
            invariant
                k <= 8,
                crc == crc_steps(start, k as nat),
            decreases 8 - k,
        {
            let mask: u32 = if crc & 1 != 0 { 0xEDB8_8320 } else { 0 };
            crc = (crc >> 1) ^ mask;
            k = k + 1;
        }
        assert(data@.take(i + 1).drop_last() == data@.take(i as int));
        i = i + 1;
    }
    assert(data@.take(data@.len() as int) == data@);
    !crc
}

// ---------------------------------------------------------------- Adler-32

/// The modulus of Adler-32: the largest prime below 2^16.
pub open spec fn adler_mod() -> int {
    65521
}

/// Sum of the bytes of `s`.
pub open spec fn byte_sum(s: Seq<u8>) -> int
    decreases s.len(),
{
    if s.len() == 0 {
        0
    } else {
        byte_sum(s.drop_last()) + s.last() as int
    }
}

/// Sum, over every non-empty prefix `p` of `s`, of `1 + byte_sum(p)`.
pub open spec fn running_sums(s: Seq<u8>) -> int
    decreases s.len(),
{
    if s.len() == 0 {
        0
    } else {
        running_sums(s.drop_last()) + 1 + byte_sum(s)
    }
}

/// Adler-32 (RFC 1950): A = 1 + the sum of the bytes, B = the sum of the
/// successive values of A, both modulo 65521; the checksum is B * 65536 + A.
pub open spec fn adler32_spec(s: Seq<u8>) -> u32 {
    ((running_sums(s) % adler_mod()) * 65536 + (1 + byte_sum(s)) % adler_mod()) as u32
}

/// Adler-32, the checksum zlib appends to a stream.
pub fn adler32(data: &[u8]) -> (r: u32)
    ensures
        r == adler32_spec(data@),
{
    let mut a: u32 = 1;
    let mut b: u32 = 0;
    let mut i: usize = 0;
    while i < data.len()
        invariant
            i <= data.len(),
            a == (1 + byte_sum(data@.take(i as int))) % adler_mod(),
            b == running_sums(data@.take(i as int)) % adler_mod(),
        decreases data.len() - i,
    {
        let ghost prev = data@.take(i as int);
        let ghost next = data@.take(i + 1);
        assert(next.drop_last() == prev);
        proof {
            vstd::arithmetic::div_mod::lemma_add_mod_noop_right(
                data@[i as int] as int,
                1 + byte_sum(prev),
                adler_mod(),
            );
            vstd::arithmetic::div_mod::lemma_add_mod_noop(
                running_sums(prev),
                1 + byte_sum(next),
                adler_mod(),
            );
        }
        a = (a + data[i] as u32) % 65521;
        b = (b + a) % 65521;
        i = i + 1;
    }
    assert(data@.take(data@.len() as int) == data@);
    assert((b << 16u32) | a == b * 65536 + a) by (bit_vector)
        requires
            a < 65536,
            b < 65536,
    ;
    (b << 16) | a
}

// ---------------------------------------------------------------- zlib

/// Largest payload a stored DEFLATE block can carry (its length is 16 bits).
pub open spec fn max_block() -> int {
    0xFFFF
}

/// One stored DEFLATE block: the BFINAL/BTYPE=00 byte, LEN and NLEN (both
/// little-endian), then the bytes themselves.
pub open spec fn stored_block(last: bool, chunk: Seq<u8>) -> Seq<u8> {
    seq![if last { 1u8 } else { 0u8 }] + le16(chunk.len() as u16) + le16(!(chunk.len() as u16))
        + chunk
}

/// `data` cut into stored blocks of at most 65535 bytes, only the last one
/// marked final. Empty data is a single final, empty block.
pub open spec fn stored_blocks(data: Seq<u8>) -> Seq<u8>
    decreases data.len(),
{
    if data.len() <= max_block() {
        stored_block(true, data)
    } else {
        stored_block(false, data.take(max_block())) + stored_blocks(data.skip(max_block()))
    }
}

/// The zlib header: deflate, 32K window, fastest level (0x7801 is a
/// multiple of 31, as the format asks).
pub open spec fn zlib_header() -> Seq<u8> {
    seq![0x78u8, 0x01u8]
}

/// A zlib stream holding `data` in stored blocks, followed by Adler-32.
pub open spec fn zlib_stored_spec(data: Seq<u8>) -> Seq<u8> {
    zlib_header() + stored_blocks(data) + be32(adler32_spec(data))
}

/// Appends one stored block carrying `data[start..end]`.
fn push_stored_block(out: &mut Vec<u8>, last: bool, data: &[u8], start: usize, end: usize)
    requires
        start <= end <= data@.len(),
        end - start <= max_block(),
    ensures
        final(out)@ == old(out)@ + stored_block(last, data@.subrange(start as int, end as int)),
{
    out.push(if last { 1 } else { 0 });
    let len = (end - start) as u16;
    push_le16(out, len);
    push_le16(out, !len);
    append_range(out, data, start, end);
    assert(out@ =~= old(out)@ + stored_block(last, data@.subrange(start as int, end as int)));
}

/// Wrap `data` in a zlib stream of stored (uncompressed) DEFLATE blocks.
pub fn zlib_stored(data: &[u8]) -> (out: Vec<u8>)
    ensures
        out@ == zlib_stored_spec(data@),
{
    let mut out: Vec<u8> = vec![0x78, 0x01];
    if data.len() == 0 {
        // A single final, empty stored block.
        out.push(0x01);
        out.push(0x00);
        out.push(0x00);
        out.push(0xFF);
        out.push(0xFF);
        let ghost z: u16 = 0;
        assert(z as u8 == 0u8 && (z >> 8u16) as u8 == 0u8 && (!z) as u8 == 0xFFu8 && ((!z)
            >> 8u16) as u8 == 0xFFu8) by (bit_vector)
            requires
                z == 0u16,
        ;
        assert(stored_blocks(data@) == stored_block(true, data@));
        assert(data@.len() as u16 == z);
        assert(out@ =~= zlib_header() + stored_blocks(data@));
    } else {
        let mut i: usize = 0;
        assert(data@.skip(0) == data@);
        loop
            invariant_except_break
                i < data.len(),
                out@ + stored_blocks(data@.skip(i as int)) == zlib_header() + stored_blocks(data@),
            ensures
                out@ == zlib_header() + stored_blocks(data@),
            decreases data.len() - i,
        {
            let ghost rest = data@.skip(i as int);
            if data.len() - i <= 0xFFFF {
                push_stored_block(&mut out, true, data, i, data.len());
                assert(data@.subrange(i as int, data@.len() as int) == rest);
                break;
            } else {
                push_stored_block(&mut out, false, data, i, i + 0xFFFF);
                assert(data@.subrange(i as int, i + 0xFFFF) == rest.take(max_block()));
                assert(data@.skip(i + 0xFFFF) == rest.skip(max_block()));
                assert(out@ + stored_blocks(data@.skip(i + 0xFFFF)) == zlib_header()
                    + stored_blocks(data@));
                i = i + 0xFFFF;
            }
        }
    }
    push_be32(&mut out, adler32(data));
    out
}

// ---------------------------------------------------------------- PNG

/// A PNG chunk: payload length (as a 32-bit big-endian field), the chunk
/// type, the payload, and the CRC-32 of type and payload.
pub open spec fn chunk_spec(kind: Seq<u8>, payload: Seq<u8>) -> Seq<u8> {
    be32(payload.len() as u32) + kind + payload + be32(crc32_spec(kind + payload))
}

/// Appends one PNG chunk to `out`.
pub fn push_chunk(out: &mut Vec<u8>, kind: &[u8; 4], payload: &[u8])
    ensures
        final(out)@ == old(out)@ + chunk_spec(kind@, payload@),
{
    push_be32(out, payload.len() as u32);
    append_all(out, kind);
    append_all(out, payload);

    let mut crc_input: Vec<u8> = Vec::new();
    append_all(&mut crc_input, kind);
    append_all(&mut crc_input, payload);
    push_be32(out, crc32(crc_input.as_slice()));
    assert(crc_input@ == kind@ + payload@);
    assert(out@ =~= old(out)@ + chunk_spec(kind@, payload@));
}

/// The eight-byte PNG signature.
pub open spec fn png_signature() -> Seq<u8> {
    seq![0x89u8, 0x50u8, 0x4Eu8, 0x47u8, 0x0Du8, 0x0Au8, 0x1Au8, 0x0Au8]
}

/// Chunk type `IHDR`.
pub open spec fn ihdr() -> Seq<u8> {
    seq![0x49u8, 0x48u8, 0x44u8, 0x52u8]
}

/// Chunk type `IDAT`.
pub open spec fn idat() -> Seq<u8> {
    seq![0x49u8, 0x44u8, 0x41u8, 0x54u8]
}

/// Chunk type `IEND`.
pub open spec fn iend() -> Seq<u8> {
    seq![0x49u8, 0x45u8, 0x4Eu8, 0x44u8]
}

/// The IHDR payload: width, height, bit depth 8, colour type 6 (RGBA),
/// deflate, adaptive filtering, no interlacing.
pub open spec fn ihdr_payload(width: u32, height: u32) -> Seq<u8> {
    be32(width) + be32(height) + seq![8u8, 6u8, 0u8, 0u8, 0u8]
}

/// The first `rows` scanlines of `pixels` (each `stride` bytes), each
/// prefixed with filter type 0 ("none").
pub open spec fn scanlines(pixels: Seq<u8>, stride: int, rows: nat) -> Seq<u8>
    decreases rows,
{
    if rows == 0 {
        Seq::empty()
    } else {
        scanlines(pixels, stride, (rows - 1) as nat) + seq![0u8] + pixels.subrange(
            (rows - 1) * stride,
            rows * stride,
        )
    }
}

/// The PNG file for a `width` x `height` RGBA image.
pub open spec fn png_spec(width: u32, height: u32, pixels: Seq<u8>) -> Seq<u8> {
    png_signature() + chunk_spec(ihdr(), ihdr_payload(width, height)) + chunk_spec(
        idat(),
        zlib_stored_spec(scanlines(pixels, width * 4, height as nat)),
    ) + chunk_spec(iend(), Seq::empty())
}

/// Encode 8-bit RGBA pixels (row-major, `width * height * 4` bytes) as a PNG.
pub fn encode_rgba(width: u32, height: u32, pixels: &[u8]) -> (res: Vec<u8>)
    requires
        width * 4 <= usize::MAX,
        pixels@.len() == width * 4 * height,
    ensures
        res@ == png_spec(width, height, pixels@),
{
    let stride = width as usize * 4;

    // Every scanline is prefixed with its filter type; 0 means "none".
    let mut raw: Vec<u8> = Vec::new();
    let mut y: usize = 0;
    while y < height as usize
        invariant
            stride == width * 4,
            pixels@.len() == stride * height,
            y <= height,
            raw@ == scanlines(pixels@, stride as int, y as nat),
        decreases height - y,
    {
        assert(y * stride <= (y + 1) * stride <= height * stride) by (nonlinear_arith)
            requires
                y + 1 <= height,
        ;
        assert(y * stride + stride == (y + 1) * stride) by (nonlinear_arith);
        assert(pixels@.len() == pixels.len());
        assert(height * stride == stride * height) by (nonlinear_arith);
        assert(y * stride <= usize::MAX);
        assert((y + 1) * stride <= usize::MAX);
        let start = y * stride;
        let end = start + stride;
        raw.push(0);
        append_range(&mut raw, pixels, start, end);
        y = y + 1;
    }

    let mut ihdr_bytes: Vec<u8> = Vec::new();
    push_be32(&mut ihdr_bytes, width);
    push_be32(&mut ihdr_bytes, height);
    ihdr_bytes.push(8); // bit depth
    ihdr_bytes.push(6); // colour type 6 = RGBA
    ihdr_bytes.push(0); // deflate
    ihdr_bytes.push(0); // adaptive filtering
    ihdr_bytes.push(0); // no interlacing
    assert(ihdr_bytes@ =~= ihdr_payload(width, height));

    let mut out: Vec<u8> = Vec::new();
    out.push(0x89);
    out.push(0x50);
    out.push(0x4E);
    out.push(0x47);
    out.push(0x0D);
    out.push(0x0A);
    out.push(0x1A);
    out.push(0x0A);
    let compressed = zlib_stored(raw.as_slice());
    let empty: Vec<u8> = Vec::new();
    push_chunk(&mut out, &[0x49, 0x48, 0x44, 0x52], ihdr_bytes.as_slice());
    push_chunk(&mut out, &[0x49, 0x44, 0x41, 0x54], compressed.as_slice());
    push_chunk(&mut out, &[0x49, 0x45, 0x4E, 0x44], empty.as_slice());
    assert(out@ =~= png_spec(width, height, pixels@));
    out
}

// ---------------------------------------------------------------- laws

/// Reads stored DEFLATE blocks from the start of `s` up to and including
/// the final one: each block is a header byte (BFINAL in bit 0, BTYPE in
/// bits 1-2 and 00 for "stored", the rest padding), LEN and NLEN as
/// little-endian 16-bit fields with NLEN the one's complement of LEN, and
/// LEN bytes of payload. Gives the joined payload and the bytes consumed.
pub open spec fn read_stored_blocks(s: Seq<u8>) -> Option<(Seq<u8>, int)>
    decreases s.len(),
{
    if s.len() < 5 {
        None
    } else {
        let head = s[0] as int;
        let len = s[1] as int + s[2] as int * 256;
        let nlen = s[3] as int + s[4] as int * 256;
        if (head / 2) % 4 != 0 || len + nlen != 0xFFFF || s.len() < 5 + len {
            None
        } else if head % 2 == 1 {
            Some((s.subrange(5, 5 + len), 5 + len))
        } else {
            match read_stored_blocks(s.skip(5 + len)) {
                Some((more, used)) => Some((s.subrange(5, 5 + len) + more, 5 + len + used)),
                None => None,
            }
        }
    }
}

/// Decodes a zlib stream made of stored blocks: a header naming deflate
/// with no preset dictionary and passing the multiple-of-31 check, the
/// blocks, and a big-endian Adler-32 of the decoded bytes ending the stream.
pub open spec fn inflate_stored(s: Seq<u8>) -> Option<Seq<u8>> {
    if s.len() < 2 || s[0] % 16 != 8 || (s[1] / 32) % 2 != 0 || (s[0] as int * 256 + s[1] as int)
        % 31 != 0 {
        None
    } else {
        match read_stored_blocks(s.skip(2)) {
            Some((data, used)) => if s.skip(2 + used) == be32(adler32_spec(data)) {
                Some(data)
            } else {
                None
            },
            None => None,
        }
    }
}

proof fn lemma_le16(x: u16)
    ensures
        (x as u8) as int + ((x >> 8u16) as u8) as int * 256 == x as int,
        x as int + (!x) as int == 0xFFFF,
{
    assert((x as u8) as int + ((x >> 8u16) as u8) as int * 256 == x as int && x as int + (
    !x) as int == 0xFFFF) by (bit_vector);
}

proof fn lemma_read_stored_blocks(data: Seq<u8>, rest: Seq<u8>)
    ensures
        read_stored_blocks(stored_blocks(data) + rest) == Some(
            (data, stored_blocks(data).len() as int),
        ),
    decreases data.len(),
{
    let last = data.len() <= max_block();
    let chunk = if last {
        data
    } else {
        data.take(max_block())
    };
    let block = stored_block(last, chunk);
    let s = stored_blocks(data) + rest;
    lemma_le16(chunk.len() as u16);
    lemma_le16(!(chunk.len() as u16));
    assert(chunk.len() as u16 as int == chunk.len());
    assert(s[0] == block[0]);
    assert(s[1] == block[1] && s[2] == block[2] && s[3] == block[3] && s[4] == block[4]);
    assert(block.len() == 5 + chunk.len());
    assert(s.subrange(5, 5 + chunk.len() as int) =~= chunk);
    let len = s[1] as int + s[2] as int * 256;
    let nlen = s[3] as int + s[4] as int * 256;
    assert(len == chunk.len());
    assert(len + nlen == 0xFFFF);
    assert(s.len() >= 5 + len);
    if last {
        assert(s[0] == 1u8);
        assert(stored_blocks(data) == block);
    } else {
        assert(s[0] == 0u8);
    }
    if !last {
        let tail = data.skip(max_block());
        lemma_read_stored_blocks(tail, rest);
        assert(s.skip(5 + chunk.len() as int) =~= stored_blocks(tail) + rest);
        assert(chunk + tail =~= data);
    }
}

/// Reading back a stream written by `zlib_stored` gives the same bytes back:
/// the output is a well-formed zlib stream (header, stored blocks with
/// matching LEN/NLEN, final block flagged, Adler-32 trailer) whose content
/// is exactly `data`.
pub proof fn lemma_zlib_stored_inflates(data: Seq<u8>)
    ensures
        inflate_stored(zlib_stored_spec(data)) == Some(data),
{
    let s = zlib_stored_spec(data);
    let blocks = stored_blocks(data);
    let trailer = be32(adler32_spec(data));
    assert(s == seq![0x78u8, 0x01u8] + blocks + trailer);
    assert(s[0] == 0x78u8 && s[1] == 0x01u8);
    assert((0x78int * 256 + 0x01int) % 31 == 0);
    lemma_read_stored_blocks(data, trailer);
    assert(s.skip(2) =~= blocks + trailer);
    assert(s.skip(2 + blocks.len() as int) =~= trailer);
}

/// The big-endian number held in the first four bytes of `b`.
pub open spec fn read_be32(b: Seq<u8>) -> int {
    b[0] as int * 0x100_0000 + b[1] as int * 0x1_0000 + b[2] as int * 0x100 + b[3] as int
}

/// Reads one PNG chunk from the start of `s`, checking its CRC: gives the
/// chunk type, the payload and the bytes consumed.
pub open spec fn read_chunk(s: Seq<u8>) -> Option<(Seq<u8>, Seq<u8>, int)> {
    if s.len() < 12 {
        None
    } else {
        let len = read_be32(s);
        if s.len() < 12 + len {
            None
        } else {
            let kind = s.subrange(4, 8);
            let payload = s.subrange(8, 8 + len);
            if read_be32(s.subrange(8 + len, 12 + len)) == crc32_spec(kind + payload) as int {
                Some((kind, payload, 12 + len))
            } else {
                None
            }
        }
    }
}

/// Removes the filter byte from each of `rows` scanlines of `stride` bytes,
/// all of which must use filter type 0.
pub open spec fn unfilter(raw: Seq<u8>, stride: int, rows: nat) -> Option<Seq<u8>>
    decreases rows,
{
    if rows == 0 {
        if raw.len() == 0 {
            Some(Seq::empty())
        } else {
            None
        }
    } else {
        let line = stride + 1;
        let start = raw.len() - line;
        if start < 0 || raw[start] != 0 {
            None
        } else {
            match unfilter(raw.take(start), stride, (rows - 1) as nat) {
                Some(front) => Some(front + raw.skip(start + 1)),
                None => None,
            }
        }
    }
}

/// Reads an 8-bit RGBA, non-interlaced PNG made of one IHDR, one IDAT
/// holding a stored-block zlib stream, and IEND: gives width, height and
/// the pixel bytes.
pub open spec fn decode_png(s: Seq<u8>) -> Option<(int, int, Seq<u8>)> {
    if s.len() < 8 || s.take(8) != png_signature() {
        None
    } else {
        match read_chunk(s.skip(8)) {
            Some((k1, header, n1)) => {
                if k1 != ihdr() || header.len() != 13 || header.subrange(8, 13) != seq![
                    8u8,
                    6u8,
                    0u8,
                    0u8,
                    0u8,
                ] {
                    None
                } else {
                    let width = read_be32(header);
                    let height = read_be32(header.skip(4));
                    match read_chunk(s.skip(8 + n1)) {
                        Some((k2, body, n2)) => match read_chunk(s.skip(8 + n1 + n2)) {
                            Some((k3, end, n3)) => if k2 == idat() && k3 == iend() && end.len()
                                == 0 && s.len() == 8 + n1 + n2 + n3 {
                                match inflate_stored(body) {
                                    Some(raw) => match unfilter(raw, width * 4, height as nat) {
                                        Some(pixels) => Some((width, height, pixels)),
                                        None => None,
                                    },
                                    None => None,
                                }
                            } else {
                                None
                            },
                            None => None,
                        },
                        None => None,
                    }
                }
            },
            None => None,
        }
    }
}

proof fn lemma_read_be32(x: u32)
    ensures
        read_be32(be32(x)) == x as int,
{
    assert(((x >> 24u32) as u8) as int * 0x100_0000 + ((x >> 16u32) as u8) as int * 0x1_0000 + ((x
        >> 8u32) as u8) as int * 0x100 + (x as u8) as int == x as int) by (bit_vector);
}

proof fn lemma_read_chunk(kind: Seq<u8>, payload: Seq<u8>, rest: Seq<u8>)
    requires
        kind.len() == 4,
        payload.len() <= u32::MAX,
    ensures
        chunk_spec(kind, payload).len() == 12 + payload.len(),
        read_chunk(chunk_spec(kind, payload) + rest) == Some(
            (kind, payload, 12 + payload.len() as int),
        ),
{
    let c = chunk_spec(kind, payload);
    let s = c + rest;
    let len = payload.len() as int;
    lemma_read_be32(payload.len() as u32);
    lemma_read_be32(crc32_spec(kind + payload));
    assert(s.take(4) =~= be32(payload.len() as u32));
    assert(read_be32(s) == read_be32(s.take(4)));
    assert(s.subrange(4, 8) =~= kind);
    assert(s.subrange(8, 8 + len) =~= payload);
    assert(s.subrange(8 + len, 12 + len) =~= be32(crc32_spec(kind + payload)));
}

proof fn lemma_unfilter(pixels: Seq<u8>, stride: int, rows: nat)
    requires
        stride >= 0,
        pixels.len() == stride * rows,
    ensures
        unfilter(scanlines(pixels, stride, rows), stride, rows) == Some(pixels),
    decreases rows,
{
    if rows > 0 {
        let prev = (rows - 1) as nat;
        let front = pixels.take(stride * prev);
        assert(stride * rows == stride * prev + stride) by (nonlinear_arith)
            requires
                prev + 1 == rows,
        ;
        assert(stride * prev >= 0) by (nonlinear_arith)
            requires
                stride >= 0,
        ;
        assert(prev * stride == stride * prev) by (nonlinear_arith);
        assert(rows * stride == stride * rows) by (nonlinear_arith);
        lemma_scanlines_prefix(pixels, front, stride, prev);
        lemma_unfilter(front, stride, prev);
        lemma_scanlines_len(pixels, stride, prev);
        assert((rows - 1) * stride == stride * prev);
        let raw = scanlines(pixels, stride, rows);
        assert(raw == scanlines(pixels, stride, prev) + seq![0u8] + pixels.subrange(
            stride * prev,
            stride * rows,
        ));
        let start = raw.len() - (stride + 1);
        assert(raw.take(start) =~= scanlines(pixels, stride, prev));
        assert(raw.skip(start + 1) =~= pixels.subrange(stride * prev, stride * rows));
        assert(front + pixels.subrange(stride * prev, stride * rows) =~= pixels);
    } else {
        assert(stride * rows == 0) by (nonlinear_arith)
            requires
                rows == 0,
        ;
        assert(pixels =~= Seq::<u8>::empty());
    }
}

proof fn lemma_scanlines_len(pixels: Seq<u8>, stride: int, rows: nat)
    requires
        stride >= 0,
        pixels.len() >= stride * rows,
    ensures
        scanlines(pixels, stride, rows).len() == (stride + 1) * rows,
    decreases rows,
{
    if rows > 0 {
        let prev = (rows - 1) as nat;
        assert(stride * rows == stride * prev + stride) by (nonlinear_arith)
            requires
                prev + 1 == rows,
        ;
        assert((stride + 1) * rows == (stride + 1) * prev + stride + 1) by (nonlinear_arith)
            requires
                prev + 1 == rows,
        ;
        assert(prev * stride == stride * prev && rows * stride == stride * rows) by (
        nonlinear_arith);
        assert(stride * prev >= 0) by (nonlinear_arith)
            requires
                stride >= 0,
        ;
        lemma_scanlines_len(pixels, stride, prev);
        assert((rows - 1) * stride == stride * prev);
        assert(pixels.subrange((rows - 1) * stride, rows * stride).len() == stride);
    } else {
        assert((stride + 1) * rows == 0) by (nonlinear_arith)
            requires
                rows == 0,
        ;
    }
}

proof fn lemma_scanlines_prefix(pixels: Seq<u8>, front: Seq<u8>, stride: int, rows: nat)
    requires
        stride >= 0,
        front.len() == stride * rows,
        front.len() <= pixels.len(),
        front == pixels.take(front.len() as int),
    ensures
        scanlines(front, stride, rows) == scanlines(pixels, stride, rows),
    decreases rows,
{
    if rows > 0 {
        let prev = (rows - 1) as nat;
        assert(stride * rows == stride * prev + stride) by (nonlinear_arith)
            requires
                prev + 1 == rows,
        ;
        assert(prev * stride == stride * prev && rows * stride == stride * rows) by (
        nonlinear_arith);
        assert(stride * prev >= 0) by (nonlinear_arith)
            requires
                stride >= 0,
        ;
        let shorter = front.take(stride * prev);
        assert(shorter =~= pixels.take(stride * prev));
        assert((rows - 1) * stride == stride * prev);
        lemma_scanlines_prefix(front, shorter, stride, prev);
        lemma_scanlines_prefix(pixels, shorter, stride, prev);
        assert(front.subrange(stride * prev, stride * rows) =~= pixels.subrange(
            stride * prev,
            stride * rows,
        ));
    }
}

proof fn lemma_three_chunks(
    sig: Seq<u8>,
    c1: Seq<u8>,
    c2: Seq<u8>,
    c3: Seq<u8>,
    r1: (Seq<u8>, Seq<u8>, int),
    r2: (Seq<u8>, Seq<u8>, int),
    r3: (Seq<u8>, Seq<u8>, int),
)
    requires
        sig.len() == 8,
        read_chunk(c1 + (c2 + c3)) == Some(r1) && r1.2 == c1.len(),
        read_chunk(c2 + c3) == Some(r2) && r2.2 == c2.len(),
        read_chunk(c3 + Seq::<u8>::empty()) == Some(r3) && r3.2 == c3.len(),
    ensures
        ({
            let s = sig + c1 + c2 + c3;
            &&& s.len() == 8 + r1.2 + r2.2 + r3.2
            &&& s.take(8) == sig
            &&& read_chunk(s.skip(8)) == Some(r1)
            &&& read_chunk(s.skip(8 + r1.2)) == Some(r2)
            &&& read_chunk(s.skip(8 + r1.2 + r2.2)) == Some(r3)
        }),
{
    let s = sig + c1 + c2 + c3;
    assert(s.take(8) =~= sig);
    assert(s.skip(8) =~= c1 + (c2 + c3));
    assert(s.skip(8 + r1.2) =~= c2 + c3);
    assert(s.skip(8 + r1.2 + r2.2) =~= c3 + Seq::<u8>::empty());
}

proof fn lemma_png_header(width: u32, height: u32)
    ensures
        ihdr_payload(width, height).len() == 13,
        ihdr_payload(width, height).subrange(8, 13) == seq![8u8, 6u8, 0u8, 0u8, 0u8],
        read_be32(ihdr_payload(width, height)) == width,
        read_be32(ihdr_payload(width, height).skip(4)) == height,
{
    let header = ihdr_payload(width, height);
    lemma_read_be32(width);
    lemma_read_be32(height);
    assert(header.take(4) =~= be32(width));
    assert(header.skip(4).take(4) =~= be32(height));
    assert(read_be32(header) == read_be32(header.take(4)));
    assert(read_be32(header.skip(4)) == read_be32(header.skip(4).take(4)));
    assert(header.subrange(8, 13) =~= seq![8u8, 6u8, 0u8, 0u8, 0u8]);
}

proof fn lemma_decode_parts(
    s: Seq<u8>,
    header: Seq<u8>,
    body: Seq<u8>,
    raw: Seq<u8>,
    width: int,
    height: nat,
    pixels: Seq<u8>,
)
    requires
        s.len() == 8 + (12 + header.len()) + (12 + body.len()) + 12,
        s.take(8) == png_signature(),
        read_chunk(s.skip(8)) == Some((ihdr(), header, 12 + header.len() as int)),
        read_chunk(s.skip(8 + (12 + header.len() as int))) == Some(
            (idat(), body, 12 + body.len() as int),
        ),
        read_chunk(s.skip(8 + (12 + header.len() as int) + (12 + body.len() as int))) == Some(
            (iend(), Seq::<u8>::empty(), 12int),
        ),
        header.len() == 13,
        header.subrange(8, 13) == seq![8u8, 6u8, 0u8, 0u8, 0u8],
        read_be32(header) == width,
        read_be32(header.skip(4)) == height,
        inflate_stored(body) == Some(raw),
        unfilter(raw, width * 4, height) == Some(pixels),
    ensures
        decode_png(s) == Some((width, height as int, pixels)),
{
}

/// Decoding what `encode_rgba` writes gives back the width, height and
/// pixels: a PNG signature, an IHDR for 8-bit RGBA, one IDAT whose stored
/// zlib stream holds the scanlines (filter type 0), and IEND. The image
/// data must fit the 32-bit chunk length field.
#[verifier::spinoff_prover]
#[verifier::rlimit(50)]
pub proof fn lemma_png_decodes(width: u32, height: u32, pixels: Seq<u8>)
    requires
        pixels.len() == width * 4 * height,
        zlib_stored_spec(scanlines(pixels, width * 4, height as nat)).len() <= u32::MAX,
    ensures
        decode_png(png_spec(width, height, pixels)) == Some((width as int, height as int, pixels)),
{
    let stride = width * 4;
    let raw = scanlines(pixels, stride, height as nat);
    let (header, body) = (ihdr_payload(width, height), zlib_stored_spec(raw));
    let c1 = chunk_spec(ihdr(), header);
    let c2 = chunk_spec(idat(), body);
    let c3 = chunk_spec(iend(), Seq::<u8>::empty());
    let s = png_spec(width, height, pixels);
    assert(s == png_signature() + c1 + c2 + c3);
    lemma_png_header(width, height);
    lemma_read_chunk(ihdr(), header, c2 + c3);
    lemma_read_chunk(idat(), body, c3);
    lemma_read_chunk(iend(), Seq::<u8>::empty(), Seq::<u8>::empty());
    lemma_three_chunks(
        png_signature(),
        c1,
        c2,
        c3,
        (ihdr(), header, 12 + header.len() as int),
        (idat(), body, 12 + body.len() as int),
        (iend(), Seq::<u8>::empty(), 12),
    );
    lemma_zlib_stored_inflates(raw);
    assert(width * 4 * height == stride * height) by (nonlinear_arith)
        requires
            stride == width * 4,
    ;
    lemma_unfilter(pixels, stride, height as nat);
    lemma_decode_parts(s, header, body, raw, width as int, height as nat, pixels);
}

/// The number of stored blocks for `n` bytes: one per 65535 bytes, and one
/// for no bytes at all.
pub open spec fn block_count(n: int) -> int {
    if n <= 0 {
        1
    } else {
        (n + 65534) / 65535
    }
}

proof fn lemma_stored_blocks_len(data: Seq<u8>)
    ensures
        stored_blocks(data).len() == 5 * block_count(data.len() as int) + data.len(),
    decreases data.len(),
{
    if data.len() > max_block() {
        lemma_stored_blocks_len(data.skip(max_block()));
    }
}

/// A stored zlib stream is the 2-byte header, a 5-byte header per block
/// of at most 65535 bytes (one block for empty data), the data itself and
/// the 4-byte checksum.
pub proof fn lemma_zlib_stored_len(data: Seq<u8>)
    ensures
        zlib_stored_spec(data).len() == 2 + 5 * block_count(data.len() as int) + data.len() + 4,
{
    lemma_stored_blocks_len(data);
}

proof fn lemma_sums_nonneg(s: Seq<u8>)
    ensures
        byte_sum(s) >= 0,
        running_sums(s) >= 0,
    decreases s.len(),
{
    if s.len() > 0 {
        lemma_sums_nonneg(s.drop_last());
    }
}

/// A stored zlib stream ends with the Adler-32 of RFC 1950 over its data:
/// the low half A is 1 plus the sum of the bytes modulo 65521, the high half
/// B the sum of the successive values of A modulo 65521, both below 65521.
pub proof fn lemma_zlib_checksum(data: Seq<u8>)
    ensures
        ({
            let z = zlib_stored_spec(data);
            let c = adler32_spec(data) as int;
            &&& z.skip(z.len() - 4) == be32(adler32_spec(data))
            &&& 0 <= c % 65536 < 65521
            &&& 0 <= c / 65536 < 65521
            &&& c % 65536 == (1 + byte_sum(data)) % 65521
            &&& c / 65536 == running_sums(data) % 65521
        }),
{
    lemma_sums_nonneg(data);
    let a = (1 + byte_sum(data)) % 65521;
    let b = running_sums(data) % 65521;
    assert(0 <= a < 65521 && 0 <= b < 65521);
    assert(b * 65536 + a < 0x1_0000_0000) by (nonlinear_arith)
        requires
            0 <= a < 65521,
            0 <= b < 65521,
    ;
    let c = adler32_spec(data) as int;
    assert(c == b * 65536 + a);
    assert(c % 65536 == a && c / 65536 == b) by (nonlinear_arith)
        requires
            c == b * 65536 + a,
            0 <= a < 65521,
            0 <= b < 65521,
    ;
    let z = zlib_stored_spec(data);
    assert(z.skip(z.len() - 4) =~= be32(adler32_spec(data)));
}

} // verus!
