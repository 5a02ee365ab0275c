//! A minimal ICO writer.
//!
//! Windows Vista and later accept PNG-compressed image entries inside .ico
//! files, so the app icon can be a handful of PNGs wrapped in an ICO header.

use vstd::prelude::*;

use crate::bytes::{append_all, le16, le32, push_le16, push_le32};

verus! {

/// The entries as (size, PNG bytes) values.
pub open spec fn entry_views(entries: Seq<(u32, &[u8])>) -> Seq<(u32, Seq<u8>)> {
    entries.map_values(|e: (u32, &[u8])| (e.0, e.1@))
}

/// Total length of the images in `es`.
pub open spec fn images_len(es: Seq<(u32, Seq<u8>)>) -> int
    decreases es.len(),
{
    if es.len() == 0 {
        0
    } else {
        images_len(es.drop_last()) + es.last().1.len()
    }
}

/// The images of `es`, one after another.
pub open spec fn images(es: Seq<(u32, Seq<u8>)>) -> Seq<u8>
    decreases es.len(),
{
    if es.len() == 0 {
        Seq::empty()
    } else {
        images(es.drop_last()) + es.last().1
    }
}

/// The width/height byte of a directory entry: the size, or 0 for 256 and up.
pub open spec fn dim_byte(size: u32) -> u8 {
    if size >= 256 {
        0
    } else {
        size as u8
    }
}

/// One 16-byte ICONDIRENTRY for an image of `size` pixels, `len` bytes long,
/// stored at `offset`.
pub open spec fn dir_entry(size: u32, len: int, offset: int) -> Seq<u8> {
    seq![dim_byte(size), dim_byte(size), 0u8, 0u8] + le16(1) + le16(32) + le32(len as u32) + le32(
        offset as u32,
    )
}

/// The directory entries for `es`, whose images start at `base`.
pub open spec fn dir_entries(es: Seq<(u32, Seq<u8>)>, base: int) -> Seq<u8>
    decreases es.len(),
{
    if es.len() == 0 {
        Seq::empty()
    } else {
        dir_entries(es.drop_last(), base) + dir_entry(
            es.last().0,
            es.last().1.len() as int,
            base + images_len(es.drop_last()),
        )
    }
}

/// An .ico file: ICONDIR (reserved 0, type 1 = icon, image count), the
/// directory entries, then the images, which begin right after the last
/// entry.
pub open spec fn ico_spec(es: Seq<(u32, Seq<u8>)>) -> Seq<u8> {
    le16(0) + le16(1) + le16(es.len() as u16) + dir_entries(es, 6 + 16 * es.len() as int) + images(es)
}

/// Encode a .ico file from (size, PNG bytes) entries.
pub fn encode(entries: &[(u32, &[u8])]) -> (res: Vec<u8>)
    requires
        6 + 16 * entries@.len() + images_len(entry_views(entries@)) <= usize::MAX,
    ensures
        res@ == ico_spec(entry_views(entries@)),
{
    let ghost es = entry_views(entries@);
    assert(es.len() == entries@.len());
    proof {
        lemma_images_len_nonneg(es);
        assert(es.take(0) == Seq::<(u32, Seq<u8>)>::empty());
    }
    let mut out: Vec<u8> = Vec::new();

    // ICONDIR
    push_le16(&mut out, 0); // reserved
    push_le16(&mut out, 1); // 1 = icon
    push_le16(&mut out, #[verifier::truncate] (entries.len() as u16));

    // ICONDIRENTRY x N. Image data begins right after the last entry.
    let mut offset: usize = 6 + entries.len() * 16;
    let ghost base: int = 6 + 16 * es.len() as int;
    let mut i: usize = 0;
    while i < entries.len()
        invariant
            es == entry_views(entries@),
            base == 6 + 16 * es.len(),
            base + images_len(es) <= usize::MAX,
            i <= entries.len(),
            offset == base + images_len(es.take(i as int)),
            out@ == le16(0) + le16(1) + le16(es.len() as u16) + dir_entries(es.take(i as int), base),
        decreases entries.len() - i,
    {
        let (size, png) = entries[i];
        let dim: u8 = if size >= 256 { 0 } else { size as u8 }; // 0 means 256
        out.push(dim);
        out.push(dim);
        out.push(0); // no palette
        out.push(0); // reserved
        push_le16(&mut out, 1); // colour planes
        push_le16(&mut out, 32); // bits per pixel
        push_le32(&mut out, #[verifier::truncate] (png.len() as u32));
        push_le32(&mut out, #[verifier::truncate] (offset as u32));
        proof {
            let t = es.take(i + 1);
            assert(t.drop_last() == es.take(i as int));
            assert(t.last() == (size, png@));
            lemma_images_len_prefix(es, i as int + 1);
        }
        offset = offset + png.len();
        i = i + 1;
    }

    assert(es.take(es.len() as int) == es);
    let mut j: usize = 0;
    while j < entries.len()
        invariant
            es == entry_views(entries@),
            j <= entries.len(),
            out@ == le16(0) + le16(1) + le16(es.len() as u16) + dir_entries(es, 6 + 16 * es.len() as int)
                + images(es.take(j as int)),
        decreases entries.len() - j,
    {
        let (_, png) = entries[j];
        append_all(&mut out, png);
        assert(es.take(j + 1).drop_last() == es.take(j as int));
        j = j + 1;
    }
    assert(es.take(es.len() as int) == es);
    out
}

/// The images of a prefix never outweigh those of the whole.
proof fn lemma_images_len_prefix(es: Seq<(u32, Seq<u8>)>, k: int)
    requires
        0 <= k <= es.len(),
    ensures
        0 <= images_len(es.take(k)) <= images_len(es),
    decreases es.len() - k,
{
    if k < es.len() {
        lemma_images_len_prefix(es, k + 1);
        lemma_images_len_nonneg(es.take(k));
        assert(es.take(k + 1).drop_last() == es.take(k));
    } else {
        assert(es.take(k) == es);
        lemma_images_len_nonneg(es);
    }
}

proof fn lemma_images_len_nonneg(es: Seq<(u32, Seq<u8>)>)
    ensures
        images_len(es) >= 0,
    decreases es.len(),
{
    if es.len() > 0 {
        lemma_images_len_nonneg(es.drop_last());
    }
}

proof fn lemma_dir_len(es: Seq<(u32, Seq<u8>)>, base: int)
    ensures
        dir_entries(es, base).len() == 16 * es.len(),
    decreases es.len(),
{
    if es.len() > 0 {
        lemma_dir_len(es.drop_last(), base);
    }
}

proof fn lemma_dir_at(es: Seq<(u32, Seq<u8>)>, base: int, i: int)
    requires
        0 <= i < es.len(),
    ensures
        dir_entries(es, base).subrange(16 * i, 16 * i + 16) == dir_entry(
            es[i].0,
            es[i].1.len() as int,
            base + images_len(es.take(i)),
        ),
    decreases es.len(),
{
    let front = es.drop_last();
    lemma_dir_len(front, base);
    if i == es.len() - 1 {
        assert(front == es.take(i));
    } else {
        lemma_dir_at(front, base, i);
        assert(front.take(i) == es.take(i));
    }
}

proof fn lemma_images_at(es: Seq<(u32, Seq<u8>)>, i: int)
    requires
        0 <= i < es.len(),
    ensures
        images(es).len() == images_len(es),
        images(es).subrange(images_len(es.take(i)), images_len(es.take(i)) + es[i].1.len())
            == es[i].1,
    decreases es.len(),
{
    let front = es.drop_last();
    lemma_images_len_matches(front);
    if i == es.len() - 1 {
        assert(front == es.take(i));
    } else {
        lemma_images_at(front, i);
        assert(front.take(i) == es.take(i));
        lemma_images_len_prefix(front, i);
        lemma_images_len_prefix(front, i + 1);
        assert(front.take(i + 1).drop_last() == front.take(i));
    }
}

proof fn lemma_images_len_matches(es: Seq<(u32, Seq<u8>)>)
    ensures
        images(es).len() == images_len(es),
    decreases es.len(),
{
    if es.len() > 0 {
        lemma_images_len_matches(es.drop_last());
    }
}

/// The little-endian number held in the first four bytes of `b`.
pub open spec fn read_le32(b: Seq<u8>) -> int {
    b[0] as int + b[1] as int * 0x100 + b[2] as int * 0x1_0000 + b[3] as int * 0x100_0000
}

proof fn lemma_read_le32(x: u32)
    ensures
        read_le32(le32(x)) == x as int,
{
    assert((x as u8) as int + ((x >> 8u32) as u8) as int * 0x100 + ((x >> 16u32) as u8) as int
        * 0x1_0000 + ((x >> 24u32) as u8) as int * 0x100_0000 == x as int) by (bit_vector);
}

/// Each directory entry of an encoded .ico names its image: entry `i`
/// (16 bytes at 6 + 16i) records the image's size in bytes and an offset at
/// which exactly that image's bytes are found. The offsets are 32-bit
/// fields, so the file must fit in 4 GiB.
pub proof fn lemma_ico_entry_locates_image(es: Seq<(u32, Seq<u8>)>, i: int)
    requires
        0 <= i < es.len(),
        6 + 16 * es.len() + images_len(es) <= u32::MAX,
    ensures
        ({
            let f = ico_spec(es);
            let at = 6 + 16 * i;
            let offset = read_le32(f.subrange(at + 12, at + 16));
            &&& read_le32(f.subrange(at + 8, at + 12)) == es[i].1.len()
            &&& 0 <= offset && offset + es[i].1.len() <= f.len()
            &&& f.subrange(offset, offset + es[i].1.len()) == es[i].1
        }),
{
    let n = es.len() as int;
    let base = 6 + 16 * n;
    let f = ico_spec(es);
    let at = 6 + 16 * i;
    let dir = dir_entries(es, base);
    let start = images_len(es.take(i));
    let len = es[i].1.len() as int;
    lemma_dir_len(es, base);
    lemma_dir_at(es, base, i);
    lemma_images_at(es, i);
    lemma_images_len_prefix(es, i);
    lemma_images_len_prefix(es, i + 1);
    assert(es.take(i + 1).drop_last() == es.take(i));
    assert(es.take(i + 1).last() == es[i]);
    let entry = dir_entry(es[i].0, len, base + start);
    assert(f == le16(0) + le16(1) + le16(es.len() as u16) + dir + images(es));
    assert(f.subrange(at, at + 16) =~= dir.subrange(16 * i, 16 * i + 16));
    assert(entry.subrange(8, 12) =~= le32(len as u32));
    assert(entry.subrange(12, 16) =~= le32((base + start) as u32));
    assert(f.subrange(at + 8, at + 12) =~= f.subrange(at, at + 16).subrange(8, 12));
    assert(f.subrange(at + 12, at + 16) =~= f.subrange(at, at + 16).subrange(12, 16));
    lemma_read_le32(len as u32);
    lemma_read_le32((base + start) as u32);
    assert(f.subrange(base + start, base + start + len) =~= images(es).subrange(
        start,
        start + len,
    ));
}

/// An .ico file is its 6-byte header, 16 bytes per entry, and the images.
pub proof fn lemma_ico_len(es: Seq<(u32, Seq<u8>)>)
    ensures
        ico_spec(es).len() == 6 + 16 * es.len() + images_len(es),
{
    lemma_dir_len(es, 6 + 16 * es.len() as int);
    lemma_images_len_matches(es);
}

/// The byte layout of an .ico: the header `0, 0, 1, 0` and the entry count
/// (little-endian), then entry `i` at 6 + 16i: the width and height byte
/// (0 for 256 and up), no palette, reserved 0, one colour plane, 32 bits per
/// pixel, the image's length and its offset, which is 6 + 16n plus the
/// lengths of the images before it.
pub proof fn lemma_ico_layout(es: Seq<(u32, Seq<u8>)>, i: int)
    requires
        0 <= i < es.len(),
    ensures
        ico_spec(es).take(6) == seq![0u8, 0u8, 1u8, 0u8] + le16(es.len() as u16),
        ico_spec(es).subrange(6 + 16 * i, 6 + 16 * i + 16) == seq![
            dim_byte(es[i].0),
            dim_byte(es[i].0),
            0u8,
            0u8,
            1u8,
            0u8,
            32u8,
            0u8,
        ] + le32(es[i].1.len() as u32) + le32(
            (6 + 16 * es.len() + images_len(es.take(i))) as u32,
        ),
{
    let n = es.len() as int;
    let base = 6 + 16 * n;
    let f = ico_spec(es);
    let at = 6 + 16 * i;
    let dir = dir_entries(es, base);
    lemma_dir_len(es, base);
    lemma_dir_at(es, base, i);
    assert(f == le16(0) + le16(1) + le16(es.len() as u16) + dir + images(es));
    assert(le16(0) =~= seq![0u8, 0u8]) by {
        assert((0u16 >> 8u16) as u8 == 0u8) by (bit_vector);
    }
    assert(le16(1) =~= seq![1u8, 0u8]) by {
        assert((1u16 >> 8u16) as u8 == 0u8) by (bit_vector);
    }
    assert(le16(32) =~= seq![32u8, 0u8]) by {
        assert((32u16 >> 8u16) as u8 == 0u8) by (bit_vector);
    }
    assert(f.take(6) =~= seq![0u8, 0u8, 1u8, 0u8] + le16(es.len() as u16));
    assert(f.subrange(at, at + 16) =~= dir.subrange(16 * i, 16 * i + 16));
    assert(dir_entry(es[i].0, es[i].1.len() as int, base + images_len(es.take(i))) =~= seq![
        dim_byte(es[i].0),
        dim_byte(es[i].0),
        0u8,
        0u8,
        1u8,
        0u8,
        32u8,
        0u8,
    ] + le32(es[i].1.len() as u32) + le32((base + images_len(es.take(i))) as u32));
}

/// The width and height bytes of an .ico entry give the image's size: the
/// size itself below 256, and 0 (which stands for 256) from 256 on.
pub proof fn lemma_ico_entry_size(es: Seq<(u32, Seq<u8>)>, i: int)
    requires
        0 <= i < es.len(),
    ensures
        es[i].0 < 256 ==> ico_spec(es)[6 + 16 * i] as int == es[i].0 as int && ico_spec(es)[7
            + 16 * i] as int == es[i].0 as int,
        es[i].0 >= 256 ==> ico_spec(es)[6 + 16 * i] == 0 && ico_spec(es)[7 + 16 * i] == 0,
{
    lemma_ico_layout(es, i);
    lemma_ico_len(es);
    lemma_images_len_nonneg(es);
    let f = ico_spec(es);
    let at = 6 + 16 * i;
    assert(at + 16 <= f.len());
    assert(f[at] == f.subrange(at, at + 16)[0]);
    assert(f[at + 1] == f.subrange(at, at + 16)[1]);
    let s = es[i].0;
    if s < 256 {
        assert((s as u8) as int == s as int) by (bit_vector)
            requires
                s < 256,
        ;
    }
}

} // verus!
