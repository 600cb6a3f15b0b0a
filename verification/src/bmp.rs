use vstd::prelude::*;

verus! {

/// The byte length of one stored pixel row: 3 bytes per pixel, padded up to
/// a multiple of 4.
pub open spec fn row_size_of(w: int) -> int {
    ((3 * w + 3) / 4) * 4
}

/// The little-endian bytes of a 16-bit value.
pub open spec fn le16(v: u16) -> Seq<u8> {
    seq![(v & 0xFF) as u8, ((v >> 8) & 0xFF) as u8]
}

/// The little-endian bytes of a 32-bit value.
pub open spec fn le32(v: u32) -> Seq<u8> {
    seq![
        (v & 0xFF) as u8,
        ((v >> 8) & 0xFF) as u8,
        ((v >> 16) & 0xFF) as u8,
        ((v >> 24) & 0xFF) as u8,
    ]
}

/// The 54 header bytes: the 14-byte file header (the signature "BM", the
/// file size, four reserved bytes, the pixel data offset) followed by the
/// 40-byte info header (its own size, width, height, 1 color plane, 24 bits
/// per pixel, no compression, the pixel data size, 2835 pixels per meter in
/// both directions, no palette, no important-color count).
pub open spec fn header_bytes(w: int, h: int) -> Seq<u8> {
    seq![0x42u8, 0x4Du8] + le32((54 + row_size_of(w) * h) as u32) + seq![0u8, 0u8, 0u8, 0u8]
        + le32(54) + le32(40) + le32(w as u32) + le32(h as u32) + le16(1) + le16(24) + le32(0)
        + le32((row_size_of(w) * h) as u32) + le32(2835) + le32(2835) + le32(0) + le32(0)
}

/// The blue, green and red bytes of one packed pixel, in stored order.
pub open spec fn pix_triplet(p: u32) -> Seq<u8> {
    seq![(p & 0xFF) as u8, ((p >> 8) & 0xFF) as u8, ((p >> 16) & 0xFF) as u8]
}

/// The bytes of the first `k` pixels of row `y`, in column order.
pub open spec fn row_px(buf: Seq<u32>, w: int, y: int, k: int) -> Seq<u8>
    decreases k,
{
    if k <= 0 {
        Seq::empty()
    } else {
        row_px(buf, w, y, k - 1) + pix_triplet(buf[y * w + (k - 1)])
    }
}

/// One stored row: its pixels' bytes followed by the zero padding.
pub open spec fn row_bytes(buf: Seq<u32>, w: int, y: int) -> Seq<u8> {
    row_px(buf, w, y, w) + Seq::new((row_size_of(w) - 3 * w) as nat, |i: int| 0u8)
}

/// The stored rows from the bottom row `h - 1` down to row `y`: rows are
/// written bottom-to-top.
pub open spec fn rows_from(buf: Seq<u32>, w: int, h: int, y: int) -> Seq<u8>
    decreases h - y,
{
    if y >= h {
        Seq::empty()
    } else {
        rows_from(buf, w, h, y + 1) + row_bytes(buf, w, y)
    }
}

/// The whole bitmap file: the header, then the pixel rows bottom-to-top.
pub open spec fn bmp_bytes(buf: Seq<u32>, w: int, h: int) -> Seq<u8> {
    header_bytes(w, h) + rows_from(buf, w, h, 0)
}

fn push_le32(out: &mut Vec<u8>, v: u32)
    ensures
        final(out)@ == old(out)@ + le32(v),
{
    out.push((v & 0xFF) as u8);
    out.push(((v >> 8) & 0xFF) as u8);
    out.push(((v >> 16) & 0xFF) as u8);
    out.push(((v >> 24) & 0xFF) as u8);
    proof {
        assert(out@ =~= old(out)@ + le32(v));
    }
}

fn push_le16(out: &mut Vec<u8>, v: u16)
    ensures
        final(out)@ == old(out)@ + le16(v),
{
    out.push((v & 0xFF) as u8);
    out.push(((v >> 8) & 0xFF) as u8);
    proof {
        assert(out@ =~= old(out)@ + le16(v));
    }
}

/// Serializes a pixel buffer of the given dimensions as a complete
/// uncompressed 24-bit bitmap file: 54 header bytes, then each row as
/// blue-green-red triplets padded with zero bytes to a multiple of 4,
/// rows stored bottom-to-top.
pub fn encode(buffer: &Vec<u32>, width: usize, height: usize) -> (out: Vec<u8>)
    requires
        width >= 1,
        height >= 1,
        buffer@.len() == width * height,
        54 + row_size_of(width as int) * (height as int) <= 0xFFFF_FFFF,
    ensures
        out@ == bmp_bytes(buffer@, width as int, height as int),
{
    proof {
        assert(row_size_of(width as int) * (height as int) >= row_size_of(width as int) * 1)
            by (nonlinear_arith)
            requires
                height as int >= 1 && row_size_of(width as int) >= 0,
        ;
        assert(row_size_of(width as int) >= 3 * (width as int) && row_size_of(width as int) <= 3
            * (width as int) + 3);
    }
    let row_size: usize = ((3 * width + 3) / 4) * 4;
    let pixel_data_size: usize = row_size * height;
    let file_size: u32 = 54 + (pixel_data_size as u32);

    let mut out: Vec<u8> = Vec::new();
    out.push(0x42);
    out.push(0x4D);
    push_le32(&mut out, file_size);
    out.push(0);
    out.push(0);
    out.push(0);
    out.push(0);
    push_le32(&mut out, 54);
    push_le32(&mut out, 40);
    push_le32(&mut out, width as u32);
    push_le32(&mut out, height as u32);
    push_le16(&mut out, 1);
    push_le16(&mut out, 24);
    push_le32(&mut out, 0);
    push_le32(&mut out, pixel_data_size as u32);
    push_le32(&mut out, 2835);
    push_le32(&mut out, 2835);
    push_le32(&mut out, 0);
    push_le32(&mut out, 0);
    proof {
        assert(out@ =~= header_bytes(width as int, height as int));
        assert(rows_from(buffer@, width as int, height as int, height as int) =~= Seq::<
            u8,
        >::empty());
        assert(out@ =~= header_bytes(width as int, height as int) + rows_from(
            buffer@,
            width as int,
            height as int,
            height as int,
        ));
    }
    let mut y: usize = height;
    while y > 0
        invariant
            y <= height,
            width >= 1,
            height >= 1,
            buffer@.len() == width * height,
            row_size as int == row_size_of(width as int),
            row_size as int <= 0xFFFF_FFFF,
            out@ == header_bytes(width as int, height as int) + rows_from(
                buffer@,
                width as int,
                height as int,
                y as int,
            ),
        decreases y,
    {
        y = y - 1;
        let ghost rstart = out@;
        let mut x: usize = 0;
        proof {
            assert(rstart + row_px(buffer@, width as int, y as int, 0) =~= rstart);
        }
        while x < width
            invariant
                x <= width,
                y < height,
                width >= 1,
                buffer@.len() == width * height,
                out@ == rstart + row_px(buffer@, width as int, y as int, x as int),
            decreases width - x,
        {
            let nb = buffer.len();
            proof {
                assert((y as int) * (width as int) + (x as int) < (width as int) * (
                height as int)) by (nonlinear_arith)
                    requires
                        (y as int) <= (height as int) - 1 && (x as int) < (width as int) && (
                        width as int) >= 1,
                ;
                assert(nb == buffer@.len());
            }
            let pixel = buffer[y * width + x];
            out.push((pixel & 0xFF) as u8);
            out.push(((pixel >> 8) & 0xFF) as u8);
            out.push(((pixel >> 16) & 0xFF) as u8);
            proof {
                assert(out@ =~= rstart + row_px(buffer@, width as int, y as int, x as int + 1));
            }
            x = x + 1;
        }
        proof {
            assert(3 * (width as int) <= row_size as int);
        }
        let pad = row_size - 3 * width;
        let mut p: usize = 0;
        proof {
            assert(row_px(buffer@, width as int, y as int, width as int) + Seq::new(
                0nat,
                |i: int| 0u8,
            ) =~= row_px(buffer@, width as int, y as int, width as int));
        }
        while p < pad
            invariant
                p <= pad,
                out@ == rstart + row_px(buffer@, width as int, y as int, width as int) + Seq::new(
                    p as nat,
                    |i: int| 0u8,
                ),
            decreases pad - p,
        {
            out.push(0);
            proof {
                assert(Seq::new(p as nat, |i: int| 0u8).push(0u8) =~= Seq::new(
                    p as nat + 1,
                    |i: int| 0u8,
                ));
                assert(out@ =~= rstart + row_px(buffer@, width as int, y as int, width as int)
                    + Seq::new(p as nat + 1, |i: int| 0u8));
            }
            p = p + 1;
        }
        proof {
            assert(pad as int == row_size_of(width as int) - 3 * (width as int));
            assert(out@ =~= rstart + row_bytes(buffer@, width as int, y as int));
            assert(rows_from(buffer@, width as int, height as int, y as int) == rows_from(
                buffer@,
                width as int,
                height as int,
                y as int + 1,
            ) + row_bytes(buffer@, width as int, y as int));
            assert(out@ =~= header_bytes(width as int, height as int) + rows_from(
                buffer@,
                width as int,
                height as int,
                y as int,
            ));
        }
    }
    out
}

} // verus!
