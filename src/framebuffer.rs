use vstd::prelude::*;

verus! {

/// Channel `k` of a color: `0` red, `1` green, `2` blue.
pub open spec fn channel(c: (u8, u8, u8), k: int) -> u8 {
    if k == 0 {
        c.0
    } else if k == 1 {
        c.1
    } else {
        c.2
    }
}

/// Position in a frame buffer of byte `c` of row `y`, rows being `stride`
/// bytes apart.
pub open spec fn row_byte(stride: int, y: int, c: int) -> int {
    y * stride + c
}

/// Position of channel `k` of pixel `(x, y)`: three bytes per pixel,
/// starting at `y * stride + x * 3`.
pub open spec fn pixel_byte(stride: int, x: int, y: int, k: int) -> int {
    y * stride + 3 * x + k
}

/// A scanline after the colors `colors` were written at its start, three
/// bytes per pixel in the order red, green, blue; the bytes after them keep
/// their values.
pub open spec fn row_image(row: Seq<u8>, colors: Seq<(u8, u8, u8)>) -> Seq<u8> {
    Seq::new(
        row.len(),
        |i: int|
            if i < 3 * colors.len() {
                channel(colors[i / 3], i % 3)
            } else {
                row[i]
            },
    )
}

/// `after` is the buffer `before` once a `width` x `height` image `colors`
/// (row-major) was written into it with rows `stride` bytes apart: the three
/// bytes of each pixel hold its color, the padding at the end of each row
/// and every byte past the last row keep their values.
pub open spec fn frame_written(
    before: Seq<u8>,
    after: Seq<u8>,
    stride: int,
    width: int,
    height: int,
    colors: Seq<(u8, u8, u8)>,
) -> bool {
    &&& after.len() == before.len()
    &&& forall|x: int, y: int, k: int|
        0 <= x < width && 0 <= y < height && 0 <= k < 3 ==> #[trigger] after[pixel_byte(
            stride,
            x,
            y,
            k,
        )] == channel(colors[y * width + x], k)
    &&& forall|y: int, c: int|
        0 <= y < height && 3 * width <= c < stride ==> #[trigger] after[row_byte(stride, y, c)]
            == before[row_byte(stride, y, c)]
    &&& forall|i: int| height * stride <= i < before.len() ==> #[trigger] after[i] == before[i]
}

/// `after` is `before` once each of its first `height` rows (a region of
/// `stride` bytes) was written on its own, as `write_row` does, with that
/// row's colors, and nothing past the last row changed: what rendering the
/// rows on separate workers leaves.
pub open spec fn rows_written(
    before: Seq<u8>,
    after: Seq<u8>,
    stride: int,
    width: int,
    height: int,
    colors: Seq<(u8, u8, u8)>,
) -> bool {
    &&& after.len() == before.len()
    &&& forall|y: int|
        0 <= y < height ==> #[trigger] after.subrange(row_byte(stride, y, 0), row_byte(stride, y, stride))
            == row_image(
            before.subrange(row_byte(stride, y, 0), row_byte(stride, y, stride)),
            colors.subrange(y * width, y * width + width),
        )
    &&& forall|i: int| height * stride <= i < before.len() ==> #[trigger] after[i] == before[i]
}

/// Offset of the first byte of pixel `(x, y)` in a buffer whose rows are
/// `stride` bytes apart.
pub fn pixel_offset(x: u16, y: u16, stride: usize) -> (r: usize)
    requires
        y * stride + 3 * x <= usize::MAX,
    ensures
        r == pixel_byte(stride as int, x as int, y as int, 0),
{
    proof {
        vstd::arithmetic::mul::lemma_mul_nonnegative(y as int, stride as int);
    }
    (y as usize) * stride + (x as usize) * 3
}

/// Stores the three channels of `rgb` at the bytes of pixel `(x, y)`; no
/// other byte changes.
pub fn write_pixel(buffer: &mut [u8], stride: usize, x: u16, y: u16, rgb: (u8, u8, u8))
    requires
        y * stride + 3 * x + 3 <= old(buffer)@.len(),
    ensures
        final(buffer)@ == old(buffer)@.update(pixel_byte(stride as int, x as int, y as int, 0), rgb.0)
            .update(pixel_byte(stride as int, x as int, y as int, 1), rgb.1)
            .update(pixel_byte(stride as int, x as int, y as int, 2), rgb.2),
{
    let offset = pixel_offset(x, y, stride);
    buffer[offset] = rgb.0;
    buffer[offset + 1] = rgb.1;
    buffer[offset + 2] = rgb.2;
}

/// Writes the pixels `colors` at the start of one scanline, three bytes each
/// (red, green, blue); the bytes after them are left as they were.
pub fn write_row(scanline: &mut [u8], colors: &[(u8, u8, u8)])
    requires
        3 * colors@.len() <= old(scanline)@.len(),
    ensures
        final(scanline)@ == row_image(old(scanline)@, colors@),
{
    let n = colors.len();
    let len = scanline.len();
    let mut i: usize = 0;
    while i < n
        invariant
            n == colors@.len(),
            3 * n <= len,
            len == scanline@.len(),
            i <= n,
            scanline@.len() == old(scanline)@.len(),
            forall|j: int| 0 <= j < 3 * i ==> #[trigger] scanline@[j] == channel(colors@[j / 3], j % 3),
            forall|j: int| 3 * i <= j < scanline@.len() ==> #[trigger] scanline@[j] == old(scanline)@[j],
        decreases n - i,
    {
        let c = colors[i];
        scanline[3 * i] = c.0;
        scanline[3 * i + 1] = c.1;
        scanline[3 * i + 2] = c.2;
        i = i + 1;
    }
    assert(scanline@ =~= row_image(old(scanline)@, colors@));
}

/// Whether a buffer of `len` bytes with rows `stride` bytes apart holds a
/// `width` x `height` image: a row has room for three bytes per pixel and the
/// buffer for all the rows.
pub fn frame_fits(len: usize, stride: usize, width: u16, height: u16) -> (r: bool)
    ensures
        r == (3 * width <= stride && height * stride <= len),
{
    assert(height * stride <= u16::MAX * usize::MAX) by (nonlinear_arith)
        requires height <= u16::MAX, stride <= usize::MAX;
    let rows: u128 = (height as u128) * (stride as u128);
    3 * (width as usize) <= stride && rows <= len as u128
}

/// Bytes of different rows never meet: a byte within row `y1` lies before
/// every byte within a later row `y2`.
proof fn lemma_rows_apart(stride: int, y1: int, c1: int, y2: int, c2: int)
    requires
        0 <= y1 < y2,
        0 <= c1 < stride,
        0 <= c2 < stride,
    ensures
        row_byte(stride, y1, c1) < row_byte(stride, y2, c2),
{
    assert(y1 * stride + stride <= y2 * stride) by (nonlinear_arith)
        requires y1 < y2, stride >= 0;
}

/// A row that starts before the end of the frame ends within it.
proof fn lemma_row_fits(stride: int, y: int, height: int)
    requires
        0 <= y < height,
        stride >= 0,
    ensures
        y * stride + stride <= height * stride,
        0 <= y * stride,
{
    assert(y * stride + stride <= height * stride) by (nonlinear_arith)
        requires y < height, stride >= 0;
    assert(0 <= y * stride) by (nonlinear_arith)
        requires y >= 0, stride >= 0;
}

/// Writes a `width` x `height` image, given row-major in `colors`, into a
/// frame buffer whose rows are `stride` bytes apart: pixel `(x, y)` goes to
/// the three bytes from `y * stride + x * 3` on, as red, green, blue. The
/// padding at the end of each row and the bytes after the last row are left
/// untouched.
pub fn write_frame(buffer: &mut [u8], stride: usize, width: u16, height: u16, colors: &[(u8, u8, u8)])
    requires
        colors@.len() == width * height,
        3 * width <= stride,
        height * stride <= old(buffer)@.len(),
    ensures
        frame_written(old(buffer)@, final(buffer)@, stride as int, width as int, height as int, colors@),
{
    let len = buffer.len();
    let n_colors = colors.len();
    let mut y: u16 = 0;
    while y < height
        invariant
            len == buffer@.len(),
            n_colors == colors@.len(),
            buffer@.len() == old(buffer)@.len(),
            colors@.len() == width * height,
            3 * width <= stride,
            height * stride <= len,
            y <= height,
            forall|x: int, yy: int, k: int|
                0 <= x < width && 0 <= yy < y && 0 <= k < 3 ==> #[trigger] buffer@[pixel_byte(
                    stride as int,
                    x,
                    yy,
                    k,
                )] == channel(colors@[yy * width + x], k),
            forall|yy: int, c: int|
                0 <= yy < height && 3 * width <= c < stride ==> #[trigger] buffer@[row_byte(
                    stride as int,
                    yy,
                    c,
                )] == old(buffer)@[row_byte(stride as int, yy, c)],
            forall|i: int| y * stride <= i < len ==> #[trigger] buffer@[i] == old(buffer)@[i],
        decreases height - y,
    {
        proof {
            lemma_row_fits(stride as int, y as int, height as int);
            lemma_row_fits(width as int, y as int, height as int);
            assert(width * height == height * width) by (nonlinear_arith);
        }
        let mut x: u16 = 0;
        while x < width
            invariant
                len == buffer@.len(),
                n_colors == colors@.len(),
                buffer@.len() == old(buffer)@.len(),
                colors@.len() == width * height,
                3 * width <= stride,
                height * stride <= len,
                y < height,
                x <= width,
                y * stride + stride <= height * stride,
                0 <= y * stride,
                y * width + width <= height * width,
                0 <= y * width,
                width * height == height * width,
                forall|xx: int, yy: int, k: int|
                    0 <= xx < width && 0 <= yy < y && 0 <= k < 3 ==> #[trigger] buffer@[pixel_byte(
                        stride as int,
                        xx,
                        yy,
                        k,
                    )] == channel(colors@[yy * width + xx], k),
                forall|xx: int, k: int|
                    0 <= xx < x && 0 <= k < 3 ==> #[trigger] buffer@[pixel_byte(
                        stride as int,
                        xx,
                        y as int,
                        k,
                    )] == channel(colors@[y * width + xx], k),
                forall|yy: int, c: int|
                    0 <= yy < height && 3 * width <= c < stride ==> #[trigger] buffer@[row_byte(
                        stride as int,
                        yy,
                        c,
                    )] == old(buffer)@[row_byte(stride as int, yy, c)],
                forall|i: int| y * stride + 3 * x <= i < len ==> #[trigger] buffer@[i] == old(buffer)@[i],
            decreases width - x,
        {
            let c = colors[(y as usize) * (width as usize) + (x as usize)];
            let ghost before = buffer@;
            let ghost o = pixel_byte(stride as int, x as int, y as int, 0);
            write_pixel(buffer, stride, x, y, c);
            proof {
                assert forall|xx: int, yy: int, k: int|
                    0 <= xx < width && 0 <= yy < y && 0 <= k < 3 implies #[trigger] buffer@[pixel_byte(
                        stride as int,
                        xx,
                        yy,
                        k,
                    )] == channel(colors@[yy * width + xx], k) by {
                    lemma_rows_apart(stride as int, yy, 3 * xx + k, y as int, 3 * x + 0);
                    assert(before[pixel_byte(stride as int, xx, yy, k)] == channel(colors@[yy * width + xx], k));
                }
                assert forall|yy: int, cc: int|
                    0 <= yy < height && 3 * width <= cc < stride implies #[trigger] buffer@[row_byte(
                        stride as int,
                        yy,
                        cc,
                    )] == old(buffer)@[row_byte(stride as int, yy, cc)] by {
                    lemma_row_fits(stride as int, yy, height as int);
                    if yy < y {
                        lemma_rows_apart(stride as int, yy, cc, y as int, 3 * x + 0);
                    } else if yy > y {
                        lemma_rows_apart(stride as int, y as int, 3 * x + 2, yy, cc);
                    }
                    assert(before[row_byte(stride as int, yy, cc)] == old(buffer)@[row_byte(stride as int, yy, cc)]);
                }
                assert forall|xx: int, k: int|
                    0 <= xx < x + 1 && 0 <= k < 3 implies #[trigger] buffer@[pixel_byte(
                        stride as int,
                        xx,
                        y as int,
                        k,
                    )] == channel(colors@[y * width + xx], k) by {
                    if xx < x {
                        assert(before[pixel_byte(stride as int, xx, y as int, k)] == channel(colors@[y * width + xx], k));
                    }
                }
            }
            x = x + 1;
        }
        proof {
            assert((y + 1) * stride == y * stride + stride) by (nonlinear_arith);
        }
        y = y + 1;
    }
}

/// A byte within the first `height` rows lies in row `i / stride`, at column
/// `i % stride`.
proof fn lemma_byte_in_row(i: int, stride: int, height: int)
    requires
        0 <= i < height * stride,
        0 <= height,
    ensures
        stride > 0,
        0 <= i / stride < height,
        0 <= i % stride < stride,
        i == row_byte(stride, i / stride, i % stride),
{
    assert(stride > 0) by (nonlinear_arith)
        requires 0 <= i < height * stride, height >= 0;
    let y = i / stride;
    let c = i % stride;
    vstd::arithmetic::div_mod::lemma_fundamental_div_mod(i, stride);
    vstd::arithmetic::div_mod::lemma_mod_pos_bound(i, stride);
    assert(y < height) by (nonlinear_arith)
        requires i == stride * y + c, 0 <= c, i < height * stride, stride > 0;
    assert(0 <= y) by (nonlinear_arith)
        requires i == stride * y + c, c < stride, i >= 0, stride > 0;
    vstd::arithmetic::mul::lemma_mul_is_commutative(stride, y);
}

/// The description of a written frame leaves nothing open: two buffers that
/// both are `before` with the same image written into it are equal.
pub proof fn lemma_frame_written_unique(
    before: Seq<u8>,
    a: Seq<u8>,
    b: Seq<u8>,
    stride: int,
    width: int,
    height: int,
    colors: Seq<(u8, u8, u8)>,
)
    requires
        0 <= width,
        0 <= height,
        3 * width <= stride,
        frame_written(before, a, stride, width, height, colors),
        frame_written(before, b, stride, width, height, colors),
    ensures
        a == b,
{
    assert forall|i: int| 0 <= i < before.len() implies a[i] == b[i] by {
        if i < height * stride {
            lemma_byte_in_row(i, stride, height);
            let y = i / stride;
            let c = i % stride;
            if c < 3 * width {
                assert(pixel_byte(stride, c / 3, y, c % 3) == i);
                assert(a[pixel_byte(stride, c / 3, y, c % 3)] == b[pixel_byte(stride, c / 3, y, c % 3)]);
            } else {
                assert(a[row_byte(stride, y, c)] == b[row_byte(stride, y, c)]);
            }
        }
    }
    assert(a =~= b);
}

/// Writing the rows of a frame separately, each into its own scanline, gives
/// byte for byte the buffer that writing the whole frame at once gives.
pub proof fn lemma_rows_match_frame(
    before: Seq<u8>,
    whole: Seq<u8>,
    by_rows: Seq<u8>,
    stride: int,
    width: int,
    height: int,
    colors: Seq<(u8, u8, u8)>,
)
    requires
        0 <= width,
        0 <= height,
        3 * width <= stride,
        height * stride <= before.len(),
        colors.len() == width * height,
        frame_written(before, whole, stride, width, height, colors),
        rows_written(before, by_rows, stride, width, height, colors),
    ensures
        by_rows == whole,
{
    assert forall|i: int| 0 <= i < before.len() implies by_rows[i] == whole[i] by {
        if i < height * stride {
            lemma_byte_in_row(i, stride, height);
            let y = i / stride;
            let c = i % stride;
            lemma_row_fits(stride, y, height);
            lemma_row_fits(width, y, height);
            assert(width * height == height * width) by (nonlinear_arith);
            let row = by_rows.subrange(row_byte(stride, y, 0), row_byte(stride, y, stride));
            assert(row[c] == by_rows[i]);
            if c < 3 * width {
                assert(pixel_byte(stride, c / 3, y, c % 3) == i);
                assert(whole[pixel_byte(stride, c / 3, y, c % 3)] == channel(colors[y * width + c / 3], c % 3));
            } else {
                assert(whole[row_byte(stride, y, c)] == before[row_byte(stride, y, c)]);
            }
        }
    }
    assert(by_rows =~= whole);
}

} // verus!
