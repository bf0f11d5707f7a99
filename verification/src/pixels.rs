//! RGB pixel data and the 3x3 median filter that the photo enhancement cleans
//! it with.

use vstd::prelude::*;
use vstd::relations::{sorted_by, total_ordering};

verus! {

/// The order of bytes.
pub open spec fn byte_le() -> spec_fn(u8, u8) -> bool {
    |a: u8, b: u8| a <= b
}

/// The middle value of `vals` in sorted order (the upper middle for an even count).
pub open spec fn median(vals: Seq<u8>) -> u8 {
    vals.sort_by(byte_le())[(vals.len() / 2) as int]
}

proof fn lemma_byte_order()
    ensures
        total_ordering(byte_le()),
{
}

/// The median of a non-empty block is one of its values: the filter never
/// invents a value that the block does not hold.
pub proof fn lemma_median_from_block(vals: Seq<u8>)
    requires
        vals.len() > 0,
    ensures
        vals.contains(median(vals)),
{
    lemma_byte_order();
    vals.lemma_sort_by_ensures(byte_le());
    let sorted = vals.sort_by(byte_le());
    assert(sorted.len() == vals.len()) by {
        vals.to_multiset_ensures();
        sorted.to_multiset_ensures();
    }
    let m = sorted[(vals.len() / 2) as int];
    assert(sorted.contains(m));
    vstd::seq_lib::to_multiset_contains(sorted, m);
    vstd::seq_lib::to_multiset_contains(vals, m);
}

/// A block of one value has that value as its median, so the filter leaves an
/// area of flat colour as it was.
pub proof fn lemma_flat_block_unchanged(vals: Seq<u8>, v: u8)
    requires
        vals.len() > 0,
        forall|i: int| 0 <= i < vals.len() ==> vals[i] == v,
    ensures
        median(vals) == v,
{
    lemma_median_from_block(vals);
}

/// Sorts the bytes into increasing order.
fn sort_bytes(v: &mut Vec<u8>)
    ensures
        final(v)@.len() == old(v)@.len(),
        final(v)@.to_multiset() == old(v)@.to_multiset(),
        sorted_by(final(v)@, byte_le()),
{
    broadcast use {vstd::multiset::group_multiset_axioms, vstd::seq_lib::group_to_multiset_ensures};
    let ghost start = v@.to_multiset();
    let ghost n = v.len();
    if v.len() == 0 {
        return;
    }
    let mut i: usize = 1;
    while i < v.len()
        invariant
            v.len() == n,
            1 <= i <= v.len(),
            v@.to_multiset() == start,
            forall|a: int, b: int| 0 <= a < b < i ==> v@[a] <= v@[b],
        decreases v.len() - i,
    {
        let mut j: usize = i;
        while j > 0 && v[j - 1] > v[j]
            invariant
                v.len() == n,
                0 <= j <= i < v.len(),
                v@.to_multiset() == start,
                forall|a: int, b: int| 0 <= a < b <= i && a != j && b != j ==> v@[a] <= v@[b],
                forall|k: int| j < k <= i ==> v@[j as int] <= v@[k],
            decreases j,
        {
            let upper = v[j];
            let lower = v[j - 1];
            let ghost before = v@;
            v.set(j, lower);
            let ghost middle = v@;
            v.set(j - 1, upper);
            proof {
                vstd::seq_lib::to_multiset_update(before, j as int, lower);
                vstd::seq_lib::to_multiset_update(middle, j - 1, upper);
                assert(middle[j - 1] == lower);
                assert(before[j as int] == upper);
                assert(before.contains(upper));
                vstd::seq_lib::to_multiset_contains(before, upper);
                vstd::seq_lib::to_multiset_contains(middle, lower);
                assert(middle.contains(lower));
                assert(v@.to_multiset() =~= before.to_multiset());
            }
            j = j - 1;
        }
        proof {
            assert forall|a: int, b: int| 0 <= a < b <= i implies v@[a] <= v@[b] by {
                if b == j && a < j {
                    assert(v@[a] <= v@[j - 1] || a == j - 1);
                }
            }
        }
        i += 1;
    }
    assert(sorted_by(v@, byte_le())) by {
        assert forall|a: int, b: int| 0 <= a < b < v@.len() implies #[trigger] (byte_le())(v@[a], v@[b]) by {
            assert(v@[a] <= v@[b]);
        }
    }
}

/// The median of the bytes: the middle one once sorted.
pub fn median_of(vals: &Vec<u8>) -> (m: u8)
    requires
        vals.len() > 0,
    ensures
        m == median(vals@),
{
    let mut sorted = vals.clone();
    assert(sorted@ == vals@);
    sort_bytes(&mut sorted);
    proof {
        lemma_byte_order();
        vals@.lemma_sort_by_ensures(byte_le());
        vstd::seq_lib::lemma_sorted_unique(sorted@, vals@.sort_by(byte_le()), byte_le());
    }
    assert(sorted@.len() == vals@.len());
    sorted[sorted.len() / 2]
}


/// An RGB image as its rows of pixels, top to bottom, three bytes per pixel
/// (red, green, blue).
pub struct RgbPixels {
    pub width: u32,
    pub height: u32,
    pub data: Vec<u8>,
}

impl RgbPixels {
    /// The buffer holds exactly three bytes for each pixel.
    pub open spec fn wf(&self) -> bool {
        self.data@.len() == self.width * self.height * 3
    }
}

impl RgbPixels {
    /// An image of `width` by `height` pixels over `data`, or `None` when `data`
    /// does not hold exactly three bytes per pixel.
    pub fn new(width: u32, height: u32, data: Vec<u8>) -> (image: Option<RgbPixels>)
        ensures
            image is Some <==> data@.len() == width * height * 3,
            image matches Some(i) ==> i.width == width && i.height == height && i.data@ == data@,
    {
        assert((width as u64) * (height as u64) <= u64::MAX) by (nonlinear_arith)
            requires
                width <= u32::MAX,
                height <= u32::MAX,
        ;
        let pixels: u64 = (width as u64) * (height as u64);
        assert(pixels == width * height);
        assert(data@.len() <= u64::MAX) by {
            assert(data.len() <= usize::MAX);
        }
        if pixels <= u64::MAX / 3 && (data.len() as u64) == pixels * 3 {
            Some(RgbPixels { width, height, data })
        } else {
            None
        }
    }
}

/// The byte of channel `c` of the pixel at column `x`, row `y`, in a buffer
/// whose rows are `w` pixels wide.
pub open spec fn channel_at(p: Seq<u8>, w: int, x: int, y: int, c: int) -> u8 {
    p[(y * w + x) * 3 + c]
}

/// Channel `c` of the pixels of row `y` from column `x0` to `x1`, left to right.
pub open spec fn row_window(p: Seq<u8>, w: int, y: int, x0: int, x1: int, c: int) -> Seq<u8> {
    Seq::new((x1 + 1 - x0) as nat, |k: int| channel_at(p, w, x0 + k, y, c))
}

/// Channel `c` of the pixels from column `x0` to `x1` of the rows from `y0` up
/// to (not including) `y_end`, row after row.
pub open spec fn rows_window(
    p: Seq<u8>,
    w: int,
    x0: int,
    x1: int,
    y0: int,
    y_end: int,
    c: int,
) -> Seq<u8>
    decreases y_end - y0,
{
    if y_end <= y0 {
        Seq::empty()
    } else {
        rows_window(p, w, x0, x1, y0, y_end - 1, c) + row_window(p, w, y_end - 1, x0, x1, c)
    }
}

/// Channel `c` of the pixels of the 3x3 block centred on (`x`, `y`), cut off at
/// the edges of a `w` by `h` image.
pub open spec fn neighbourhood(p: Seq<u8>, w: int, h: int, x: int, y: int, c: int) -> Seq<u8> {
    let x0 = if x > 0 { x - 1 } else { 0 };
    let x1 = if x + 1 < w { x + 1 } else { w - 1 };
    let y0 = if y > 0 { y - 1 } else { 0 };
    let y1 = if y + 1 < h { y + 1 } else { h - 1 };
    rows_window(p, w, x0, x1, y0, y1 + 1, c)
}

proof fn lemma_index_in_bounds(x: int, y: int, w: int, h: int, c: int)
    by (nonlinear_arith)
    requires
        0 <= x < w,
        0 <= y < h,
        0 <= c < 3,
    ensures
        0 <= y * w <= y * w + x < w * h,
        0 <= (y * w + x) * 3 + c < w * h * 3,
{
}

/// Channel `channel` of the 3x3 block around (`x`, `y`), in the order the rows
/// and columns are read.
fn neighbourhood_values(image: &RgbPixels, x: u32, y: u32, channel: usize) -> (vals: Vec<u8>)
    requires
        image.wf(),
        x < image.width,
        y < image.height,
        channel < 3,
    ensures
        vals@ == neighbourhood(
            image.data@,
            image.width as int,
            image.height as int,
            x as int,
            y as int,
            channel as int,
        ),
        vals@.len() > 0,
{
    let ghost p = image.data@;
    let ghost w = image.width as int;
    let ghost h = image.height as int;
    let ghost c = channel as int;
    let len: usize = image.data.len();
    let x0: u32 = if x > 0 { x - 1 } else { 0 };
    let x1: u32 = if x + 1 < image.width { x + 1 } else { image.width - 1 };
    let y0: u32 = if y > 0 { y - 1 } else { 0 };
    let y1: u32 = if y + 1 < image.height { y + 1 } else { image.height - 1 };
    let mut vals: Vec<u8> = Vec::new();
    let mut sy: u32 = y0;
    while sy <= y1
        invariant
            image.wf(),
            p == image.data@,
            p.len() == len,
            w == image.width,
            h == image.height,
            c == channel,
            channel < 3,
            x0 <= x1 < w,
            y0 <= y1 < h,
            y0 <= sy <= y1 + 1,
            vals@ == rows_window(p, w, x0 as int, x1 as int, y0 as int, sy as int, c),
        decreases y1 + 1 - sy,
    {
        let ghost before = vals@;
        let mut sx: u32 = x0;
        while sx <= x1
            invariant
                image.wf(),
                p == image.data@,
                p.len() == len,
                w == image.width,
                h == image.height,
                c == channel,
                channel < 3,
                x0 <= x1 < w,
                y0 <= sy <= y1 < h,
                x0 <= sx <= x1 + 1,
                vals@ == before + Seq::new(
                    (sx - x0) as nat,
                    |k: int| channel_at(p, w, x0 + k, sy as int, c),
                ),
            decreases x1 + 1 - sx,
        {
            proof {
                lemma_index_in_bounds(sx as int, sy as int, w, h, c);
            }
            let index: usize = ((sy as usize) * (image.width as usize) + (sx as usize)) * 3
                + channel;
            vals.push(image.data[index]);
            proof {
                assert(vals@ =~= before + Seq::new(
                    (sx + 1 - x0) as nat,
                    |k: int| channel_at(p, w, x0 + k, sy as int, c),
                ));
            }
            sx = sx + 1;
        }
        proof {
            assert(Seq::new((sx - x0) as nat, |k: int| channel_at(p, w, x0 + k, sy as int, c))
                =~= row_window(p, w, sy as int, x0 as int, x1 as int, c));
        }
        sy = sy + 1;
    }
    proof {
        assert(rows_window(p, w, x0 as int, x1 as int, y0 as int, y1 + 1, c).len() > 0) by {
            assert(row_window(p, w, y1 as int, x0 as int, x1 as int, c).len() > 0);
        }
    }
    vals
}

/// Every pixel before (`x`, `y`) in reading order holds, in each channel, the
/// median of that channel over its 3x3 block of `p`.
pub open spec fn filtered_before(out: Seq<u8>, p: Seq<u8>, w: int, h: int, x: int, y: int) -> bool {
    forall|xx: int, yy: int, c: int|
        0 <= xx < w && 0 <= yy && 0 <= c < 3 && (yy < y || (yy == y && xx < x))
            ==> #[trigger] channel_at(out, w, xx, yy, c) == median(
            neighbourhood(p, w, h, xx, yy, c),
        )
}

proof fn lemma_earlier_index(xx: int, yy: int, x: int, y: int, w: int, c: int)
    by (nonlinear_arith)
    requires
        0 <= xx < w,
        0 <= yy,
        0 <= x,
        yy < y || (yy == y && xx < x),
        0 <= c < 3,
    ensures
        0 <= (yy * w + xx) * 3 + c < (y * w + x) * 3,
{
}

proof fn lemma_next_row(y: int, w: int)
    by (nonlinear_arith)
    ensures
        (y * w + w) * 3 == ((y + 1) * w + 0) * 3,
        (y * w + 0) * 3 == y * w * 3,
{
}

/// Replaces every channel of every pixel by the median of that channel over the
/// 3x3 block around the pixel (fewer pixels at the edges), which removes
/// isolated specks of noise.
pub fn median_filter_3x3(input: &RgbPixels) -> (output: RgbPixels)
    requires
        input.wf(),
    ensures
        output.width == input.width,
        output.height == input.height,
        output.wf(),
        forall|x: int, y: int, c: int|
            0 <= x < input.width && 0 <= y < input.height && 0 <= c < 3
                ==> #[trigger] channel_at(output.data@, input.width as int, x, y, c) == median(
                neighbourhood(input.data@, input.width as int, input.height as int, x, y, c),
            ),
{
    let ghost p = input.data@;
    let ghost w = input.width as int;
    let ghost h = input.height as int;
    let mut data: Vec<u8> = Vec::new();
    let mut y: u32 = 0;
    proof {
        lemma_next_row(0, w);
    }
    while y < input.height
        invariant
            input.wf(),
            p == input.data@,
            w == input.width,
            h == input.height,
            0 <= y <= h,
            data@.len() == (y * w + 0) * 3,
            filtered_before(data@, p, w, h, 0, y as int),
        decreases h - y,
    {
        let mut x: u32 = 0;
        while x < input.width
            invariant
                input.wf(),
                p == input.data@,
                w == input.width,
                h == input.height,
                0 <= y < h,
                0 <= x <= w,
                data@.len() == (y * w + x) * 3,
                filtered_before(data@, p, w, h, x as int, y as int),
            decreases w - x,
        {
            let red = median_of(&neighbourhood_values(input, x, y, 0));
            let green = median_of(&neighbourhood_values(input, x, y, 1));
            let blue = median_of(&neighbourhood_values(input, x, y, 2));
            let ghost before = data@;
            data.push(red);
            data.push(green);
            data.push(blue);
            proof {
                assert forall|xx: int, yy: int, c: int|
                    0 <= xx < w && 0 <= yy && 0 <= c < 3 && (yy < y || (yy == y && xx < x + 1))
                        implies #[trigger] channel_at(data@, w, xx, yy, c) == median(
                    neighbourhood(p, w, h, xx, yy, c),
                ) by {
                    if yy == y && xx == x {
                        assert((yy * w + xx) * 3 + c == before.len() + c);
                    } else {
                        lemma_earlier_index(xx, yy, x as int, y as int, w, c);
                        assert(channel_at(before, w, xx, yy, c) == median(
                            neighbourhood(p, w, h, xx, yy, c),
                        ));
                    }
                }
            }
            x = x + 1;
        }
        proof {
            lemma_next_row(y as int, w);
            assert forall|xx: int, yy: int, c: int|
                0 <= xx < w && 0 <= yy && 0 <= c < 3 && (yy < y + 1 || (yy == y + 1 && xx < 0))
                    implies #[trigger] channel_at(data@, w, xx, yy, c) == median(
                neighbourhood(p, w, h, xx, yy, c),
            ) by {
                assert(yy < y || (yy == y && xx < x));
            }
        }
        y = y + 1;
    }
    proof {
        assert((h * w + 0) * 3 == w * h * 3) by (nonlinear_arith);
    }
    RgbPixels { width: input.width, height: input.height, data }
}

/// Mixes each byte of `original` with the byte at the same place in `cleaned`,
/// three parts to one: `(3 * original + cleaned) / 4`, rounded down.
pub fn blend_with_cleaned(original: &RgbPixels, cleaned: &RgbPixels) -> (blended: RgbPixels)
    requires
        original.wf(),
        cleaned.width == original.width,
        cleaned.height == original.height,
        cleaned.wf(),
    ensures
        blended.width == original.width,
        blended.height == original.height,
        blended.wf(),
        forall|i: int|
            0 <= i < original.data@.len() ==> #[trigger] blended.data@[i] == (3 * original.data@[i]
                + cleaned.data@[i]) / 4,
{
    let mut data: Vec<u8> = Vec::new();
    let mut i: usize = 0;
    while i < original.data.len()
        invariant
            original.wf(),
            cleaned.wf(),
            cleaned.width == original.width,
            cleaned.height == original.height,
            cleaned.data@.len() == original.data@.len(),
            0 <= i <= original.data@.len(),
            data@.len() == i,
            forall|k: int|
                0 <= k < i ==> #[trigger] data@[k] == (3 * original.data@[k] + cleaned.data@[k])
                    / 4,
        decreases original.data@.len() - i,
    {
        let mixed: u16 = (3 * (original.data[i] as u16) + (cleaned.data[i] as u16)) / 4;
        data.push(mixed as u8);
        i = i + 1;
    }
    RgbPixels { width: original.width, height: original.height, data }
}


/// Away from the edges the block is the full 3x3 square around the pixel: the
/// row above, the pixel's own row and the row below, each read from the column
/// left of the pixel to the column right of it.
pub proof fn lemma_interior_block(p: Seq<u8>, w: int, h: int, x: int, y: int, c: int)
    requires
        1 <= x && x + 1 < w,
        1 <= y && y + 1 < h,
    ensures
        neighbourhood(p, w, h, x, y, c) == seq![
            channel_at(p, w, x - 1, y - 1, c),
            channel_at(p, w, x, y - 1, c),
            channel_at(p, w, x + 1, y - 1, c),
            channel_at(p, w, x - 1, y, c),
            channel_at(p, w, x, y, c),
            channel_at(p, w, x + 1, y, c),
            channel_at(p, w, x - 1, y + 1, c),
            channel_at(p, w, x, y + 1, c),
            channel_at(p, w, x + 1, y + 1, c),
        ],
{
    let r0 = row_window(p, w, y - 1, x - 1, x + 1, c);
    let r1 = row_window(p, w, y, x - 1, x + 1, c);
    let r2 = row_window(p, w, y + 1, x - 1, x + 1, c);
    assert(r0 =~= seq![channel_at(p, w, x - 1, y - 1, c), channel_at(p, w, x, y - 1, c), channel_at(p, w, x + 1, y - 1, c)]);
    assert(r1 =~= seq![channel_at(p, w, x - 1, y, c), channel_at(p, w, x, y, c), channel_at(p, w, x + 1, y, c)]);
    assert(r2 =~= seq![channel_at(p, w, x - 1, y + 1, c), channel_at(p, w, x, y + 1, c), channel_at(p, w, x + 1, y + 1, c)]);
    assert(rows_window(p, w, x - 1, x + 1, y - 1, y - 1, c) =~= Seq::<u8>::empty());
    assert(rows_window(p, w, x - 1, x + 1, y - 1, y, c) =~= r0);
    assert(rows_window(p, w, x - 1, x + 1, y - 1, y + 1, c) =~= r0 + r1);
    assert(rows_window(p, w, x - 1, x + 1, y - 1, y + 2, c) =~= r0 + r1 + r2);
    assert(neighbourhood(p, w, h, x, y, c) == rows_window(p, w, x - 1, x + 1, y - 1, y + 2, c));
    assert(r0 + r1 + r2 =~= seq![
        channel_at(p, w, x - 1, y - 1, c),
        channel_at(p, w, x, y - 1, c),
        channel_at(p, w, x + 1, y - 1, c),
        channel_at(p, w, x - 1, y, c),
        channel_at(p, w, x, y, c),
        channel_at(p, w, x + 1, y, c),
        channel_at(p, w, x - 1, y + 1, c),
        channel_at(p, w, x, y + 1, c),
        channel_at(p, w, x + 1, y + 1, c),
    ]);
}


/// A value held by more than half of a block is its median: a speck that differs
/// from most of its neighbourhood takes the value they share.
pub proof fn lemma_majority_median(vals: Seq<u8>, v: u8)
    requires
        vals.to_multiset().count(v) > vals.len() / 2,
    ensures
        median(vals) == v,
{
    broadcast use vstd::multiset::group_multiset_axioms;
    lemma_byte_order();
    vals.lemma_sort_by_ensures(byte_le());
    let sorted = vals.sort_by(byte_le());
    vstd::seq_lib::to_multiset_len(vals);
    vstd::seq_lib::to_multiset_len(sorted);
    let n = sorted.len();
    assert(n == vals.len());
    assert(sorted.to_multiset().count(v) > n / 2);
    if n == 0 {
        assert(vals.to_multiset().len() == 0);
        assert(vals.to_multiset().count(v) <= vals.to_multiset().len());
    } else {
        let m = (n / 2) as int;
        let x = sorted[m];
        if x < v {
            let a = sorted.take(m + 1);
            let b = sorted.skip(m + 1);
            assert(sorted =~= a + b);
            vstd::seq_lib::lemma_multiset_commutative(a, b);
            assert(!a.contains(v)) by {
                if a.contains(v) {
                    let i = choose|i: int| 0 <= i < a.len() && a[i] == v;
                    if i < m {
                        assert(byte_le()(sorted[i], sorted[m]));
                    }
                }
            }
            vstd::seq_lib::to_multiset_contains(a, v);
            vstd::seq_lib::to_multiset_len(b);
            assert(b.to_multiset().count(v) <= b.to_multiset().len());
            assert(sorted.to_multiset().count(v) == a.to_multiset().count(v) + b.to_multiset().count(v));
        } else if x > v {
            let a = sorted.take(m);
            let b = sorted.skip(m);
            assert(sorted =~= a + b);
            vstd::seq_lib::lemma_multiset_commutative(a, b);
            assert(!b.contains(v)) by {
                if b.contains(v) {
                    let i = choose|i: int| 0 <= i < b.len() && b[i] == v;
                    if i > 0 {
                        assert(byte_le()(sorted[m], sorted[m + i]));
                    }
                }
            }
            vstd::seq_lib::to_multiset_contains(b, v);
            vstd::seq_lib::to_multiset_len(a);
            assert(a.to_multiset().count(v) <= a.to_multiset().len());
            assert(sorted.to_multiset().count(v) == a.to_multiset().count(v) + b.to_multiset().count(v));
        }
    }
}

} // verus!
