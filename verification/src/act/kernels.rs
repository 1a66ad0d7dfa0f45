//! Which floats the kernels read, and how their work is handed out.
use crate::act::plan::Conv;
use vstd::prelude::*;

verus! {

/// Where value `column` of the window at output pixel `row` lies in the image, or nowhere if it
/// lies in the padding. The windows of one channel stand together, row by row.
pub open spec fn unfolded(conv: Conv, row: int, column: int) -> Option<int> {
    let k = conv.kernel as int;
    let channel = column / (k * k);
    let y = (row / conv.output_w()) * conv.stride + (column / k) % k - conv.padding;
    let x = (row % conv.output_w()) * conv.stride + column % k - conv.padding;
    if 0 <= y < conv.input_h && 0 <= x < conv.input_w {
        Some((y * conv.input_w + x) * conv.input_c + channel)
    } else {
        None
    }
}

/// A pixel's channel lies inside the image.
proof fn lemma_pixel(y: int, x: int, channel: int, h: int, w: int, c: int)
    requires
        0 <= y < h,
        0 <= x < w,
        0 <= channel < c,
    ensures
        0 <= y * w,
        y * w + x < h * w,
        0 <= (y * w + x) * c,
        (y * w + x) * c + channel < h * w * c,
{
    assert(0 <= y * w && y * w + x < h * w) by (nonlinear_arith)
        requires
            0 <= y < h,
            0 <= x < w,
    ;
    let p = y * w + x;
    let n = h * w;
    assert(0 <= p * c && p * c + channel < n * c) by (nonlinear_arith)
        requires
            0 <= p < n,
            0 <= channel < c,
    ;
}

/// What the window at an output pixel reads is in the image.
pub proof fn law_window_inside_image(conv: Conv, row: int, column: int)
    requires
        conv.wf(),
        conv.kernel > 0,
        0 <= row < conv.rows(),
        0 <= column < conv.columns(),
    ensures
        unfolded(conv, row, column) matches Some(source) ==> 0 <= source < conv.input_h
            * conv.input_w * conv.input_c,
{
    let k = conv.kernel as int;
    let channel = column / (k * k);
    let y = (row / conv.output_w()) * conv.stride + (column / k) % k - conv.padding;
    let x = (row % conv.output_w()) * conv.stride + column % k - conv.padding;
    lemma_channel(column, conv.input_c as int, k);
    if 0 <= y < conv.input_h && 0 <= x < conv.input_w {
        lemma_pixel(
            y,
            x,
            channel,
            conv.input_h as int,
            conv.input_w as int,
            conv.input_c as int,
        );
    }
}

proof fn lemma_channel(column: int, c: int, k: int)
    requires
        k > 0,
        0 <= column < c * k * k,
    ensures
        k * k > 0,
        0 <= column / (k * k) < c,
{
    assert(k * k > 0) by (nonlinear_arith)
        requires
            k > 0,
    ;
    assert(c * k * k == c * (k * k)) by (nonlinear_arith);
    let kk = k * k;
    assert(0 <= column / kk < c) by (nonlinear_arith)
        requires
            kk > 0,
            0 <= column < c * kk,
    ;
}

/// The window at output place `o` ends inside the padded image.
proof fn lemma_window(o: int, size: int, kernel: int, stride: int)
    requires
        stride > 0,
        kernel <= size,
        0 <= o < (size - kernel) / stride + 1,
    ensures
        0 <= o * stride,
        o * stride + kernel <= size,
{
    let n = size - kernel;
    let q = n / stride;
    vstd::arithmetic::div_mod::lemma_fundamental_div_mod(n, stride);
    vstd::arithmetic::div_mod::lemma_mod_bound(n, stride);
    assert(0 <= o * stride && o * stride <= stride * q) by (nonlinear_arith)
        requires
            0 <= o <= q,
            stride > 0,
    ;
}

proof fn lemma_output(size: int, kernel: int, stride: int)
    requires
        stride > 0,
        0 < kernel <= size,
    ensures
        0 <= (size - kernel) / stride < size,
{
    let n = size - kernel;
    assert(0 <= n / stride <= n) by (nonlinear_arith)
        requires
            0 <= n,
            stride > 0,
    ;
}

/// Where the values of the window at an output pixel lie in the image; the padding has none.
pub fn im2col_row(conv: Conv, row: usize) -> (r: Vec<Option<usize>>)
    requires
        conv.wf(),
        conv.input_h + 2 * conv.padding <= usize::MAX,
        conv.input_w + 2 * conv.padding <= usize::MAX,
        conv.columns() <= usize::MAX,
        conv.input_h * conv.input_w * conv.input_c <= usize::MAX,
        row < conv.rows(),
    ensures
        r@.len() == conv.columns(),
        forall|column: int|
            0 <= column < r@.len() ==> match #[trigger] r@[column] {
                Some(source) => unfolded(conv, row as int, column) == Some(source as int),
                None => unfolded(conv, row as int, column) is None,
            },
{
    let k: usize = conv.kernel;
    let mut r: Vec<Option<usize>> = Vec::new();
    if k == 0 || conv.input_c == 0 {
        assert(conv.columns() == 0) by (nonlinear_arith)
            requires
                conv.kernel == 0 || conv.input_c == 0,
                conv.columns() == conv.input_c * conv.kernel * conv.kernel,
        ;
        return r;
    }
    proof {
        lemma_output(conv.input_w + 2 * conv.padding, k as int, conv.stride as int);
        lemma_output(conv.input_h + 2 * conv.padding, k as int, conv.stride as int);
    }
    let w: usize = (conv.input_w + 2 * conv.padding - k) / conv.stride + 1;
    assert(w == conv.output_w());
    let (oy, ox): (usize, usize) = (row / w, row % w);
    assert(oy < conv.output_h()) by (nonlinear_arith)
        requires
            row < conv.output_h() * w,
            oy == row / w,
            w > 0,
    ;
    proof {
        lemma_window(
            oy as int,
            conv.input_h + 2 * conv.padding,
            k as int,
            conv.stride as int,
        );
        lemma_window(
            ox as int,
            conv.input_w + 2 * conv.padding,
            k as int,
            conv.stride as int,
        );
    }
    assert(conv.input_c * k <= conv.input_c * k * k && k * k <= conv.input_c * k * k)
        by (nonlinear_arith)
        requires
            k > 0,
            conv.input_c > 0,
    ;
    let columns: usize = conv.input_c * k * k;
    let mut column: usize = 0;
    while column < columns
        invariant
            column <= columns,
            columns == conv.columns(),
            conv.wf(),
            0 < k == conv.kernel,
            k * k <= columns,
            w == conv.output_w() > 0,
            row < conv.rows(),
            oy == row / w && ox == row % w,
            0 <= oy * conv.stride,
            oy * conv.stride + k <= conv.input_h + 2 * conv.padding <= usize::MAX,
            0 <= ox * conv.stride,
            ox * conv.stride + k <= conv.input_w + 2 * conv.padding <= usize::MAX,
            conv.input_h * conv.input_w * conv.input_c <= usize::MAX,
            r@.len() == column,
            forall|j: int|
                0 <= j < column ==> match #[trigger] r@[j] {
                    Some(source) => unfolded(conv, row as int, j) == Some(source as int),
                    None => unfolded(conv, row as int, j) is None,
                },
        decreases columns - column,
    {
        proof {
            lemma_channel(column as int, conv.input_c as int, k as int);
        }
        let iy: usize = oy * conv.stride + (column / k) % k;
        let ix: usize = ox * conv.stride + column % k;
        let source: Option<usize> = if iy < conv.padding || ix < conv.padding || iy >= conv.input_h
            + conv.padding || ix >= conv.input_w + conv.padding {
            None
        } else {
            let y: usize = iy - conv.padding;
            let x: usize = ix - conv.padding;
            let channel: usize = column / (k * k);
            proof {
                lemma_pixel(
                    y as int,
                    x as int,
                    channel as int,
                    conv.input_h as int,
                    conv.input_w as int,
                    conv.input_c as int,
                );
                lemma_pixels(conv.input_h as int, conv.input_w as int, conv.input_c as int);
            }
            Some((y * conv.input_w + x) * conv.input_c + channel)
        };
        r.push(source);
        column = column + 1;
    }
    r
}

/// There are no more pixels than values.
proof fn lemma_pixels(h: int, w: int, c: int)
    requires
        0 <= h,
        0 <= w,
        0 < c,
    ensures
        h * w <= h * w * c,
{
    let n = h * w;
    assert(n >= 0) by (nonlinear_arith)
        requires
            0 <= h,
            0 <= w,
            n == h * w,
    ;
    assert(n <= n * c) by (nonlinear_arith)
        requires
            n >= 0,
            c > 0,
    ;
}

/// The places of a pooling window of three by three pixels that lie in the image, the first `n`
/// of them. The window is at an output pixel, two pixels apart, with one pixel of padding.
pub open spec fn pooled(
    input_h: int,
    input_w: int,
    channels: int,
    row: int,
    channel: int,
    n: int,
) -> Seq<int>
    decreases n,
{
    if n <= 0 {
        seq![]
    } else {
        let before = pooled(input_h, input_w, channels, row, channel, n - 1);
        let output_w = (input_w + 1) / 2;
        let y = (row / output_w) * 2 + (n - 1) / 3 - 1;
        let x = (row % output_w) * 2 + (n - 1) % 3 - 1;
        if 0 <= y < input_h && 0 <= x < input_w {
            before.push((y * input_w + x) * channels + channel)
        } else {
            before
        }
    }
}

/// Where the values of a pooling window lie in the image.
pub fn max_pool_window(
    input_h: usize,
    input_w: usize,
    channels: usize,
    row: usize,
    channel: usize,
) -> (r: Vec<usize>)
    requires
        input_h < usize::MAX,
        input_w < usize::MAX,
        channel < channels,
        input_h * input_w * channels <= usize::MAX,
        row < ((input_h + 1) / 2) * ((input_w + 1) / 2),
    ensures
        r@.map_values(|i: usize| i as int) == pooled(
            input_h as int,
            input_w as int,
            channels as int,
            row as int,
            channel as int,
            9,
        ),
        forall|i: int|
            0 <= i < r@.len() ==> #[trigger] r@[i] < input_h * input_w * channels,
{
    let output_w: usize = (input_w + 1) / 2;
    assert(output_w > 0) by (nonlinear_arith)
        requires
            row < ((input_h + 1) / 2) * output_w,
            output_w >= 0,
    ;
    let (oy, ox): (usize, usize) = (row / output_w, row % output_w);
    assert(oy < (input_h + 1) / 2) by (nonlinear_arith)
        requires
            row < ((input_h + 1) / 2) * output_w,
            oy == row / output_w,
            output_w > 0,
    ;
    let mut r: Vec<usize> = Vec::new();
    let mut n: usize = 0;
    assert(r@.map_values(|i: usize| i as int) =~= seq![]);
    while n < 9
        invariant
            n <= 9,
            input_h < usize::MAX,
            input_w < usize::MAX,
            channel < channels,
            input_h * input_w * channels <= usize::MAX,
            output_w == (input_w + 1) / 2,
            oy == row / output_w && ox == row % output_w,
            output_w > 0,
            oy < (input_h + 1) / 2,
            ox < output_w,
            r@.map_values(|i: usize| i as int) == pooled(
                input_h as int,
                input_w as int,
                channels as int,
                row as int,
                channel as int,
                n as int,
            ),
            forall|i: int|
                0 <= i < r@.len() ==> #[trigger] r@[i] < input_h * input_w * channels,
        decreases 9 - n,
    {
        let iy: usize = oy * 2 + n / 3;
        let ix: usize = ox * 2 + n % 3;
        if iy != 0 && ix != 0 && iy <= input_h && ix <= input_w {
            let y: usize = iy - 1;
            let x: usize = ix - 1;
            proof {
                lemma_pixel(
                    y as int,
                    x as int,
                    channel as int,
                    input_h as int,
                    input_w as int,
                    channels as int,
                );
            }
            proof {
                lemma_pixels(input_h as int, input_w as int, channels as int);
            }
            let ghost before = r@;
            r.push((y * input_w + x) * channels + channel);
            assert(r@.map_values(|i: usize| i as int) =~= before.map_values(
                |i: usize| i as int,
            ).push((y * input_w + x) * channels + channel));
        }
        n = n + 1;
    }
    r
}

/// Rows go to the installed workers unless there are few.
pub fn rows_in_parallel(installed: bool, rows: usize) -> (r: bool)
    ensures
        r == (installed && rows >= 4),
{
    installed && rows >= 4
}

/// Jobs go to the installed workers unless there is only one.
pub fn jobs_in_parallel(installed: bool, jobs: usize) -> (r: bool)
    ensures
        r == (installed && jobs >= 2),
{
    installed && jobs >= 2
}


/// A place in a table of rows is found again from its number.
proof fn lemma_place(y: int, x: int, w: int)
    requires
        0 <= x < w,
        0 <= y,
    ensures
        (y * w + x) / w == y,
        (y * w + x) % w == x,
{
    vstd::arithmetic::div_mod::lemma_fundamental_div_mod_converse(y * w + x, w, y, x);
}

/// What the window of channel `c` at output pixel (`oy`, `ox`) reads at its own place (`ky`, `kx`)
/// is the channel's value of the image pixel that many pixels behind the window's corner. The
/// corner is `stride` pixels further for each output pixel, and `padding` pixels before the image
/// for the first. Outside the image nothing is read.
pub proof fn law_window_reads_its_pixels(conv: Conv, oy: int, ox: int, c: int, ky: int, kx: int)
    requires
        conv.wf(),
        0 <= oy < conv.output_h(),
        0 <= ox < conv.output_w(),
        0 <= c < conv.input_c,
        0 <= ky < conv.kernel,
        0 <= kx < conv.kernel,
    ensures
        ({
            let k = conv.kernel as int;
            let y = oy * conv.stride - conv.padding + ky;
            let x = ox * conv.stride - conv.padding + kx;
            unfolded(conv, oy * conv.output_w() + ox, (c * k + ky) * k + kx) == if 0 <= y
                < conv.input_h && 0 <= x < conv.input_w {
                Some((y * conv.input_w + x) * conv.input_c + c)
            } else {
                None
            }
        }),
{
    let k = conv.kernel as int;
    let column = (c * k + ky) * k + kx;
    lemma_place(oy, ox, conv.output_w());
    assert(0 <= c * k) by (nonlinear_arith)
        requires
            0 <= c,
            0 < k,
    ;
    lemma_place(c * k + ky, kx, k);
    lemma_place(c, ky, k);
    let inner = ky * k + kx;
    assert(0 <= inner < k * k) by (nonlinear_arith)
        requires
            inner == ky * k + kx,
            0 <= ky < k,
            0 <= kx < k,
    ;
    assert(column == c * (k * k) + inner) by (nonlinear_arith)
        requires
            column == (c * k + ky) * k + kx,
            inner == ky * k + kx,
    ;
    lemma_place(c, inner, k * k);
}

/// The pooling window at output pixel (`oy`, `ox`) reads exactly the channel's values of the pixels
/// that are at most one pixel away from (2 `oy`, 2 `ox`) and in the image.
pub proof fn law_pool_reads_neighbours(
    input_h: int,
    input_w: int,
    channels: int,
    oy: int,
    ox: int,
    channel: int,
    place: int,
)
    requires
        0 < input_w,
        0 <= oy,
        0 <= ox < (input_w + 1) / 2,
    ensures
        ({
            let row = oy * ((input_w + 1) / 2) + ox;
            pooled(input_h, input_w, channels, row, channel, 9).contains(place) == exists|
                y: int,
                x: int,
            |
                #![trigger pixel(input_w, channels, y, x, channel)]
                {
                    &&& 2 * oy - 1 <= y <= 2 * oy + 1
                    &&& 2 * ox - 1 <= x <= 2 * ox + 1
                    &&& 0 <= y < input_h
                    &&& 0 <= x < input_w
                    &&& place == pixel(input_w, channels, y, x, channel)
                }
        }),
{
    let w = (input_w + 1) / 2;
    let row = oy * w + ox;
    lemma_place(oy, ox, w);
    lemma_pooled(input_h, input_w, channels, row, channel, 9, place);
    let found = pooled(input_h, input_w, channels, row, channel, 9).contains(place);
    if found {
        let n = choose|n: int| 0 <= n < 9 && #[trigger] pools(input_h, input_w, channels, row, channel, n, place);
        let y = oy * 2 + n / 3 - 1;
        let x = ox * 2 + n % 3 - 1;
        assert(place == pixel(input_w, channels, y, x, channel));
    }
    if exists|y: int, x: int|
        #![trigger pixel(input_w, channels, y, x, channel)]
        {
            &&& 2 * oy - 1 <= y <= 2 * oy + 1
            &&& 2 * ox - 1 <= x <= 2 * ox + 1
            &&& 0 <= y < input_h
            &&& 0 <= x < input_w
            &&& place == pixel(input_w, channels, y, x, channel)
        } {
        let (y, x) = choose|y: int, x: int|
            #![trigger pixel(input_w, channels, y, x, channel)]
            {
                &&& 2 * oy - 1 <= y <= 2 * oy + 1
                &&& 2 * ox - 1 <= x <= 2 * ox + 1
                &&& 0 <= y < input_h
                &&& 0 <= x < input_w
                &&& place == pixel(input_w, channels, y, x, channel)
            };
        let n = (y - 2 * oy + 1) * 3 + (x - 2 * ox + 1);
        assert(n / 3 == y - 2 * oy + 1 && n % 3 == x - 2 * ox + 1);
        assert(pools(input_h, input_w, channels, row, channel, n, place));
    }
}

/// Where the channel's value of a pixel lies in an image.
pub open spec fn pixel(width: int, channels: int, y: int, x: int, channel: int) -> int {
    (y * width + x) * channels + channel
}

/// Value `n` of a pooling window is in the image, at this place.
spec fn pools(h: int, w: int, channels: int, row: int, channel: int, n: int, place: int) -> bool {
    let output_w = (w + 1) / 2;
    let y = (row / output_w) * 2 + n / 3 - 1;
    let x = (row % output_w) * 2 + n % 3 - 1;
    0 <= y < h && 0 <= x < w && place == (y * w + x) * channels + channel
}

proof fn lemma_pooled(h: int, w: int, channels: int, row: int, channel: int, n: int, place: int)
    requires
        0 <= n,
    ensures
        pooled(h, w, channels, row, channel, n).contains(place) == exists|i: int|
            0 <= i < n && #[trigger] pools(h, w, channels, row, channel, i, place),
    decreases n,
{
    if n > 0 {
        lemma_pooled(h, w, channels, row, channel, n - 1, place);
        let before = pooled(h, w, channels, row, channel, n - 1);
        let after = pooled(h, w, channels, row, channel, n);
        if before.contains(place) {
            let j = choose|j: int| 0 <= j < before.len() && before[j] == place;
            assert(after[j] == place);
            let i = choose|i: int|
                0 <= i < n - 1 && #[trigger] pools(h, w, channels, row, channel, i, place);
            assert(pools(h, w, channels, row, channel, i, place));
        }
        if pools(h, w, channels, row, channel, n - 1, place) {
            assert(after[before.len() as int] == place);
        }
        if after.contains(place) {
            let j = choose|j: int| 0 <= j < after.len() && after[j] == place;
            if j < before.len() {
                assert(before[j] == place);
            } else {
                assert(pools(h, w, channels, row, channel, n - 1, place));
            }
        }
        if exists|i: int| 0 <= i < n && #[trigger] pools(h, w, channels, row, channel, i, place) {
            let i = choose|i: int|
                0 <= i < n && #[trigger] pools(h, w, channels, row, channel, i, place);
            if i < n - 1 {
                assert(pools(h, w, channels, row, channel, i, place));
            }
        }
    } else {
        assert(pooled(h, w, channels, row, channel, n).len() == 0);
    }
}

} // verus!
