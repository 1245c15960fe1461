use vstd::prelude::*;

use crate::canvas::Canvas;

verus! {

/// The longest line a PPM file may hold.
pub const MAX_LINE: usize = 70;

/// The largest channel value, written in the header.
pub const MAX_CHANNEL: u8 = 255;

/// The decimal digits of `n`, most significant first, with no leading zero.
pub open spec fn decimal(n: nat) -> Seq<u8>
    decreases n,
{
    if n < 10 {
        seq![(48 + n) as u8]
    } else {
        decimal(n / 10).push((48 + n % 10) as u8)
    }
}

/// The three header lines: magic number, size, largest channel value.
pub open spec fn ppm_header(width: nat, height: nat) -> Seq<u8> {
    seq![80u8, 51u8, 10u8] + decimal(width) + seq![32u8] + decimal(height) + seq![10u8]
        + decimal(255) + seq![10u8]
}

/// The lines of one image row, given the channels still to be written and the
/// line being filled: each channel is appended to the line after one space,
/// unless the line would then exceed the longest allowed, in which case the
/// line is ended and the channel starts the next one.
pub open spec fn row_lines(channels: Seq<u8>, line: Seq<u8>) -> Seq<u8>
    decreases channels.len(),
{
    if channels.len() == 0 {
        if line.len() > 0 {
            line.push(10u8)
        } else {
            Seq::empty()
        }
    } else {
        let token = decimal(channels[0] as nat);
        let rest = channels.drop_first();
        if line.len() + 1 + token.len() > MAX_LINE {
            line.push(10u8) + row_lines(rest, token)
        } else if line.len() > 0 {
            row_lines(rest, line.push(32u8) + token)
        } else {
            row_lines(rest, token)
        }
    }
}

/// The pixel lines of the first `rows` rows of an image whose rows each hold
/// `row_len` channels.
pub open spec fn body_lines(channels: Seq<u8>, row_len: nat, rows: nat) -> Seq<u8>
    decreases rows,
{
    if rows == 0 {
        Seq::empty()
    } else {
        body_lines(channels, row_len, (rows - 1) as nat) + row_lines(
            channels.subrange((rows - 1) * row_len, (rows * row_len) as int),
            Seq::empty(),
        )
    }
}

/// The complete plain PPM text of a `width` x `height` image whose channels are
/// given row by row, left to right, three (red, green, blue) per pixel.
pub open spec fn ppm_text(width: nat, height: nat, channels: Seq<u8>) -> Seq<u8> {
    ppm_header(width, height) + body_lines(channels, 3 * width, height)
}

proof fn lemma_decimal_len(n: nat)
    ensures
        1 <= decimal(n).len(),
        n < 10 ==> decimal(n).len() == 1,
        n < 100 ==> decimal(n).len() <= 2,
        n < 1000 ==> decimal(n).len() <= 3,
    decreases n,
{
    if n >= 10 {
        lemma_decimal_len(n / 10);
    }
}

/// Appends the decimal digits of `n` to `out`.
fn push_decimal(out: &mut Vec<u8>, n: usize)
    ensures
        final(out)@ == old(out)@ + decimal(n as nat),
    decreases n,
{
    if n >= 10 {
        push_decimal(out, n / 10);
    }
    out.push((48 + n % 10) as u8);
    proof {
        if n >= 10 {
            assert(final(out)@ =~= old(out)@ + decimal(n as nat));
        } else {
            assert(final(out)@ =~= old(out)@ + decimal(n as nat));
        }
    }
}

/// Appends the lines of one row of channels to `out`.
fn push_row(out: &mut Vec<u8>, channels: &Vec<u8>, start: usize, end: usize)
    requires
        start <= end <= channels.len(),
    ensures
        final(out)@ == old(out)@ + row_lines(channels@.subrange(start as int, end as int), Seq::empty()),
{
    let mut line: Vec<u8> = Vec::new();
    let mut k: usize = start;
    while k < end
        invariant
            start <= k <= end <= channels.len(),
            line.len() <= MAX_LINE,
            out@ + row_lines(channels@.subrange(k as int, end as int), line@) == old(out)@ + row_lines(
                channels@.subrange(start as int, end as int),
                Seq::empty(),
            ),
        decreases end - k,
    {
        let ghost rest = channels@.subrange(k as int, end as int);
        let mut token: Vec<u8> = Vec::new();
        push_decimal(&mut token, channels[k] as usize);
        proof {
            lemma_decimal_len(channels[k as int] as nat);
            assert(token@ =~= decimal(rest[0] as nat));
            assert(rest.drop_first() =~= channels@.subrange(k + 1, end as int));
        }
        if line.len() + 1 + token.len() > MAX_LINE {
            line.push(10u8);
            out.append(&mut line);
            line = token;
        } else {
            if line.len() > 0 {
                line.push(32u8);
            }
            line.append(&mut token);
        }
        k = k + 1;
    }
    if line.len() > 0 {
        line.push(10u8);
        out.append(&mut line);
    }
    proof {
        assert(channels@.subrange(k as int, end as int).len() == 0);
    }
}

/// The plain PPM text of a `width` x `height` image whose channels are given row
/// by row, three per pixel: a header, then every row starting on a new line,
/// its channels separated by single spaces and split between channels so that
/// no line holds more than seventy bytes, and a final newline.
pub fn encode_ppm(width: usize, height: usize, channels: &Vec<u8>) -> (r: Vec<u8>)
    requires
        channels.len() == 3 * width * height,
    ensures
        r@ == ppm_text(width as nat, height as nat, channels@),
{
    let mut out: Vec<u8> = Vec::new();
    out.push(80u8);
    out.push(51u8);
    out.push(10u8);
    push_decimal(&mut out, width);
    out.push(32u8);
    push_decimal(&mut out, height);
    out.push(10u8);
    push_decimal(&mut out, MAX_CHANNEL as usize);
    out.push(10u8);
    assert(out@ =~= ppm_header(width as nat, height as nat));
    if height == 0 {
        assert(out@ =~= ppm_text(width as nat, height as nat, channels@));
        return out;
    }
    proof {
        assert(3 * width * height == (3 * width) * height) by (nonlinear_arith);
        assert(3 * width <= (3 * width) * height) by (nonlinear_arith)
            requires height > 0;
    }
    let row_len: usize = 3 * width;
    let mut y: usize = 0;
    while y < height
        invariant
            y <= height,
            row_len == 3 * width,
            channels.len() == row_len * height,
            out@ == ppm_header(width as nat, height as nat) + body_lines(channels@, row_len as nat, y as nat),
        decreases height - y,
    {
        proof {
            assert((y + 1) * row_len <= height * row_len) by (nonlinear_arith)
                requires y + 1 <= height;
            assert((y + 1) * row_len == y * row_len + row_len) by (nonlinear_arith);
            assert(height * row_len == row_len * height) by (nonlinear_arith);
        }
        let start: usize = y * row_len;
        let end: usize = start + row_len;
        push_row(&mut out, channels, start, end);
        proof {
            assert(((y + 1) as nat - 1) as nat == y as nat);
            assert(out@ =~= ppm_header(width as nat, height as nat) + body_lines(
                channels@,
                row_len as nat,
                (y + 1) as nat,
            ));
        }
        y = y + 1;
    }
    out
}

/// `s[i..j]` holds no newline.
pub open spec fn newline_free(s: Seq<u8>, i: int, j: int) -> bool {
    forall|k: int| i <= k < j ==> s[k] != 10u8
}

/// A pixel as three 8-bit channels.
#[derive(Clone, Copy, Debug, PartialEq, Eq, Structural)]
pub struct Rgb {
    pub r: u8,
    pub g: u8,
    pub b: u8,
}

/// The channels of `pixels`, in order, red, green and blue for each.
pub open spec fn channels_of(pixels: Seq<Rgb>) -> Seq<u8>
    decreases pixels.len(),
{
    if pixels.len() == 0 {
        Seq::empty()
    } else {
        channels_of(pixels.drop_last()) + seq![pixels.last().r, pixels.last().g, pixels.last().b]
    }
}

proof fn lemma_channels_len(pixels: Seq<Rgb>)
    ensures
        channels_of(pixels).len() == 3 * pixels.len(),
    decreases pixels.len(),
{
    if pixels.len() > 0 {
        lemma_channels_len(pixels.drop_last());
    }
}

impl Canvas<Rgb> {
    /// The plain PPM text of a canvas: its pixels left to right, top to bottom.
    pub fn canvas_to_ppm(&self) -> (r: Vec<u8>)
        requires
            self.wf(),
        ensures
            r@ == ppm_text(
                self.spec_width() as nat,
                self.spec_height() as nat,
                channels_of(self.pixels()),
            ),
    {
        let width = self.width();
        let height = self.height();
        let ghost pixels = self.pixels();
        proof {
            self.lemma_well_formed();
        }
        let mut channels: Vec<u8> = Vec::new();
        let mut y: usize = 0;
        assert(pixels.subrange(0, 0) =~= Seq::<Rgb>::empty());
        while y < height
            invariant
                self.wf(),
                width == self.spec_width(),
                height == self.spec_height(),
                pixels == self.pixels(),
                pixels.len() == width * height,
                width * height <= usize::MAX,
                y <= height,
                y * width <= width * height,
                channels@ == channels_of(pixels.subrange(0, y * width)),
            decreases height - y,
        {
            let mut x: usize = 0;
            proof {
                assert((y + 1) * width <= width * height) by (nonlinear_arith)
                    requires y < height;
                assert((y + 1) * width == y * width + width) by (nonlinear_arith);
            }
            while x < width
                invariant
                    self.wf(),
                    width == self.spec_width(),
                    height == self.spec_height(),
                    pixels == self.pixels(),
                    pixels.len() == width * height,
                    y < height,
                    x <= width,
                    y * width + width <= width * height,
                    channels@ == channels_of(pixels.subrange(0, y * width + x)),
                decreases width - x,
            {
                let p = self.pixel_at(x, y);
                channels.push(p.r);
                channels.push(p.g);
                channels.push(p.b);
                proof {
                    let k = y * width + x;
                    assert(pixels.subrange(0, k + 1).drop_last() =~= pixels.subrange(0, k));
                    assert(pixels.subrange(0, k + 1).last() == p);
                    assert(channels@ =~= channels_of(pixels.subrange(0, k + 1)));
                }
                x = x + 1;
            }
            assert((y + 1) * width == y * width + width) by (nonlinear_arith);
            y = y + 1;
        }
        proof {
            assert(y * width == width * height) by (nonlinear_arith)
                requires y == height;
            assert(pixels.subrange(0, y * width) =~= pixels);
            lemma_channels_len(pixels);
            assert(3 * width * height == 3 * (width * height)) by (nonlinear_arith);
        }
        encode_ppm(width, height, &channels)
    }
}

/// No stretch of `s` without a newline is longer than the longest allowed line.
pub open spec fn lines_fit(s: Seq<u8>) -> bool {
    forall|i: int, j: int| 0 <= i <= j <= s.len() && #[trigger] newline_free(s, i, j) ==> j - i <= MAX_LINE
}

/// `s` is empty or ends a line.
pub open spec fn ends_line(s: Seq<u8>) -> bool {
    s.len() == 0 || s.last() == 10u8
}

proof fn lemma_fit_concat(a: Seq<u8>, b: Seq<u8>)
    requires
        lines_fit(a),
        ends_line(a),
        lines_fit(b),
    ensures
        lines_fit(a + b),
{
    let s = a + b;
    assert forall|i: int, j: int|
        0 <= i <= j <= s.len() && newline_free(s, i, j) implies j - i <= MAX_LINE by {
        if j <= a.len() {
            assert forall|k: int| i <= k < j implies a[k] != 10u8 by {
                assert(s[k] == a[k]);
            }
            assert(newline_free(a, i, j));
        } else if i >= a.len() {
            assert forall|k: int| i - a.len() <= k < j - a.len() implies b[k] != 10u8 by {
                assert(s[k + a.len()] == b[k]);
            }
            assert(newline_free(b, i - a.len(), j - a.len()));
        } else {
            assert(s[a.len() - 1] == 10u8);
        }
    }
}

proof fn lemma_line_fits(line: Seq<u8>)
    requires
        line.len() <= MAX_LINE,
    ensures
        lines_fit(line.push(10u8)),
        ends_line(line.push(10u8)),
{
    let s = line.push(10u8);
    assert forall|i: int, j: int|
        0 <= i <= j <= s.len() && newline_free(s, i, j) implies j - i <= MAX_LINE by {
        if j == s.len() && i < j {
            assert(s[j - 1] == 10u8);
        }
    }
}

proof fn lemma_row_fits(channels: Seq<u8>, line: Seq<u8>)
    requires
        line.len() <= MAX_LINE,
    ensures
        lines_fit(row_lines(channels, line)),
        ends_line(row_lines(channels, line)),
    decreases channels.len(),
{
    if channels.len() == 0 {
        if line.len() > 0 {
            lemma_line_fits(line);
        }
    } else {
        let token = decimal(channels[0] as nat);
        let rest = channels.drop_first();
        lemma_decimal_len(channels[0] as nat);
        if line.len() + 1 + token.len() > MAX_LINE {
            lemma_line_fits(line);
            lemma_row_fits(rest, token);
            lemma_fit_concat(line.push(10u8), row_lines(rest, token));
            let r = row_lines(rest, token);
            if r.len() > 0 {
                assert((line.push(10u8) + r).last() == r.last());
            }
        } else if line.len() > 0 {
            lemma_row_fits(rest, line.push(32u8) + token);
        } else {
            lemma_row_fits(rest, token);
        }
    }
}

proof fn lemma_body_fits(channels: Seq<u8>, row_len: nat, rows: nat)
    ensures
        lines_fit(body_lines(channels, row_len, rows)),
        ends_line(body_lines(channels, row_len, rows)),
    decreases rows,
{
    if rows > 0 {
        lemma_body_fits(channels, row_len, (rows - 1) as nat);
        let a = body_lines(channels, row_len, (rows - 1) as nat);
        let b = row_lines(channels.subrange((rows - 1) * row_len, (rows * row_len) as int), Seq::empty());
        lemma_row_fits(channels.subrange((rows - 1) * row_len, (rows * row_len) as int), Seq::empty());
        lemma_fit_concat(a, b);
        if b.len() > 0 {
            assert((a + b).last() == b.last());
        }
    }
}

spec fn pow10(k: nat) -> nat
    decreases k,
{
    if k == 0 {
        1
    } else {
        10 * pow10((k - 1) as nat)
    }
}

proof fn lemma_decimal_len_below(n: nat, k: nat)
    requires
        n < pow10(k),
        k >= 1,
    ensures
        decimal(n).len() <= k,
    decreases k,
{
    if n >= 10 {
        if k == 1 {
            assert(pow10(1) == 10 * pow10(0));
            assert(false);
        }
        let p = pow10((k - 1) as nat);
        assert(n / 10 < p) by (nonlinear_arith)
            requires n < 10 * p;
        lemma_decimal_len_below(n / 10, (k - 1) as nat);
    }
}

/// No line of the PPM text of an image is longer than seventy bytes, and the
/// text ends with a newline.
pub proof fn lemma_ppm_lines_fit(width: usize, height: usize, channels: Seq<u8>)
    ensures
        lines_fit(ppm_text(width as nat, height as nat, channels)),
        ppm_text(width as nat, height as nat, channels).last() == 10u8,
{
    let h = ppm_header(width as nat, height as nat);
    reveal_with_fuel(pow10, 21);
    assert(pow10(20) == 100000000000000000000nat);
    lemma_decimal_len_below(width as nat, 20);
    lemma_decimal_len_below(height as nat, 20);
    lemma_decimal_len(255);
    lemma_body_fits(channels, 3 * width as nat, height as nat);
    let b = body_lines(channels, 3 * width as nat, height as nat);
    let l1 = seq![80u8, 51u8];
    let l2 = decimal(width as nat) + seq![32u8] + decimal(height as nat);
    let l3 = decimal(255);
    assert(h =~= l1.push(10u8) + l2.push(10u8) + l3.push(10u8));
    lemma_line_fits(l1);
    lemma_line_fits(l2);
    lemma_line_fits(l3);
    lemma_fit_concat(l1.push(10u8), l2.push(10u8));
    assert((l1.push(10u8) + l2.push(10u8)).last() == 10u8);
    lemma_fit_concat(l1.push(10u8) + l2.push(10u8), l3.push(10u8));
    assert(h.last() == 10u8);
    lemma_fit_concat(h, b);
    if b.len() > 0 {
        assert((h + b).last() == b.last());
    }
}

} // verus!
