use vstd::prelude::*;

verus! {

/// ASCII space.
pub const SPACE: u8 = 32;

/// ASCII line feed.
pub const NEWLINE: u8 = 10;

/// Plain PPM text keeps every line shorter than this many characters.
pub const MAX_LINE_LEN: usize = 70;

/// The decimal digits of `n`, in ASCII, most significant first.
pub open spec fn decimal(n: nat) -> Seq<u8>
    decreases n,
{
    if n < 10 {
        seq![(48 + n) as u8]
    } else {
        decimal(n / 10).push((48 + n % 10) as u8)
    }
}

/// Appends the decimal digits of `n` to `out`.
pub fn push_decimal(out: &mut Vec<u8>, n: usize)
    ensures
        final(out)@ == old(out)@ + decimal(n as nat),
    decreases n,
{
    if n >= 10 {
        push_decimal(out, n / 10);
    }
    out.push((48 + n % 10) as u8);
    proof {
        assert(final(out)@ =~= old(out)@ + decimal(n as nat));
    }
}

/// Position of the last space among the first `k` bytes of `s`, or -1.
pub open spec fn last_space_below(s: Seq<u8>, k: int) -> int
    decreases k,
{
    if k <= 0 {
        -1
    } else if s[k - 1] == SPACE {
        k - 1
    } else {
        last_space_below(s, k - 1)
    }
}

/// Where a line at least `max` long is broken: at its last space before
/// position `max`, or, lacking one, at position `max - 1`.
pub open spec fn break_at(s: Seq<u8>, max: int) -> int {
    let b = last_space_below(s, max);
    if b >= 0 {
        b
    } else {
        max - 1
    }
}

/// `s` broken into lines shorter than `max`: while the rest is not, the
/// byte at the break position becomes a line feed.
pub open spec fn broken(s: Seq<u8>, max: int) -> Seq<u8>
    decreases s.len(),
{
    if max <= 0 || s.len() < max {
        s
    } else {
        let b = break_at(s, max);
        if 0 <= b < s.len() {
            s.take(b) + seq![NEWLINE] + broken(s.skip(b + 1), max)
        } else {
            s
        }
    }
}

proof fn lemma_break_at_bounds(s: Seq<u8>, k: int)
    requires
        k >= 0,
    ensures
        -1 <= last_space_below(s, k) < k,
    decreases k,
{
    if k > 0 {
        lemma_break_at_bounds(s, k - 1);
    }
}

/// Some line feed stands among the `max` bytes of `r` from position `i` on.
pub open spec fn breaks_within(r: Seq<u8>, i: int, max: int) -> bool {
    exists|j: int| i <= j < i + max && #[trigger] r[j] == NEWLINE
}

/// Every line of `r` is shorter than `max` characters: each run of `max`
/// bytes holds a line feed.
pub open spec fn lines_shorter_than(r: Seq<u8>, max: int) -> bool {
    forall|i: int| 0 <= i && i + max <= r.len() ==> #[trigger] breaks_within(r, i, max)
}

/// Breaking a line leaves no line of `max` characters or more, whatever the
/// line holds.
pub proof fn lemma_broken_lines_are_short(s: Seq<u8>, max: int)
    requires
        max >= 1,
    ensures
        lines_shorter_than(broken(s, max), max),
    decreases s.len(),
{
    if s.len() >= max {
        let b = break_at(s, max);
        lemma_break_at_bounds(s, max);
        assert(0 <= b < max);
        let rest = s.skip(b + 1);
        let tail = broken(rest, max);
        lemma_broken_lines_are_short(rest, max);
        let r = broken(s, max);
        assert(r == s.take(b) + seq![NEWLINE] + tail);
        assert forall|i: int| 0 <= i && i + max <= r.len() implies #[trigger] breaks_within(
            r,
            i,
            max,
        ) by {
            if i <= b {
                assert(r[b] == NEWLINE);
            } else {
                let i1 = i - b - 1;
                assert(breaks_within(tail, i1, max));
                let j1 = choose|j: int| i1 <= j < i1 + max && #[trigger] tail[j] == NEWLINE;
                assert(r[j1 + b + 1] == tail[j1]);
            }
        }
    }
}

/// Breaks `s` into lines shorter than `max_len` characters.
pub fn break_line(s: &Vec<u8>, max_len: usize) -> (r: Vec<u8>)
    requires
        max_len >= 1,
    ensures
        r@ == broken(s@, max_len as int),
        lines_shorter_than(r@, max_len as int),
{
    proof {
        lemma_broken_lines_are_short(s@, max_len as int);
    }
    let mut out: Vec<u8> = Vec::new();
    let mut p: usize = 0;
    assert(s@.skip(0) =~= s@);
    assert(out@ + broken(s@, max_len as int) =~= broken(s@, max_len as int));
    while s.len() - p >= max_len
        invariant
            max_len >= 1,
            p <= s.len(),
            out@ + broken(s@.skip(p as int), max_len as int) == broken(s@, max_len as int),
        decreases s.len() - p,
    {
        let ghost rest = s@.skip(p as int);
        let ghost out0 = out@;
        let mut k: usize = max_len;
        while k > 0 && s[p + k - 1] != SPACE
            invariant
                k <= max_len <= s.len() - p,
                rest == s@.skip(p as int),
                last_space_below(rest, k as int) == last_space_below(rest, max_len as int),
            decreases k,
        {
            k = k - 1;
        }
        let b: usize = if k > 0 {
            k - 1
        } else {
            max_len - 1
        };
        assert(b == break_at(rest, max_len as int));
        let mut q: usize = p;
        while q < p + b
            invariant
                p <= q <= p + b,
                p + b < s.len(),
                out@ == out0 + s@.subrange(p as int, q as int),
            decreases p + b - q,
        {
            out.push(s[q]);
            q = q + 1;
            assert(out@ =~= out0 + s@.subrange(p as int, q as int));
        }
        out.push(NEWLINE);
        proof {
            assert(rest.take(b as int) =~= s@.subrange(p as int, p + b));
            assert(rest.skip(b + 1) =~= s@.skip(p + b + 1));
            assert(broken(rest, max_len as int) == rest.take(b as int) + seq![NEWLINE] + broken(
                rest.skip(b + 1),
                max_len as int,
            ));
            assert(out@ =~= out0 + rest.take(b as int) + seq![NEWLINE]);
            assert(out0 + broken(rest, max_len as int) =~= out@ + broken(
                s@.skip(p + b + 1),
                max_len as int,
            ));
        }
        p = p + b + 1;
    }
    let ghost out1 = out@;
    let ghost p0 = p;
    assert(broken(s@.skip(p as int), max_len as int) == s@.skip(p as int));
    let mut q: usize = p;
    while q < s.len()
        invariant
            p0 <= q <= s.len(),
            out@ == out1 + s@.subrange(p0 as int, q as int),
        decreases s.len() - q,
    {
        out.push(s[q]);
        q = q + 1;
        assert(out@ =~= out1 + s@.subrange(p0 as int, q as int));
    }
    assert(s@.subrange(p0 as int, s@.len() as int) =~= s@.skip(p0 as int));
    out
}

/// `P<magic>\n<width> <height>\n255`: the header of a PPM image whose
/// channels range over 0..=255.
pub open spec fn header(magic: u8, width: nat, height: nat) -> Seq<u8> {
    seq![80u8, magic, NEWLINE] + decimal(width) + seq![SPACE] + decimal(height) + seq![
        NEWLINE,
        50u8,
        53u8,
        53u8,
    ]
}

/// `r g b` for the pixel at position `i` of the byte triples `rgb`.
pub open spec fn pixel_text(rgb: Seq<u8>, i: int) -> Seq<u8> {
    decimal(rgb[3 * i] as nat) + seq![SPACE] + decimal(rgb[3 * i + 1] as nat) + seq![SPACE]
        + decimal(rgb[3 * i + 2] as nat)
}

/// The texts of the `n` pixels from position `start` on, separated by spaces.
pub open spec fn pixels_text(rgb: Seq<u8>, start: int, n: int) -> Seq<u8>
    decreases n,
{
    if n <= 0 {
        Seq::empty()
    } else if n == 1 {
        pixel_text(rgb, start)
    } else {
        pixels_text(rgb, start, n - 1) + seq![SPACE] + pixel_text(rgb, start + n - 1)
    }
}

/// The first `k` rows of an image `width` pixels wide, each as the text of its
/// pixels broken into lines shorter than seventy characters, separated by line
/// feeds.
pub open spec fn rows_text(rgb: Seq<u8>, width: int, k: int) -> Seq<u8>
    decreases k,
{
    if k <= 0 {
        Seq::empty()
    } else if k == 1 {
        broken(pixels_text(rgb, 0, width), MAX_LINE_LEN as int)
    } else {
        rows_text(rgb, width, k - 1) + seq![NEWLINE] + broken(
            pixels_text(rgb, (k - 1) * width, width),
            MAX_LINE_LEN as int,
        )
    }
}

/// A plain (text) PPM file: header, then the rows, then a final line feed.
pub open spec fn plain_ppm(width: nat, height: nat, rgb: Seq<u8>) -> Seq<u8> {
    header(51u8, width, height) + seq![NEWLINE] + rows_text(rgb, width as int, height as int)
        + seq![NEWLINE]
}

/// A binary PPM file: header, one line feed, then the raw bytes.
pub open spec fn binary_ppm(width: nat, height: nat, rgb: Seq<u8>) -> Seq<u8> {
    header(54u8, width, height) + seq![NEWLINE] + rgb
}

fn push_header(out: &mut Vec<u8>, magic: u8, width: usize, height: usize)
    ensures
        final(out)@ == old(out)@ + header(magic, width as nat, height as nat),
{
    out.push(80u8);
    out.push(magic);
    out.push(NEWLINE);
    push_decimal(out, width);
    out.push(SPACE);
    push_decimal(out, height);
    out.push(NEWLINE);
    out.push(50u8);
    out.push(53u8);
    out.push(53u8);
    assert(final(out)@ =~= old(out)@ + header(magic, width as nat, height as nat));
}

fn push_pixel(out: &mut Vec<u8>, rgb: &Vec<u8>, i: usize)
    requires
        3 * i + 2 < rgb@.len(),
    ensures
        final(out)@ == old(out)@ + pixel_text(rgb@, i as int),
{
    // Reading the length bounds it by usize::MAX, which keeps 3 * i + 2 in range.
    let _len = rgb.len();
    push_decimal(out, rgb[3 * i] as usize);
    out.push(SPACE);
    push_decimal(out, rgb[3 * i + 1] as usize);
    out.push(SPACE);
    push_decimal(out, rgb[3 * i + 2] as usize);
    assert(final(out)@ =~= old(out)@ + pixel_text(rgb@, i as int));
}

/// Encodes an image of `width` by `height` pixels, given as `rgb` (three
/// bytes per pixel, row by row), as plain PPM text.
pub fn plain_ppm_bytes(width: usize, height: usize, rgb: &Vec<u8>) -> (r: Vec<u8>)
    requires
        width >= 1,
        rgb@.len() == 3 * width * height,
    ensures
        r@ == plain_ppm(width as nat, height as nat, rgb@),
{
    let len = rgb.len();
    let mut out: Vec<u8> = Vec::new();
    push_header(&mut out, 51u8, width, height);
    out.push(NEWLINE);
    let ghost head = out@;
    let mut y: usize = 0;
    while y < height
        invariant
            width >= 1,
            y <= height,
            rgb@.len() == 3 * width * height,
            len == rgb@.len(),
            out@ == head + rows_text(rgb@, width as int, y as int),
        decreases height - y,
    {
        let mut row: Vec<u8> = Vec::new();
        let mut x: usize = 0;
        while x < width
            invariant
                y < height,
                x <= width,
                rgb@.len() == 3 * width * height,
                len == rgb@.len(),
                row@ == pixels_text(rgb@, y * width, x as int),
            decreases width - x,
        {
            assert(3 * (y * width + x) + 2 < len) by (nonlinear_arith)
                requires
                    x < width,
                    y < height,
                    len == 3 * width * height,
            ;
            if x > 0 {
                row.push(SPACE);
            }
            push_pixel(&mut row, rgb, y * width + x);
            x = x + 1;
            assert(row@ =~= pixels_text(rgb@, y * width, x as int));
        }
        let mut line = break_line(&row, MAX_LINE_LEN);
        if y > 0 {
            out.push(NEWLINE);
        }
        let ghost prev = out@;
        out.append(&mut line);
        proof {
            let t = broken(pixels_text(rgb@, y * width, width as int), MAX_LINE_LEN as int);
            assert(row@ == pixels_text(rgb@, y * width, width as int));
            if y == 0 {
                assert(y * width == 0) by (nonlinear_arith)
                    requires
                        y == 0,
                ;
                assert(rows_text(rgb@, width as int, 1) == t);
                assert(out@ =~= head + rows_text(rgb@, width as int, 1));
            } else {
                assert(((y + 1) - 1) * width == y * width);
                assert(rows_text(rgb@, width as int, y + 1) == rows_text(rgb@, width as int, y as int)
                    + seq![NEWLINE] + t);
                assert(out@ =~= head + rows_text(rgb@, width as int, y + 1));
            }
        }
        y = y + 1;
    }
    out.push(NEWLINE);
    assert(out@ =~= plain_ppm(width as nat, height as nat, rgb@));
    out
}

/// Encodes the same image as binary PPM.
pub fn binary_ppm_bytes(width: usize, height: usize, rgb: &Vec<u8>) -> (r: Vec<u8>)
    ensures
        r@ == binary_ppm(width as nat, height as nat, rgb@),
{
    let mut out: Vec<u8> = Vec::new();
    push_header(&mut out, 54u8, width, height);
    out.push(NEWLINE);
    let mut i: usize = 0;
    let ghost head = out@;
    while i < rgb.len()
        invariant
            i <= rgb@.len(),
            out@ == head + rgb@.take(i as int),
        decreases rgb@.len() - i,
    {
        out.push(rgb[i]);
        i = i + 1;
        assert(out@ =~= head + rgb@.take(i as int));
    }
    assert(rgb@.take(rgb@.len() as int) =~= rgb@);
    out
}

/// The channels of `pixels`, three bytes per pixel, in order.
pub fn rgb_bytes(pixels: &Vec<(u8, u8, u8)>) -> (r: Vec<u8>)
    requires
        3 * pixels@.len() <= usize::MAX,
    ensures
        r@.len() == 3 * pixels@.len(),
        forall|i: int|
            0 <= i < pixels@.len() ==> r@[3 * i] == pixels@[i].0 && r@[3 * i + 1] == pixels@[i].1
                && r@[3 * i + 2] == pixels@[i].2,
{
    let mut out: Vec<u8> = Vec::new();
    let mut i: usize = 0;
    while i < pixels.len()
        invariant
            i <= pixels@.len(),
            3 * pixels@.len() <= usize::MAX,
            out@.len() == 3 * i,
            forall|k: int|
                0 <= k < i ==> out@[3 * k] == pixels@[k].0 && out@[3 * k + 1] == pixels@[k].1
                    && out@[3 * k + 2] == pixels@[k].2,
        decreases pixels@.len() - i,
    {
        let (r, g, b) = pixels[i];
        out.push(r);
        out.push(g);
        out.push(b);
        i = i + 1;
    }
    out
}

} // verus!
