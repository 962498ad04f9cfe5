//! Reading RLE text into a grid of characters.
use vstd::prelude::*;
use crate::basic_grids::{Grid, Rect};
use crate::text::{
    chars_of, digit_value, find_char, find_in, has_char, int_text, is_digit, is_whitespace, line_bounds, lines,
    parse_int, parse_usize_in, pieces, push_char, push_int, push_str, spec_is_whitespace, split, split_bounds, trim,
    trim_bounds,
};

verus! {

/// The part of a header field before its first `=`, trimmed.
pub open spec fn field_key(f: Seq<char>) -> Seq<char> {
    let i = find_char(f, '=');
    if i < 0 {
        trim(f)
    } else {
        trim(f.take(i))
    }
}

/// The part of a header field after its first `=`, trimmed (empty without `=`).
pub open spec fn field_value(f: Seq<char>) -> Seq<char> {
    let i = find_char(f, '=');
    if i < 0 {
        seq![]
    } else {
        trim(f.skip(i + 1))
    }
}

/// Width and height as the header fields `fs` set them: for each of the keys `x` and
/// `y`, the value of its last field, parsed as a `usize`.
pub open spec fn header_fields(fs: Seq<Seq<char>>) -> (Option<int>, Option<int>)
    decreases fs.len(),
{
    if fs.len() == 0 {
        (None, None)
    } else {
        let (w, h) = header_fields(fs.drop_last());
        let f = fs.last();
        if field_key(f) == seq!['x'] {
            (parse_int(field_value(f), false, 0, usize::MAX as int), h)
        } else if field_key(f) == seq!['y'] {
            (w, parse_int(field_value(f), false, 0, usize::MAX as int))
        } else {
            (w, h)
        }
    }
}

/// The value of the last header field of `fs` whose key is `rule`, if there is one.
pub open spec fn header_rule_field(fs: Seq<Seq<char>>) -> Option<Seq<char>>
    decreases fs.len(),
{
    if fs.len() == 0 {
        None
    } else if field_key(fs.last()) == seq!['r', 'u', 'l', 'e'] {
        Some(field_value(fs.last()))
    } else {
        header_rule_field(fs.drop_last())
    }
}

/// The rule a header line names: its last `rule` field, `B3/S23` without one.
pub open spec fn header_rule(line: Seq<char>) -> Seq<char> {
    match header_rule_field(split(line, ',')) {
        Some(r) => r,
        None => seq!['B', '3', '/', 'S', '2', '3'],
    }
}

/// The size that a header line declares, when it declares both.
pub open spec fn header_dims(line: Seq<char>) -> Option<(int, int)> {
    match header_fields(split(line, ',')) {
        (Some(w), Some(h)) => Some((w, h)),
        _ => None,
    }
}

/// `d` put in front of the data of `r`.
pub open spec fn prepend(
    d: Seq<char>,
    r: Result<(Option<(int, int)>, Seq<char>), Seq<char>>,
) -> Result<(Option<(int, int)>, Seq<char>), Seq<char>> {
    match r {
        Ok((hdr, d2)) => Ok((hdr, d + d2)),
        Err(e) => Err(e),
    }
}

/// Reads the lines `ls`, each trimmed: blank lines and `#` comments are skipped; while
/// no header has been read, a line starting with `x` is the header (`Err` with that
/// line where it declares no size); every other line is data, and the first data line
/// holding `!` is the last one read. Gives the declared size, if any, and the data.
pub open spec fn gather(
    ls: Seq<Seq<char>>,
    hdr: Option<(int, int)>,
) -> Result<(Option<(int, int)>, Seq<char>), Seq<char>>
    decreases ls.len(),
{
    if ls.len() == 0 {
        Ok((hdr, seq![]))
    } else {
        let line = trim(ls[0]);
        if line.len() == 0 || line[0] == '#' {
            gather(ls.drop_first(), hdr)
        } else if hdr is None && line[0] == 'x' {
            match header_dims(line) {
                None => Err(line),
                Some(d) => gather(ls.drop_first(), Some(d)),
            }
        } else if has_char(line, '!') {
            Ok((hdr, line))
        } else {
            prepend(line, gather(ls.drop_first(), hdr))
        }
    }
}

/// A run length as RLE reads it: no count (or a count below one) means one.
pub open spec fn run_len(count: int) -> int {
    if count > 1 {
        count
    } else {
        1
    }
}

/// Where RLE data stops being read: at the first `!`, or its end.
pub open spec fn scan_end(data: Seq<char>) -> int {
    let b = find_char(data, '!');
    if b < 0 {
        data.len() as int
    } else {
        b
    }
}

/// One character of the scan that sizes headerless data; the state is the column, the
/// row, the pending count, the furthest column reached and the rows holding cells.
pub open spec fn extent_step(st: (int, int, int, int, int), c: char) -> (int, int, int, int, int) {
    let (x, y, count, mx, my) = st;
    if is_digit(c) {
        (x, y, count * 10 + digit_value(c), mx, my)
    } else if c == 'b' || c == 'o' {
        let nx = x + run_len(count);
        (nx, y, 0, if mx > nx { mx } else { nx }, if my > y + 1 { my } else { y + 1 })
    } else if c == '$' {
        (0, y + run_len(count), 0, mx, my)
    } else {
        st
    }
}

pub open spec fn extent_state(data: Seq<char>) -> (int, int, int, int, int)
    decreases data.len(),
{
    if data.len() == 0 {
        (0, 0, 0, 0, 0)
    } else {
        extent_step(extent_state(data.drop_last()), data.last())
    }
}

/// Width and height of headerless data: the furthest column any `b` or `o` run reaches,
/// and one past the last row holding one; at least one each.
pub open spec fn body_extent(data: Seq<char>) -> (int, int) {
    let st = extent_state(data.take(scan_end(data)));
    (if st.3 > 1 { st.3 } else { 1 }, if st.4 > 1 { st.4 } else { 1 })
}

/// `cells` with `r` places from `start` on set to `c`.
pub open spec fn fill(cells: Seq<char>, start: int, r: int, c: char) -> Seq<char> {
    Seq::new(cells.len(), |k: int| if start <= k < start + r { c } else { cells[k] })
}

/// One character of decoding into a `w` by `h` grid; the state is the column, the row,
/// the pending count and the cells. Digits extend the count, `$` moves down by the run
/// length, whitespace is skipped, and any other character fills a run of cells in the
/// current row; `Err` with the place of the first cell that falls outside.
pub open spec fn decode_step(st: (int, int, int, Seq<char>), c: char, w: int, h: int) -> Result<
    (int, int, int, Seq<char>),
    (int, int),
> {
    let (x, y, count, cells) = st;
    if is_digit(c) {
        Ok((x, y, count * 10 + digit_value(c), cells))
    } else if c == '$' {
        Ok((0, y + run_len(count), 0, cells))
    } else if spec_is_whitespace(c) {
        Ok(st)
    } else {
        let r = run_len(count);
        if y >= h || x >= w {
            Err((x, y))
        } else if x + r > w {
            Err((w, y))
        } else {
            Ok((x + r, y, 0, fill(cells, y * w + x, r, c)))
        }
    }
}

pub open spec fn decode_state(data: Seq<char>, w: int, h: int) -> Result<(int, int, int, Seq<char>), (int, int)>
    decreases data.len(),
{
    if data.len() == 0 {
        Ok((0, 0, 0, Seq::new((w * h) as nat, |k: int| '.')))
    } else {
        match decode_state(data.drop_last(), w, h) {
            Ok(st) => decode_step(st, data.last(), w, h),
            Err(e) => Err(e),
        }
    }
}

/// Names the text that `{:?}` gives for a string: the string in double quotes, with
/// the characters that need it escaped.
pub uninterp spec fn debug_text(s: Seq<char>) -> Seq<char>;

pub open spec fn header_error_text(quoted: Seq<char>) -> Seq<char> {
    "could not parse RLE header: "@ + quoted
}

pub open spec fn zero_dimension_text() -> Seq<char> {
    "RLE pattern has zero dimension"@
}

pub open spec fn overflow_text(w: int, h: int, x: int, y: int) -> Seq<char> {
    "RLE data exceeds declared dimensions x="@ + int_text(w) + ",y="@ + int_text(h) + " at "@ + int_text(x) + ","@
        + int_text(y)
}

/// What reading RLE text gives: the width, height and row-major cells (`.` where no
/// cell is written), or the error message.
pub open spec fn rle_parse(text: Seq<char>) -> Result<(int, int, Seq<char>), Seq<char>> {
    match gather(lines(text), None) {
        Err(line) => Err(header_error_text(debug_text(line))),
        Ok((hdr, data)) => {
            let (w, h) = match hdr {
                Some(d) => d,
                None => body_extent(data),
            };
            if w == 0 || h == 0 {
                Err(zero_dimension_text())
            } else {
                match decode_state(data.take(scan_end(data)), w, h) {
                    Err((x, y)) => Err(overflow_text(w, h, x, y)),
                    Ok(st) => Ok((w, h, st.3)),
                }
            }
        },
    }
}

/// Every count and position the sizing scan of `d` reaches fits in an `i32`.
pub open spec fn extent_fits(d: Seq<char>) -> bool {
    forall|n: int|
        0 <= n <= d.len() ==> {
            let st = #[trigger] extent_state(d.take(n));
            st.0 <= i32::MAX && st.1 <= i32::MAX && st.2 <= i32::MAX && st.3 <= i32::MAX && st.4 <= i32::MAX
        }
}

/// Every count and row the decoding of `d` reaches fits in an `i32`.
pub open spec fn decode_fits(d: Seq<char>, w: int, h: int) -> bool {
    forall|n: int|
        0 <= n <= d.len() ==> (#[trigger] decode_state(d.take(n), w, h) matches Ok(st) ==> st.1 <= i32::MAX
            && st.2 <= i32::MAX)
}

/// The text's counts, positions and size stay within what the reader computes in:
/// `i32` counters and a grid of at most `i32::MAX` cells.
pub open spec fn rle_within_limits(text: Seq<char>) -> bool {
    match gather(lines(text), None) {
        Err(_) => true,
        Ok((hdr, data)) => {
            let d = data.take(scan_end(data));
            &&& (hdr is None ==> extent_fits(d))
            &&& {
                let (w, h) = match hdr {
                    Some(dims) => dims,
                    None => body_extent(data),
                };
                w == 0 || h == 0 || (w * h <= i32::MAX && decode_fits(d, w, h))
            }
        }
    }
}

/// `format!("{:?}", s)`: the `Debug` form of a string (std's `impl Debug for str`).
/// The text is named by `debug_text`; nothing more is claimed of it.
#[verifier::external_body]
fn debug_string(s: &String) -> (r: String)
    ensures
        r@ == debug_text(s@),
{
    format!("{:?}", s.as_str())
}

/// The message for a header line that declares no size, from the line's quoted form.
pub fn header_error(quoted: &str) -> (r: String)
    ensures
        r@ == header_error_text(quoted@),
{
    let mut out = String::new();
    push_str(&mut out, "could not parse RLE header: ");
    push_str(&mut out, quoted);
    out
}

pub open spec fn opt_int(o: Option<usize>) -> Option<int> {
    match o {
        Some(v) => Some(v as int),
        None => None,
    }
}

pub open spec fn opt_dims(o: Option<(usize, usize)>) -> Option<(int, int)> {
    match o {
        Some((w, h)) => Some((w as int, h as int)),
        None => None,
    }
}

proof fn lemma_prepend_assoc(a: Seq<char>, b: Seq<char>, r: Result<(Option<(int, int)>, Seq<char>), Seq<char>>)
    ensures
        prepend(a, prepend(b, r)) == prepend(a + b, r),
{
    if r is Ok {
        let d2 = r->Ok_0.1;
        assert((a + b) + d2 =~= a + (b + d2));
    }
}

/// The one-character text `[c]`, as a test on the bounds of `v[a..b]`.
proof fn lemma_single_char(v: Seq<char>, a: int, b: int, c: char)
    requires
        0 <= a <= b <= v.len(),
    ensures
        (v.subrange(a, b) == seq![c]) <==> (b - a == 1 && v[a] == c),
{
    if b - a == 1 && v[a] == c {
        assert(v.subrange(a, b) =~= seq![c]);
    }
    if v.subrange(a, b) == seq![c] {
        assert(seq![c].len() == 1);
        assert(v.subrange(a, b).len() == 1);
        assert(seq![c][0] == c);
        assert(v.subrange(a, b)[0] == v[a]);
    }
}

/// Appends `v[a..b]` to `dst`.
fn extend_range(dst: &mut Vec<char>, v: &Vec<char>, a: usize, b: usize)
    requires
        a <= b <= v@.len(),
    ensures
        final(dst)@ == old(dst)@ + v@.subrange(a as int, b as int),
{
    let ghost start = dst@;
    let mut k = a;
    while k < b
        invariant
            a <= k <= b <= v@.len(),
            dst@ == start + v@.subrange(a as int, k as int),
        decreases b - k,
    {
        dst.push(v[k]);
        assert(dst@ =~= start + v@.subrange(a as int, k + 1));
        k = k + 1;
    }
}

/// Appends `v[a..b]` to `s`.
fn push_range(s: &mut String, v: &Vec<char>, a: usize, b: usize)
    requires
        a <= b <= v@.len(),
    ensures
        final(s)@ == old(s)@ + v@.subrange(a as int, b as int),
{
    let ghost start = s@;
    let mut k = a;
    while k < b
        invariant
            a <= k <= b <= v@.len(),
            s@ == start + v@.subrange(a as int, k as int),
        decreases b - k,
    {
        push_char(s, v[k]);
        assert(s@ =~= start + v@.subrange(a as int, k + 1));
        k = k + 1;
    }
}

/// The rule bounds `rb` pick out of `v`.
pub open spec fn opt_range(v: Seq<char>, rb: Option<(usize, usize)>) -> Option<Seq<char>> {
    match rb {
        Some((a, b)) => Some(v.subrange(a as int, b as int)),
        None => None,
    }
}

/// `v[a..b]` spells `rule`.
proof fn lemma_rule_key(v: Seq<char>, a: int, b: int)
    requires
        0 <= a <= b <= v.len(),
    ensures
        (v.subrange(a, b) == seq!['r', 'u', 'l', 'e']) <==> (b - a == 4 && v[a] == 'r' && v[a + 1] == 'u' && v[a + 2] == 'l'
            && v[a + 3] == 'e'),
{
    let w = seq!['r', 'u', 'l', 'e'];
    if b - a == 4 && v[a] == 'r' && v[a + 1] == 'u' && v[a + 2] == 'l' && v[a + 3] == 'e' {
        assert(v.subrange(a, b) =~= w);
    }
    if v.subrange(a, b) == w {
        assert(v.subrange(a, b).len() == 4);
        assert(v.subrange(a, b)[0] == v[a] && v.subrange(a, b)[1] == v[a + 1]);
        assert(v.subrange(a, b)[2] == v[a + 2] && v.subrange(a, b)[3] == v[a + 3]);
    }
}

/// Reads the size and the rule out of the header line `v[lo..hi]` (see `header_dims`
/// and `header_rule`); `None` when it does not declare both sizes.
fn parse_rle_header(v: &Vec<char>, lo: usize, hi: usize) -> (r: Option<(usize, usize, String)>)
    requires
        lo <= hi <= v@.len(),
    ensures
        r is None <==> header_dims(v@.subrange(lo as int, hi as int)) is None,
        r matches Some((w, h, rule)) ==> header_dims(v@.subrange(lo as int, hi as int)) == Some((w as int, h as int))
            && rule@ == header_rule(v@.subrange(lo as int, hi as int)),
{
    let parts = split_bounds(v, lo, hi, ',');
    let ghost fs = split(v@.subrange(lo as int, hi as int), ',');
    let mut w: Option<usize> = None;
    let mut h: Option<usize> = None;
    let mut rb: Option<(usize, usize)> = None;
    let mut i: usize = 0;
    while i < parts.len()
        invariant
            lo <= hi <= v@.len(),
            pieces(v@, parts@) == fs,
            forall|k: int| 0 <= k < parts@.len() ==> lo <= (#[trigger] parts@[k]).0 <= parts@[k].1 <= hi,
            0 <= i <= parts@.len(),
            header_fields(fs.take(i as int)) == (opt_int(w), opt_int(h)),
            header_rule_field(fs.take(i as int)) == opt_range(v@, rb),
            rb matches Some((ra, rbb)) ==> ra <= rbb <= v@.len(),
        decreases parts@.len() - i,
    {
        let (a, b) = parts[i];
        let ghost f = v@.subrange(a as int, b as int);
        assert(fs[i as int] == f);
        let e = find_in(v, a, b, '=');
        let (ka, kb) = trim_bounds(v, a, e);
        proof {
            if e < b {
                assert(f.take(e - a) =~= v@.subrange(a as int, e as int));
                assert(f.skip(e - a + 1) =~= v@.subrange(e + 1, b as int));
            } else {
                assert(f =~= v@.subrange(a as int, e as int));
            }
            assert(field_key(f) == v@.subrange(ka as int, kb as int));
            lemma_single_char(v@, ka as int, kb as int, 'x');
            lemma_single_char(v@, ka as int, kb as int, 'y');
            lemma_rule_key(v@, ka as int, kb as int);
            assert(fs.take(i + 1).drop_last() =~= fs.take(i as int));
            assert(fs.take(i + 1).last() == f);
        }
        let is_x = kb - ka == 1 && v[ka] == 'x';
        let is_y = kb - ka == 1 && v[ka] == 'y';
        let is_rule = kb - ka == 4 && v[ka] == 'r' && v[ka + 1] == 'u' && v[ka + 2] == 'l' && v[ka + 3] == 'e';
        if is_rule {
            if e < b {
                let (va, vb) = trim_bounds(v, e + 1, b);
                rb = Some((va, vb));
            } else {
                rb = Some((b, b));
                proof {
                    assert(field_value(f) == Seq::<char>::empty());
                    assert(v@.subrange(b as int, b as int) =~= Seq::<char>::empty());
                }
            }
        }
        if is_x || is_y {
            let val = if e < b {
                let (va, vb) = trim_bounds(v, e + 1, b);
                parse_usize_in(v, va, vb)
            } else {
                None
            };
            proof {
                if e >= b {
                    assert(field_value(f) == Seq::<char>::empty());
                }
            }
            if is_x {
                w = val;
            } else {
                h = val;
            }
        }
        i = i + 1;
    }
    proof {
        assert(fs.take(parts@.len() as int) =~= fs);
    }
    match (w, h) {
        (Some(a), Some(b)) => {
            let mut rule = String::new();
            match rb {
                Some((ra, rbb)) => {
                    push_range(&mut rule, v, ra, rbb);
                },
                None => {
                    push_char(&mut rule, 'B');
                    push_char(&mut rule, '3');
                    push_char(&mut rule, '/');
                    push_char(&mut rule, 'S');
                    push_char(&mut rule, '2');
                    push_char(&mut rule, '3');
                },
            }
            proof {
                assert(rule@ =~= header_rule(v@.subrange(lo as int, hi as int)));
            }
            Some((a, b, rule))
        },
        _ => None,
    }
}

/// Sizes headerless data: `body_extent` of `data`, whose reading stops at `end`.
fn rle_body_extent(data: &Vec<char>, end: usize) -> (r: (usize, usize))
    requires
        end == scan_end(data@),
        extent_fits(data@.take(end as int)),
    ensures
        (r.0 as int, r.1 as int) == body_extent(data@),
{
    let ghost d = data@.take(end as int);
    proof {
        crate::text::lemma_find_char(data@, '!');
    }
    let mut x: i32 = 0;
    let mut y: i32 = 0;
    let mut count: i32 = 0;
    let mut mx: i32 = 0;
    let mut my: i32 = 0;
    let mut k: usize = 0;
    proof {
        assert(d.take(0) =~= Seq::<char>::empty());
    }
    while k < end
        invariant
            end <= data@.len(),
            d == data@.take(end as int),
            extent_fits(d),
            k <= end,
            extent_state(d.take(k as int)) == (x as int, y as int, count as int, mx as int, my as int),
            0 <= x,
            0 <= y,
            0 <= count,
            0 <= mx,
            0 <= my,
        decreases end - k,
    {
        let c = data[k];
        proof {
            assert(d.take(k + 1).drop_last() =~= d.take(k as int));
            assert(d.take(k + 1).last() == c);
            let st = extent_state(d.take(k + 1));
            assert(st.0 <= i32::MAX && st.1 <= i32::MAX && st.2 <= i32::MAX && st.3 <= i32::MAX && st.4
                <= i32::MAX);
        }
        let run = if count > 1 {
            count
        } else {
            1
        };
        if c >= '0' && c <= '9' {
            let dv = (c as u32 - '0' as u32) as i32;
            count = count * 10 + dv;
        } else if c == 'b' || c == 'o' {
            x = x + run;
            if x > mx {
                mx = x;
            }
            if y + 1 > my {
                my = y + 1;
            }
            count = 0;
        } else if c == '$' {
            y = y + run;
            x = 0;
            count = 0;
        }
        k = k + 1;
    }
    proof {
        assert(d.take(end as int) =~= d);
    }
    let w = if mx > 1 {
        mx
    } else {
        1
    };
    let h = if my > 1 {
        my
    } else {
        1
    };
    (w as usize, h as usize)
}

/// Decodes `data[..end]` into a `w` by `h` grid of characters (see `decode_step`), or
/// gives the place of the first cell that falls outside.
fn rle_decode(data: &Vec<char>, end: usize, w: usize, h: usize) -> (r: Result<Vec<char>, (i32, i32)>)
    requires
        end == scan_end(data@),
        0 < w,
        0 < h,
        w * h <= i32::MAX,
        decode_fits(data@.take(end as int), w as int, h as int),
    ensures
        match decode_state(data@.take(end as int), w as int, h as int) {
            Ok(st) => r matches Ok(cells) && cells@ == st.3,
            Err((x, y)) => r == Err::<Vec<char>, (i32, i32)>((x as i32, y as i32)) && 0 <= x <= i32::MAX
                && 0 <= y <= i32::MAX,
        },
{
    let ghost d = data@.take(end as int);
    let ghost (wi, hi) = (w as int, h as int);
    proof {
        crate::text::lemma_find_char(data@, '!');
        assert(wi <= wi * hi) by (nonlinear_arith)
            requires
                hi >= 1,
                wi >= 0,
        ;
        assert(hi <= wi * hi) by (nonlinear_arith)
            requires
                wi >= 1,
                hi >= 0,
        ;
    }
    let w_i32 = w as i32;
    let h_i32 = h as i32;
    let mut cells: Vec<char> = vec!['.'; w * h];
    proof {
        assert forall|i: int| 0 <= i < cells@.len() implies cells@[i] == '.' by {
            assert(cloned('.', cells@[i]));
        }
        assert(d.take(0) =~= Seq::<char>::empty());
        assert(cells@ =~= Seq::new((wi * hi) as nat, |k: int| '.'));
    }
    let mut x: i32 = 0;
    let mut y: i32 = 0;
    let mut count: i32 = 0;
    let mut k: usize = 0;
    while k < end
        invariant
            end <= data@.len(),
            d == data@.take(end as int),
            forall|j: int| 0 <= j < end ==> data@[j] != '!',
            wi == w == w_i32,
            hi == h == h_i32,
            0 < w,
            0 < h,
            w * h <= i32::MAX,
            decode_fits(d, wi, hi),
            k <= end,
            decode_state(d.take(k as int), wi, hi) == Ok::<(int, int, int, Seq<char>), (int, int)>(
                (x as int, y as int, count as int, cells@),
            ),
            cells@.len() == wi * hi,
            0 <= x <= w,
            0 <= y,
            0 <= count,
        decreases end - k,
    {
        let c = data[k];
        proof {
            assert(d.take(k + 1).drop_last() =~= d.take(k as int));
            assert(d.take(k + 1).last() == c);
            let st = decode_state(d.take(k + 1), wi, hi);
        }
        let run = if count > 1 {
            count
        } else {
            1
        };
        if c >= '0' && c <= '9' {
            let dv = (c as u32 - '0' as u32) as i32;
            count = count * 10 + dv;
        } else if c == '$' {
            y = y + run;
            x = 0;
            count = 0;
        } else if !is_whitespace(c) {
            if y >= h_i32 || x >= w_i32 {
                proof {
                    assert(decode_state(d, wi, hi) == Err::<(int, int, int, Seq<char>), (int, int)>(
                        (x as int, y as int),
                    )) by {
                        lemma_decode_err_stays(d, wi, hi, k as int + 1);
                    }
                }
                return Err((x, y));
            }
            if run > w_i32 - x {
                proof {
                    assert(decode_state(d, wi, hi) == Err::<(int, int, int, Seq<char>), (int, int)>(
                        (wi, y as int),
                    )) by {
                        lemma_decode_err_stays(d, wi, hi, k as int + 1);
                    }
                }
                return Err((w_i32, y));
            }
            proof {
                let yi = y as int;
                assert(yi * wi <= (hi - 1) * wi) by (nonlinear_arith)
                    requires
                        0 <= yi <= hi - 1,
                        wi >= 0,
                ;
                assert((hi - 1) * wi + wi == wi * hi) by (nonlinear_arith);
                assert(0 <= yi * wi) by (nonlinear_arith)
                    requires
                        0 <= yi,
                        wi >= 0,
                ;
            }
            let start = (y * w_i32 + x) as usize;
            let ghost before = cells@;
            let mut j: i32 = 0;
            while j < run
                invariant
                    0 <= j <= run,
                    start + run <= cells@.len(),
                    cells@.len() <= i32::MAX,
                    before.len() == cells@.len(),
                    cells@ == fill(before, start as int, j as int, c),
                decreases run - j,
            {
                cells.set(start + j as usize, c);
                assert(cells@ =~= fill(before, start as int, j + 1, c));
                j = j + 1;
            }
            x = x + run;
            count = 0;
        }
        k = k + 1;
    }
    proof {
        assert(d.take(end as int) =~= d);
    }
    Ok(cells)
}

/// Every run of cells ends with no count pending: after any data, a character that
/// writes cells leaves the next run without a count.
pub proof fn law_cell_run_clears_count(d: Seq<char>, c: char, w: int, h: int)
    requires
        !('0' <= c <= '9'),
        c != '$',
        !spec_is_whitespace(c),
    ensures
        decode_state(d.push(c), w, h) matches Ok(st) ==> st.2 == 0,
{
    assert(d.push(c).drop_last() =~= d);
    assert(d.push(c).last() == c);
}

/// With no count pending, a character that writes cells writes exactly one: the cell at
/// the current column of the current row, and moves one column on.
pub proof fn law_uncounted_run_writes_one_cell(d: Seq<char>, c: char, w: int, h: int)
    requires
        !('0' <= c <= '9'),
        c != '$',
        !spec_is_whitespace(c),
        decode_state(d, w, h) is Ok,
        decode_state(d, w, h)->Ok_0.2 == 0,
        0 <= decode_state(d, w, h)->Ok_0.0 < w,
        0 <= decode_state(d, w, h)->Ok_0.1 < h,
        decode_state(d, w, h)->Ok_0.3.len() == w * h,
    ensures
        ({
            let (x, y, count, cells) = decode_state(d, w, h)->Ok_0;
            decode_state(d.push(c), w, h) == Ok::<(int, int, int, Seq<char>), (int, int)>(
                (x + 1, y, 0, cells.update(y * w + x, c)),
            )
        }),
{
    let (x, y, count, cells) = decode_state(d, w, h)->Ok_0;
    assert(d.push(c).drop_last() =~= d);
    assert(d.push(c).last() == c);
    assert(0 <= y * w + x < w * h) by (nonlinear_arith)
        requires
            0 <= x < w,
            0 <= y < h,
    ;
    assert(fill(cells, y * w + x, 1, c) =~= cells.update(y * w + x, c));
}

/// Decoding keeps the number of cells.
proof fn lemma_decode_len(d: Seq<char>, w: int, h: int)
    requires
        w >= 0,
        h >= 0,
        decode_state(d, w, h) is Ok,
    ensures
        decode_state(d, w, h)->Ok_0.3.len() == w * h,
    decreases d.len(),
{
    assert(w * h >= 0) by (nonlinear_arith)
        requires
            w >= 0,
            h >= 0,
    ;
    if d.len() > 0 {
        lemma_decode_len(d.drop_last(), w, h);
    }
}

/// Once decoding has failed, it stays failed.
proof fn lemma_decode_err_stays(d: Seq<char>, w: int, h: int, n: int)
    requires
        0 <= n <= d.len(),
        decode_state(d.take(n), w, h) is Err,
    ensures
        decode_state(d, w, h) == decode_state(d.take(n), w, h),
    decreases d.len() - n,
{
    if n < d.len() {
        assert(d.take(n + 1).drop_last() =~= d.take(n));
        lemma_decode_err_stays(d, w, h, n + 1);
    } else {
        assert(d.take(n) =~= d);
    }
}

/// The declared size and the data lines of RLE text `v` (see `gather`), or the message
/// for a header line that declares no size.
fn read_sections(v: &Vec<char>) -> (r: Result<(Option<(usize, usize)>, Vec<char>), String>)
    ensures
        match gather(lines(v@), None) {
            Err(line) => r matches Err(e) && e@ == header_error_text(debug_text(line)),
            Ok((hdr, data)) => r matches Ok((h2, d2)) && opt_dims(h2) == hdr && d2@ == data,
        },
{
    let ls = line_bounds(v);
    let ghost all = lines(v@);
    let mut hdr: Option<(usize, usize)> = None;
    let mut data: Vec<char> = Vec::new();
    let mut stopped = false;
    let mut i: usize = 0;
    proof {
        assert(all.skip(0) =~= all);
        let g = gather(all, None);
        if g is Ok {
            assert(Seq::<char>::empty() + g->Ok_0.1 =~= g->Ok_0.1);
        }
    }
    while i < ls.len() && !stopped
        invariant
            all == lines(v@),
            pieces(v@, ls@) == all,
            forall|k: int| 0 <= k < ls@.len() ==> (#[trigger] ls@[k]).0 <= ls@[k].1 <= v@.len(),
            i <= ls@.len(),
            stopped ==> gather(all, None) == Ok::<(Option<(int, int)>, Seq<char>), Seq<char>>(
                (opt_dims(hdr), data@),
            ),
            !stopped ==> gather(all, None) == prepend(data@, gather(all.skip(i as int), opt_dims(hdr))),
        decreases ls@.len() - i,
    {
        let (lo, hi) = ls[i];
        let (a, b) = trim_bounds(v, lo, hi);
        let ghost line = v@.subrange(a as int, b as int);
        let ghost rest = all.skip(i as int);
        proof {
            assert(all[i as int] == v@.subrange(lo as int, hi as int));
            assert(rest[0] == all[i as int]);
            assert(rest.drop_first() =~= all.skip(i + 1));
            assert(line == trim(rest[0]));
            if a < b {
                assert(line[0] == v@[a as int]);
            }
        }
        if a == b || v[a] == '#' {
        } else if hdr.is_none() && v[a] == 'x' {
            match parse_rle_header(v, a, b) {
                Some((hw, hh, _rule)) => {
                    hdr = Some((hw, hh));
                },
                None => {
                    let mut l = String::new();
                    push_range(&mut l, v, a, b);
                    let q = debug_string(&l);
                    proof {
                        assert(l@ =~= line);
                    }
                    return Err(header_error(q.as_str()));
                },
            }
        } else {
            let ghost before = data@;
            extend_range(&mut data, v, a, b);
            let bang = find_in(v, a, b, '!');
            if bang < b {
                stopped = true;
            } else {
                proof {
                    lemma_prepend_assoc(before, line, gather(all.skip(i + 1), opt_dims(hdr)));
                }
            }
        }
        i = i + 1;
    }
    proof {
        if !stopped {
            assert(all.skip(i as int).len() == 0);
            assert(data@ + Seq::<char>::empty() =~= data@);
        }
    }
    Ok((hdr, data))
}

/// Whether every count and position of the sizing scan of `data[..end]` fits in an `i32`.
fn extent_check(data: &Vec<char>, end: usize) -> (b: bool)
    requires
        end <= data@.len(),
    ensures
        b == extent_fits(data@.take(end as int)),
{
    let ghost d = data@.take(end as int);
    let mut x: i64 = 0;
    let mut y: i64 = 0;
    let mut count: i64 = 0;
    let mut mx: i64 = 0;
    let mut my: i64 = 0;
    let mut k: usize = 0;
    proof {
        assert(d.take(0) =~= Seq::<char>::empty());
    }
    while k < end
        invariant
            end <= data@.len(),
            d == data@.take(end as int),
            k <= end,
            extent_state(d.take(k as int)) == (x as int, y as int, count as int, mx as int, my as int),
            0 <= x <= i32::MAX,
            0 <= y <= i32::MAX,
            0 <= count <= i32::MAX,
            0 <= mx <= i32::MAX,
            0 <= my <= i32::MAX,
            forall|n: int|
                0 <= n <= k ==> {
                    let st = #[trigger] extent_state(d.take(n));
                    st.0 <= i32::MAX && st.1 <= i32::MAX && st.2 <= i32::MAX && st.3 <= i32::MAX && st.4 <= i32::MAX
                },
        decreases end - k,
    {
        let c = data[k];
        proof {
            assert(d.take(k + 1).drop_last() =~= d.take(k as int));
            assert(d.take(k + 1).last() == c);
        }
        let run = if count > 1 {
            count
        } else {
            1
        };
        if c >= '0' && c <= '9' {
            let dv = (c as u32 - '0' as u32) as i64;
            count = count * 10 + dv;
        } else if c == 'b' || c == 'o' {
            x = x + run;
            if x > mx {
                mx = x;
            }
            if y + 1 > my {
                my = y + 1;
            }
            count = 0;
        } else if c == '$' {
            y = y + run;
            x = 0;
            count = 0;
        }
        if x > 2147483647 || y > 2147483647 || count > 2147483647 || mx > 2147483647 || my > 2147483647 {
            proof {
                let st = extent_state(d.take(k + 1));
                assert(!(st.0 <= i32::MAX && st.1 <= i32::MAX && st.2 <= i32::MAX && st.3 <= i32::MAX && st.4
                    <= i32::MAX));
            }
            return false;
        }
        k = k + 1;
    }
    true
}

/// Whether every count and row of the decoding of `data[..end]` into a `w` by `h` grid
/// fits in an `i32`.
fn decode_check(data: &Vec<char>, end: usize, w: usize, h: usize) -> (b: bool)
    requires
        end <= data@.len(),
        0 < w,
        0 < h,
        w * h <= i32::MAX,
    ensures
        b == decode_fits(data@.take(end as int), w as int, h as int),
{
    let ghost d = data@.take(end as int);
    let ghost (wi, hi) = (w as int, h as int);
    proof {
        assert(wi <= wi * hi && hi <= wi * hi) by (nonlinear_arith)
            requires
                hi >= 1,
                wi >= 1,
        ;
    }
    let w64 = w as i64;
    let h64 = h as i64;
    let ghost mut cells: Seq<char> = Seq::new((wi * hi) as nat, |k: int| '.');
    let mut x: i64 = 0;
    let mut y: i64 = 0;
    let mut count: i64 = 0;
    let mut k: usize = 0;
    proof {
        assert(d.take(0) =~= Seq::<char>::empty());
    }
    while k < end
        invariant
            end <= data@.len(),
            d == data@.take(end as int),
            wi == w == w64,
            hi == h == h64,
            0 < w <= i32::MAX,
            0 < h <= i32::MAX,
            k <= end,
            decode_state(d.take(k as int), wi, hi) == Ok::<(int, int, int, Seq<char>), (int, int)>(
                (x as int, y as int, count as int, cells),
            ),
            0 <= x <= w,
            0 <= y <= i32::MAX,
            0 <= count <= i32::MAX,
            forall|n: int|
                0 <= n <= k ==> (#[trigger] decode_state(d.take(n), wi, hi) matches Ok(st) ==> st.1 <= i32::MAX
                    && st.2 <= i32::MAX),
        decreases end - k,
    {
        let c = data[k];
        proof {
            assert(d.take(k + 1).drop_last() =~= d.take(k as int));
            assert(d.take(k + 1).last() == c);
        }
        let run = if count > 1 {
            count
        } else {
            1
        };
        if c >= '0' && c <= '9' {
            let dv = (c as u32 - '0' as u32) as i64;
            count = count * 10 + dv;
        } else if c == '$' {
            y = y + run;
            x = 0;
            count = 0;
        } else if !is_whitespace(c) {
            if y >= h64 || x >= w64 || run > w64 - x {
                proof {
                    assert(decode_state(d.take(k + 1), wi, hi) is Err);
                    assert forall|n: int| 0 <= n <= d.len() implies (#[trigger] decode_state(d.take(n), wi, hi) matches Ok(
                        st,
                    ) ==> st.1 <= i32::MAX && st.2 <= i32::MAX) by {
                        if n > k {
                            assert(d.take(n).take(k + 1) =~= d.take(k + 1));
                            lemma_decode_err_stays(d.take(n), wi, hi, k + 1);
                        }
                    }
                }
                return true;
            }
            proof {
                cells = fill(cells, y * wi + x, run as int, c);
            }
            x = x + run;
            count = 0;
        }
        if y > 2147483647 || count > 2147483647 {
            proof {
                assert(decode_state(d.take(k + 1), wi, hi) is Ok);
            }
            return false;
        }
        k = k + 1;
    }
    true
}

/// Whether RLE text stays within what the reader computes in (`rle_within_limits`):
/// `i32` counters and a grid of at most `i32::MAX` cells.
pub fn rle_fits(text: &str) -> (b: bool)
    ensures
        b == rle_within_limits(text@),
{
    let v = chars_of(text);
    match read_sections(&v) {
        Err(_) => true,
        Ok((hdr, data)) => {
            let end = find_in(&data, 0, data.len(), '!');
            proof {
                assert(data@.subrange(0, data@.len() as int) =~= data@);
                assert(end == scan_end(data@));
            }
            let (w, h) = match hdr {
                Some(dims) => dims,
                None => {
                    if !extent_check(&data, end) {
                        return false;
                    }
                    rle_body_extent(&data, end)
                },
            };
            if w == 0 || h == 0 {
                return true;
            }
            match w.checked_mul(h) {
                None => false,
                Some(p) => if p > 2147483647 {
                    false
                } else {
                    decode_check(&data, end, w, h)
                },
            }
        },
    }
}

/// Reads RLE text into a grid of characters, one per cell: the header line `x = ..,
/// y = ..` gives the size (without one, the data's own extent does), runs of cells are
/// written from the top-left, and cells no run reaches hold `.`. See `rle_parse` for
/// exactly what comes back on each text, errors included.
pub fn parse_generic_rle(text: &str) -> (r: Result<Grid<char>, String>)
    requires
        rle_within_limits(text@),
    ensures
        match rle_parse(text@) {
            Ok((w, h, cells)) => r matches Ok(g) && g.wf() && g.size == (Rect {
                top: 0,
                left: 0,
                bottom: h as i32,
                right: w as i32,
            }) && g.data@ == cells,
            Err(msg) => r matches Err(e) && e@ == msg,
        },
{
    let v = chars_of(text);
    let (hdr, data) = match read_sections(&v) {
        Err(e) => {
            return Err(e);
        },
        Ok(x) => x,
    };
    let end = find_in(&data, 0, data.len(), '!');
    proof {
        assert(data@.subrange(0, data@.len() as int) =~= data@);
        assert(end == scan_end(data@));
        assert(gather(lines(text@), None) == Ok::<(Option<(int, int)>, Seq<char>), Seq<char>>(
            (opt_dims(hdr), data@),
        ));
    }
    let (w, h) = match hdr {
        Some(dims) => dims,
        None => rle_body_extent(&data, end),
    };
    proof {
        let (wi, hi) = (w as int, h as int);
        assert((wi, hi) == match opt_dims(hdr) {
            Some(dd) => dd,
            None => body_extent(data@),
        });
        if wi > 0 && hi > 0 {
            assert(wi * hi <= i32::MAX);
            assert(wi <= wi * hi && hi <= wi * hi) by (nonlinear_arith)
                requires
                    hi >= 1,
                    wi >= 1,
            ;
        }
    }
    if w == 0 || h == 0 {
        let mut e = String::new();
        push_str(&mut e, "RLE pattern has zero dimension");
        assert(e@ =~= zero_dimension_text());
        return Err(e);
    }
    match rle_decode(&data, end, w, h) {
        Err((x, y)) => {
            let mut e = String::new();
            push_str(&mut e, "RLE data exceeds declared dimensions x=");
            push_int(&mut e, w as i64);
            push_str(&mut e, ",y=");
            push_int(&mut e, h as i64);
            push_str(&mut e, " at ");
            push_int(&mut e, x as i64);
            push_str(&mut e, ",");
            push_int(&mut e, y as i64);
            assert(e@ =~= overflow_text(w as int, h as int, x as int, y as int));
            Err(e)
        },
        Ok(cells) => {
            proof {
                let (wi, hi) = (w as int, h as int);
                lemma_decode_len(data@.take(end as int), wi, hi);
                assert((wi * hi) % wi == 0 && (wi * hi) / wi == hi) by (nonlinear_arith)
                    requires
                        wi > 0,
                        hi > 0,
                ;
                assert(wi <= wi * hi) by (nonlinear_arith)
                    requires
                        hi >= 1,
                        wi >= 0,
                ;
            }
            Ok(Grid::from_flat(w, cells))
        },
    }
}

} // verus!
