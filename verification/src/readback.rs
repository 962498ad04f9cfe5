//! Reading back what `to_pretty_rle` writes gives the grid's cells.
use vstd::prelude::*;
use crate::basic_grids::{Coord, Grid};
use crate::ca::CACell;
use crate::format::{grid_pos, pretty_rle_text, rle_char, rle_header, row_tail_pos};
use crate::rule_table::{lemma_find_char_at, lemma_find_char_none, lemma_split_concat, lemma_split_single, lemma_trim_plain};
use crate::text::{
    all_digits, decimal, digit_value, digits_value, find_char, has_char, int_text, is_digit, lines, parse_int, spec_is_whitespace,
    split, strip_cr, trim, trim_end, trim_start,
};
use crate::rle::{
    decode_fits, decode_state, decode_step, field_key, field_value, gather, header_dims, header_fields, rle_parse,
    rle_within_limits, run_len, scan_end,
};

verus! {

/// The end of row `y` of the pretty RLE of `g`: `!` on the last row, `$` before.
pub open spec fn row_end(g: Grid<CACell>, y: int) -> char {
    if y == g.size.spec_height() - 1 {
        '!'
    } else {
        '$'
    }
}

/// Row `y` of the pretty RLE of `g`, without its line feed.
pub open spec fn row_text(g: Grid<CACell>, y: int) -> Seq<char> {
    Seq::new(g.size.spec_width() as nat, |x: int| rle_char(g.data@[y * g.size.spec_width() + x])) + seq![row_end(g, y)]
}

/// The rows of the pretty RLE of `g` from row `y` on, each with its line feed.
pub open spec fn rows_from(g: Grid<CACell>, y: int) -> Seq<char>
    decreases g.size.spec_height() - y,
{
    if y >= g.size.spec_height() || y < 0 {
        Seq::empty()
    } else {
        row_text(g, y) + seq!['\n'] + rows_from(g, y + 1)
    }
}

/// Where the characters of the rows stand.
proof fn lemma_rows_from_index(g: Grid<CACell>, y0: int)
    requires
        0 <= y0 <= g.size.spec_height(),
        0 <= g.size.spec_width(),
    ensures
        rows_from(g, y0).len() == (g.size.spec_height() - y0) * (g.size.spec_width() + 2),
        forall|y: int, j: int|
            y0 <= y < g.size.spec_height() && 0 <= j < g.size.spec_width() + 2 ==> #[trigger] rows_from(g, y0)[(y - y0) * (
            g.size.spec_width() + 2) + j] == (row_text(g, y) + seq!['\n'])[j],
    decreases g.size.spec_height() - y0,
{
    let w = g.size.spec_width();
    let h = g.size.spec_height();
    if y0 == h {
        assert((h - y0) * (w + 2) == 0) by (nonlinear_arith)
            requires
                y0 == h,
        ;
    }
    if y0 < h {
        lemma_rows_from_index(g, y0 + 1);
        let head = row_text(g, y0) + seq!['\n'];
        let tail = rows_from(g, y0 + 1);
        assert(rows_from(g, y0) == head + tail);
        assert(head.len() == w + 2);
        assert((h - y0) * (w + 2) == (w + 2) + (h - (y0 + 1)) * (w + 2)) by (nonlinear_arith);
        assert forall|y: int, j: int| y0 <= y < h && 0 <= j < w + 2 implies #[trigger] rows_from(g, y0)[(y - y0) * (w + 2) + j]
            == (row_text(g, y) + seq!['\n'])[j] by {
            if y == y0 {
                assert((y - y0) * (w + 2) + j == j) by (nonlinear_arith)
                    requires
                        y == y0,
                ;
            } else {
                let i = (y - (y0 + 1)) * (w + 2) + j;
                assert((y - y0) * (w + 2) + j == (w + 2) + i) by (nonlinear_arith)
                    requires
                        i == (y - (y0 + 1)) * (w + 2) + j,
                ;
                assert(0 <= (y - (y0 + 1)) * (w + 2)) by (nonlinear_arith)
                    requires
                        y > y0,
                        w >= 0,
                ;
                assert((y - (y0 + 1)) * (w + 2) + j < (h - (y0 + 1)) * (w + 2)) by (nonlinear_arith)
                    requires
                        y < h,
                        0 <= j < w + 2,
                        w >= 0,
                ;
                assert(tail[i] == (row_text(g, y) + seq!['\n'])[j]);
                assert((head + tail)[(w + 2) + i] == tail[i]);
            }
        }
    }
}

/// The body of a pretty RLE text is its rows.
proof fn lemma_body_rows(t: Seq<char>, g: Grid<CACell>, rule: Seq<char>)
    requires
        g.wf(),
        pretty_rle_text(t, g, rule),
    ensures
        t == rle_header(g.size.spec_width(), g.size.spec_height(), rule) + rows_from(g, 0),
{
    let hd = rle_header(g.size.spec_width(), g.size.spec_height(), rule);
    let body = t.skip(hd.len() as int);
    let r = g.size;
    let w = r.spec_width();
    let h = r.spec_height();
    lemma_rows_from_index(g, 0);
    let rows = rows_from(g, 0);
    assert(body.len() == rows.len());
    assert forall|k: int| 0 <= k < body.len() implies body[k] == rows[k] by {
        let y = k / (w + 2);
        let j = k % (w + 2);
        assert(0 <= y < h && 0 <= j < w + 2 && k == y * (w + 2) + j) by (nonlinear_arith)
            requires
                w >= 0,
                0 <= k < h * (w + 2),
                y == k / (w + 2),
                j == k % (w + 2),
        ;
        assert(rows[(y - 0) * (w + 2) + j] == (row_text(g, y) + seq!['\n'])[j]);
        if j < w {
            let p = Coord { x: (r.left + j) as i32, y: (r.top + y) as i32 };
            assert(r.contains(p));
            assert(grid_pos(r, p, 2) == k);
            assert(crate::basic_grids::cell_index(r, p) == y * w + j);
        } else if j == w {
            assert(row_tail_pos(r, r.top + y, 2, 0) == k);
        } else {
            assert(row_tail_pos(r, r.top + y, 2, 1) == k);
        }
    }
    assert(body =~= rows);
    assert(t =~= t.take(hd.len() as int) + body);
}

/// The header line of a pretty RLE text, without its line feed.
pub open spec fn header_line(w: int, h: int, rule: Seq<char>) -> Seq<char> {
    "x = "@ + int_text(w) + ", y = "@ + int_text(h) + ", rule = "@ + rule
}

/// A rule text that the header can hold and read back: no `,`, no line break.
pub open spec fn plain_rule(rule: Seq<char>) -> bool {
    forall|i: int| 0 <= i < rule.len() ==> rule[i] != ',' && rule[i] != '\n' && rule[i] != '\r'
}

/// The decimal digits of `n` read back as `n`.
proof fn lemma_decimal(n: nat)
    ensures
        decimal(n).len() >= 1,
        all_digits(decimal(n)),
        digits_value(decimal(n)) == n,
    decreases n,
{
    if n >= 10 {
        lemma_decimal(n / 10);
        let d = decimal(n);
        assert(d.drop_last() =~= decimal(n / 10));
        assert(is_digit(d.last()));
        assert(digit_value(d.last()) == n % 10);
        assert(10 * (n / 10) + n % 10 == n) by (nonlinear_arith);
        assert(digits_value(d) == 10 * digits_value(d.drop_last()) + digit_value(d.last()));
        assert forall|i: int| 0 <= i < d.len() implies is_digit(#[trigger] d[i]) by {
            if i < d.len() - 1 {
                assert(d[i] == decimal(n / 10)[i]);
            }
        }
    } else {
        let d = decimal(n);
        assert(is_digit(d[0]));
        assert(d.drop_last() =~= Seq::<char>::empty());
        assert(digit_value(d.last()) == n);
        assert(digits_value(d) == 10 * digits_value(d.drop_last()) + digit_value(d.last()));
    }
}

/// The header line, the line feed and the rows.
proof fn lemma_rle_header_line(w: int, h: int, rule: Seq<char>)
    ensures
        rle_header(w, h, rule) == header_line(w, h, rule) + seq!['\n'],
{
    assert(rle_header(w, h, rule) =~= header_line(w, h, rule) + seq!['\n']);
}

/// The rows split at their line feeds.
proof fn lemma_split_rows(g: Grid<CACell>, y: int)
    requires
        0 <= y <= g.size.spec_height(),
        0 <= g.size.spec_width(),
    ensures
        split(rows_from(g, y), '\n') == Seq::new((g.size.spec_height() - y) as nat, |i: int| row_text(g, y + i)) + seq![
            Seq::<char>::empty(),
        ],
    decreases g.size.spec_height() - y,
{
    let h = g.size.spec_height();
    if y == h {
        lemma_find_char_none(Seq::<char>::empty(), '\n');
        assert(split(Seq::<char>::empty(), '\n') == seq![Seq::<char>::empty()]);
        assert(Seq::new((h - y) as nat, |i: int| row_text(g, y + i)) =~= Seq::<Seq<char>>::empty());
        assert(Seq::<Seq<char>>::empty() + seq![Seq::<char>::empty()] =~= seq![Seq::<char>::empty()]);
    } else {
        lemma_split_rows(g, y + 1);
        let rt = row_text(g, y);
        assert forall|j: int| 0 <= j < rt.len() implies rt[j] != '\n' by {
            if j < g.size.spec_width() {
                assert(rt[j] == rle_char(g.data@[y * g.size.spec_width() + j]));
            }
        }
        lemma_split_single(rt, '\n');
        lemma_split_concat(rt, '\n', rows_from(g, y + 1));
        assert(split(rows_from(g, y), '\n') =~= Seq::new((h - y) as nat, |i: int| row_text(g, y + i)) + seq![
            Seq::<char>::empty(),
        ]);
    }
}

/// The lines of a pretty RLE text: its header line and its rows.
proof fn lemma_rle_lines(g: Grid<CACell>, rule: Seq<char>)
    requires
        g.wf(),
        plain_rule(rule),
    ensures
        lines(rle_header(g.size.spec_width(), g.size.spec_height(), rule) + rows_from(g, 0)) == seq![
            strip_cr(header_line(g.size.spec_width(), g.size.spec_height(), rule)),
        ] + Seq::new(g.size.spec_height() as nat, |i: int| row_text(g, i)),
{
    let w = g.size.spec_width();
    let h = g.size.spec_height();
    let hl = header_line(w, h, rule);
    lemma_rle_header_line(w, h, rule);
    reveal_strlit("x = ");
    reveal_strlit(", y = ");
    reveal_strlit(", rule = ");
    lemma_decimal(w as nat);
    lemma_decimal(h as nat);
    assert forall|j: int| 0 <= j < hl.len() implies hl[j] != '\n' by {
        let a = "x = "@;
        let b = int_text(w);
        let c = ", y = "@;
        let d = int_text(h);
        let e = ", rule = "@;
        if j < a.len() {
        } else if j < a.len() + b.len() {
            assert(is_digit(b[j - a.len()]));
        } else if j < a.len() + b.len() + c.len() {
        } else if j < a.len() + b.len() + c.len() + d.len() {
            assert(is_digit(d[j - a.len() - b.len() - c.len()]));
        } else if j < a.len() + b.len() + c.len() + d.len() + e.len() {
        } else {
            assert(hl[j] == rule[j - a.len() - b.len() - c.len() - d.len() - e.len()]);
        }
    }
    lemma_split_single(hl, '\n');
    lemma_split_concat(hl, '\n', rows_from(g, 0));
    lemma_split_rows(g, 0);
    let t = hl + seq!['\n'] + rows_from(g, 0);
    let parts = split(t, '\n');
    assert(parts =~= seq![hl] + Seq::new(h as nat, |i: int| row_text(g, 0 + i)) + seq![Seq::<char>::empty()]);
    assert(parts.last().len() == 0);
    assert forall|i: int| 0 <= i < h implies strip_cr(#[trigger] row_text(g, i)) == row_text(g, i) by {
        assert(row_text(g, i).last() == row_end(g, i));
    }
    assert(lines(t) =~= seq![strip_cr(hl)] + Seq::new(h as nat, |i: int| row_text(g, i)));
}

/// The data lines of the pretty RLE of `g` from row `y` on, joined: what reading them
/// gathers, up to the row that ends with `!`.
pub open spec fn rows_data(g: Grid<CACell>, y: int) -> Seq<char>
    decreases g.size.spec_height() - y,
{
    if y >= g.size.spec_height() - 1 || y < 0 {
        row_text(g, y)
    } else {
        row_text(g, y) + rows_data(g, y + 1)
    }
}

/// A row of the pretty RLE has no whitespace, and holds `!` only on the last row.
proof fn lemma_row_chars(g: Grid<CACell>, y: int)
    requires
        0 <= y < g.size.spec_height(),
        0 < g.size.spec_width(),
    ensures
        forall|j: int| 0 <= j < row_text(g, y).len() ==> !spec_is_whitespace(#[trigger] row_text(g, y)[j]),
        forall|j: int| 0 <= j < row_text(g, y).len() ==> #[trigger] row_text(g, y)[j] != '\n' && row_text(g, y)[j] != '#',
        has_char(row_text(g, y), '!') <==> y == g.size.spec_height() - 1,
        row_text(g, y)[0] != '#',
        trim(row_text(g, y)) == row_text(g, y),
{
    let rt = row_text(g, y);
    let w = g.size.spec_width();
    assert forall|j: int| 0 <= j < rt.len() implies !spec_is_whitespace(#[trigger] rt[j]) && rt[j] != '\n' && rt[j] != '#' && (
    rt[j] == '!' ==> j == w && y == g.size.spec_height() - 1) by {
        if j < w {
            assert(rt[j] == rle_char(g.data@[y * w + j]));
        }
    }
    if y == g.size.spec_height() - 1 {
        assert(rt[w] == '!');
    }
    lemma_trim_plain(rt);
}

/// Reading the rows from `y` on, with the size known, gathers their data.
proof fn lemma_gather_rows(g: Grid<CACell>, y: int, d: (int, int))
    requires
        0 <= y < g.size.spec_height(),
        0 < g.size.spec_width(),
    ensures
        gather(Seq::new((g.size.spec_height() - y) as nat, |i: int| row_text(g, y + i)), Some(d)) == Ok::<
            (Option<(int, int)>, Seq<char>),
            Seq<char>,
        >((Some(d), rows_data(g, y))),
    decreases g.size.spec_height() - y,
{
    let h = g.size.spec_height();
    let ls = Seq::new((h - y) as nat, |i: int| row_text(g, y + i));
    lemma_row_chars(g, y);
    assert(ls[0] == row_text(g, y));
    if y < h - 1 {
        lemma_gather_rows(g, y + 1, d);
        assert(ls.drop_first() =~= Seq::new((h - (y + 1)) as nat, |i: int| row_text(g, y + 1 + i)));
    }
}

/// `a` followed by `b` loses only `b`'s trailing whitespace when `a` ends in none.
proof fn lemma_trim_end_concat(a: Seq<char>, b: Seq<char>)
    requires
        a.len() > 0,
        !spec_is_whitespace(a.last()),
    ensures
        trim_end(a + b) == a + trim_end(b),
    decreases b.len(),
{
    if b.len() == 0 {
        assert(a + b =~= a);
        assert(a + trim_end(b) =~= a);
    } else if spec_is_whitespace(b.last()) {
        assert((a + b).drop_last() =~= a + b.drop_last());
        lemma_trim_end_concat(a, b.drop_last());
    } else {
        assert((a + b).last() == b.last());
    }
}

/// Trailing whitespace removed leaves a beginning of the text.
proof fn lemma_trim_end_prefix(b: Seq<char>)
    ensures
        trim_end(b).len() <= b.len(),
        forall|i: int| 0 <= i < trim_end(b).len() ==> #[trigger] trim_end(b)[i] == b[i],
    decreases b.len(),
{
    if b.len() > 0 && spec_is_whitespace(b.last()) {
        lemma_trim_end_prefix(b.drop_last());
    }
}

/// A space followed by decimal digits trims to the digits, which read back as `n`.
proof fn lemma_number_field(n: nat)
    requires
        n <= usize::MAX,
    ensures
        trim(seq![' '] + decimal(n)) == decimal(n),
        parse_int(decimal(n), false, 0, usize::MAX as int) == Some(n as int),
{
    lemma_decimal(n);
    let d = decimal(n);
    assert((seq![' '] + d).drop_first() =~= d);
    assert(trim_start(seq![' '] + d) == trim_start(d));
    assert(!spec_is_whitespace(d[0]) && !spec_is_whitespace(d.last())) by {
        assert(is_digit(d[0]));
        assert(is_digit(d[d.len() - 1]));
    }
    lemma_trim_plain(d);
    assert(d[0] != '+');
}

/// A word between single spaces trims to the word.
proof fn lemma_trim_spaced(word: Seq<char>, lead: bool)
    requires
        word.len() >= 1,
        !spec_is_whitespace(word[0]),
        !spec_is_whitespace(word.last()),
    ensures
        trim((if lead { seq![' '] } else { Seq::<char>::empty() }) + word + seq![' ']) == word,
{
    let pre = if lead { seq![' '] } else { Seq::<char>::empty() };
    let s = pre + word + seq![' '];
    let ws = word + seq![' '];
    assert(ws[0] == word[0]);
    assert(trim_start(ws) == ws);
    if lead {
        assert(s[0] == ' ');
        assert(spec_is_whitespace(' '));
        assert(s.drop_first() =~= ws);
    } else {
        assert(s =~= ws);
    }
    assert(trim_start(s) == ws);
    assert((word + seq![' ']).drop_last() =~= word);
    assert(trim_end(word + seq![' ']) == trim_end(word));
    lemma_trim_plain(word);
}

/// The header line of a pretty RLE text declares its size.
proof fn lemma_header_dims(w: nat, h: nat, rule: Seq<char>)
    requires
        w <= usize::MAX,
        h <= usize::MAX,
        plain_rule(rule),
    ensures
        strip_cr(header_line(w as int, h as int, rule)) == header_line(w as int, h as int, rule),
        trim(header_line(w as int, h as int, rule)).len() > 0,
        trim(header_line(w as int, h as int, rule))[0] == 'x',
        header_dims(trim(header_line(w as int, h as int, rule))) == Some((w as int, h as int)),
{
    reveal_strlit("x = ");
    reveal_strlit(", y = ");
    reveal_strlit(", rule = ");
    let ww = decimal(w);
    let hh = decimal(h);
    lemma_decimal(w);
    lemma_decimal(h);
    lemma_number_field(w);
    lemma_number_field(h);
    let hl = header_line(w as int, h as int, rule);
    let a = seq!['x', ' ', '=', ' '] + ww + seq![',', ' ', 'y', ' ', '=', ' '] + hh + seq![',', ' ', 'r', 'u', 'l', 'e', ' ', '='];
    let b = seq![' '] + rule;
    assert(int_text(w as int) == ww);
    assert(int_text(h as int) == hh);
    assert(hl =~= a + b);
    // No line feed ends the header line.
    if rule.len() > 0 {
        assert(hl.last() == rule.last());
    } else {
        assert(hl.last() == ' ');
    }
    // Leading: 'x'; trailing whitespace only leaves the rule's end.
    assert(trim_start(hl) == hl);
    lemma_trim_end_concat(a, b);
    let tb = trim_end(b);
    lemma_trim_end_prefix(b);
    let line = a + tb;
    assert(trim(hl) == line);
    assert(line[0] == 'x');
    let f0 = seq!['x', ' ', '=', ' '] + ww;
    let f1 = seq![' ', 'y', ' ', '=', ' '] + hh;
    let f2 = seq![' ', 'r', 'u', 'l', 'e', ' ', '='] + tb;
    assert(line =~= f0 + seq![','] + (f1 + seq![','] + f2));
    assert forall|j: int| 0 <= j < f0.len() implies f0[j] != ',' by {
        if j >= 4 {
            assert(is_digit(ww[j - 4]));
        }
    }
    assert forall|j: int| 0 <= j < f1.len() implies f1[j] != ',' by {
        if j >= 5 {
            assert(is_digit(hh[j - 5]));
        }
    }
    assert forall|j: int| 0 <= j < f2.len() implies f2[j] != ',' by {
        if j >= 7 {
            assert(tb[j - 7] == b[j - 7]);
            if j - 7 >= 1 {
                assert(b[j - 7] == rule[j - 8]);
            }
        }
    }
    lemma_split_concat(f1, ',', f2);
    lemma_split_concat(f0, ',', f1 + seq![','] + f2);
    lemma_split_single(f0, ',');
    lemma_split_single(f1, ',');
    lemma_split_single(f2, ',');
    let fs = split(line, ',');
    assert(fs =~= seq![f0, f1, f2]);
    // The third field's key is `rule`.
    lemma_find_char_at(f2, '=', 6);
    assert(f2.take(6) =~= seq![' '] + seq!['r', 'u', 'l', 'e'] + seq![' ']);
    lemma_trim_spaced(seq!['r', 'u', 'l', 'e'], true);
    assert(field_key(f2) == seq!['r', 'u', 'l', 'e']);
    assert(field_key(f2) != seq!['x'] && field_key(f2) != seq!['y']);
    // The second field sets the height.
    lemma_find_char_at(f1, '=', 3);
    assert(f1.take(3) =~= seq![' '] + seq!['y'] + seq![' ']);
    lemma_trim_spaced(seq!['y'], true);
    assert(field_key(f1) == seq!['y']);
    assert(f1.skip(4) =~= seq![' '] + hh);
    assert(field_value(f1) == hh);
    // The first field sets the width.
    lemma_find_char_at(f0, '=', 2);
    assert(f0.take(2) =~= Seq::<char>::empty() + seq!['x'] + seq![' ']);
    lemma_trim_spaced(seq!['x'], false);
    assert(field_key(f0) == seq!['x']);
    assert(f0.skip(3) =~= seq![' '] + ww);
    assert(field_value(f0) == ww);
    assert(fs.drop_last() =~= seq![f0, f1]);
    assert(fs.drop_last().drop_last() =~= seq![f0]);
    assert(fs.drop_last().drop_last().drop_last() =~= Seq::<Seq<char>>::empty());
    assert(seq![f0].drop_last() =~= Seq::<Seq<char>>::empty());
    assert(seq![f0].last() == f0);
    assert(header_fields(Seq::<Seq<char>>::empty()) == (None::<int>, None::<int>));
    assert(header_fields(seq![f0]) == (Some(w as int), None::<int>));
    assert(seq![f0, f1].drop_last() =~= seq![f0]);
    assert(seq![f0, f1].last() == f1);
    assert(header_fields(seq![f0, f1]) == (Some(w as int), Some(h as int)));
    assert(header_fields(fs) == (Some(w as int), Some(h as int)));
}

/// Where the characters of the gathered data stand.
proof fn lemma_rows_data_index(g: Grid<CACell>, y0: int)
    requires
        0 <= y0 < g.size.spec_height(),
        0 <= g.size.spec_width(),
    ensures
        rows_data(g, y0).len() == (g.size.spec_height() - y0) * (g.size.spec_width() + 1),
        forall|y: int, j: int|
            y0 <= y < g.size.spec_height() && 0 <= j < g.size.spec_width() + 1 ==> #[trigger] rows_data(g, y0)[(y - y0) * (
            g.size.spec_width() + 1) + j] == row_text(g, y)[j],
    decreases g.size.spec_height() - y0,
{
    let w = g.size.spec_width();
    let h = g.size.spec_height();
    let head = row_text(g, y0);
    assert(head.len() == w + 1);
    if y0 == h - 1 {
        assert((h - y0) * (w + 1) == w + 1) by (nonlinear_arith)
            requires
                y0 == h - 1,
        ;
        assert forall|y: int, j: int| y0 <= y < h && 0 <= j < w + 1 implies #[trigger] rows_data(g, y0)[(y - y0) * (w + 1) + j]
            == row_text(g, y)[j] by {
            assert((y - y0) * (w + 1) + j == j) by (nonlinear_arith)
                requires
                    y == y0,
            ;
        }
    } else {
        lemma_rows_data_index(g, y0 + 1);
        let tail = rows_data(g, y0 + 1);
        assert(rows_data(g, y0) == head + tail);
        assert((h - y0) * (w + 1) == (w + 1) + (h - (y0 + 1)) * (w + 1)) by (nonlinear_arith);
        assert forall|y: int, j: int| y0 <= y < h && 0 <= j < w + 1 implies #[trigger] rows_data(g, y0)[(y - y0) * (w + 1) + j]
            == row_text(g, y)[j] by {
            if y == y0 {
                assert((y - y0) * (w + 1) + j == j) by (nonlinear_arith)
                    requires
                        y == y0,
                ;
            } else {
                let i = (y - (y0 + 1)) * (w + 1) + j;
                assert((y - y0) * (w + 1) + j == (w + 1) + i) by (nonlinear_arith)
                    requires
                        i == (y - (y0 + 1)) * (w + 1) + j,
                ;
                assert(0 <= (y - (y0 + 1)) * (w + 1)) by (nonlinear_arith)
                    requires
                        y > y0,
                        w >= 0,
                ;
                assert((y - (y0 + 1)) * (w + 1) + j < (h - (y0 + 1)) * (w + 1)) by (nonlinear_arith)
                    requires
                        y < h,
                        0 <= j < w + 1,
                        w >= 0,
                ;
                assert(tail[i] == row_text(g, y)[j]);
                assert((head + tail)[(w + 1) + i] == tail[i]);
            }
        }
    }
}

/// The first `c` cells written, the rest still `.`.
pub open spec fn partial_cells(g: Grid<CACell>, c: int) -> Seq<char> {
    Seq::new((g.size.spec_width() * g.size.spec_height()) as nat, |k: int| if k < c { rle_char(g.data@[k]) } else { '.' })
}

/// Decoding the data up to column `x` of row `y` has written the cells before it.
proof fn lemma_decode_rows(g: Grid<CACell>, y: int, x: int)
    requires
        g.wf(),
        0 <= y < g.size.spec_height(),
        0 <= x <= g.size.spec_width(),
        0 < g.size.spec_width(),
    ensures
        decode_state(rows_data(g, 0).take(y * (g.size.spec_width() + 1) + x), g.size.spec_width(), g.size.spec_height())
            == Ok::<(int, int, int, Seq<char>), (int, int)>((x, y, 0, partial_cells(g, y * g.size.spec_width() + x))),
    decreases y, x,
{
    let w = g.size.spec_width();
    let h = g.size.spec_height();
    let data = rows_data(g, 0);
    lemma_rows_data_index(g, 0);
    let n = y * (w + 1) + x;
    assert(0 <= n <= h * (w + 1)) by (nonlinear_arith)
        requires
            0 <= y < h,
            0 <= x <= w,
            n == y * (w + 1) + x,
    ;
    assert(w * h == h * w) by (nonlinear_arith);
    if y == 0 && x == 0 {
        assert(n == 0) by (nonlinear_arith)
            requires
                n == y * (w + 1) + x,
                y == 0,
                x == 0,
        ;
        assert(y * w + x == 0) by (nonlinear_arith)
            requires
                y == 0,
                x == 0,
        ;
        assert(data.take(0) =~= Seq::<char>::empty());
        assert(partial_cells(g, 0) =~= Seq::new((w * h) as nat, |k: int| '.'));
    } else if x > 0 {
        lemma_decode_rows(g, y, x - 1);
        assert(y * w + x <= w * h) by (nonlinear_arith)
            requires
                0 <= y < h,
                0 <= x <= w,
        ;
        assert(g.data@.len() == w * h);
        assert(data.take(n).drop_last() =~= data.take(n - 1));
        assert(data[(y - 0) * (w + 1) + (x - 1)] == row_text(g, y)[x - 1]);
        let c = rle_char(g.data@[y * w + x - 1]);
        assert(data.take(n).last() == c);
        assert(c == 'o' || c == 'b');
        assert(!is_digit(c) && !spec_is_whitespace(c));
        assert(run_len(0) == 1);
        assert(y * w + x <= w * h) by (nonlinear_arith)
            requires
                0 <= y < h,
                0 <= x <= w,
        ;
        let before = partial_cells(g, y * w + x - 1);
        assert(crate::rle::fill(before, y * w + x - 1, 1, c) =~= partial_cells(g, y * w + x));
        assert(y < h && x - 1 < w && x - 1 + 1 <= w);
        assert(decode_step((x - 1, y, 0, before), c, w, h) == Ok::<(int, int, int, Seq<char>), (int, int)>(
            (x, y, 0, crate::rle::fill(before, y * w + x - 1, 1, c)),
        ));
        assert(decode_state(data.take(n), w, h) == decode_step((x - 1, y, 0, before), c, w, h));
        assert(decode_state(data.take(n), w, h) == Ok::<(int, int, int, Seq<char>), (int, int)>(
            (x, y, 0, partial_cells(g, y * w + x)),
        ));
    } else {
        lemma_decode_rows(g, y - 1, w);
        assert(n == (y - 1) * (w + 1) + w + 1) by (nonlinear_arith)
            requires
                n == y * (w + 1) + x,
                x == 0,
        ;
        assert((y - 1) * w + w == y * w) by (nonlinear_arith);
        assert(data.take(n).drop_last() =~= data.take(n - 1));
        assert(data[(y - 1 - 0) * (w + 1) + w] == row_text(g, y - 1)[w]);
        assert(data.take(n).last() == '$');
        assert(!is_digit('$'));
        assert(run_len(0) == 1);
        let before = partial_cells(g, (y - 1) * w + w);
        assert(decode_step((w, y - 1, 0, before), '$', w, h) == Ok::<(int, int, int, Seq<char>), (int, int)>(
            (0, y, 0, before),
        ));
        assert(decode_state(data.take(n), w, h) == decode_step((w, y - 1, 0, before), '$', w, h));
        assert(decode_state(data.take(n), w, h) == Ok::<(int, int, int, Seq<char>), (int, int)>(
            (x, y, 0, partial_cells(g, y * w + x)),
        ));
    }
}

/// What `to_pretty_rle` writes reads back, with `parse_generic_rle`'s reading, as the
/// grid's size and cells: `o` for alive, `b` for dead, row by row; and it stays within
/// the reader's limits, so `parse_generic_rle` takes it. The rule text must hold no `,`
/// and no line break, and the grid at least one cell and at most `i32::MAX`.
pub proof fn law_pretty_rle_reads_back(t: Seq<char>, g: Grid<CACell>, rule: Seq<char>)
    requires
        g.wf(),
        0 < g.size.spec_width(),
        0 < g.size.spec_height(),
        g.size.spec_width() * g.size.spec_height() <= i32::MAX,
        plain_rule(rule),
        pretty_rle_text(t, g, rule),
    ensures
        rle_within_limits(t),
        rle_parse(t) == Ok::<(int, int, Seq<char>), Seq<char>>(
            (
                g.size.spec_width(),
                g.size.spec_height(),
                Seq::new((g.size.spec_width() * g.size.spec_height()) as nat, |k: int| rle_char(g.data@[k])),
            ),
        ),
{
    let w = g.size.spec_width();
    let h = g.size.spec_height();
    lemma_body_rows(t, g, rule);
    lemma_rle_lines(g, rule);
    lemma_header_dims(w as nat, h as nat, rule);
    let hl = header_line(w, h, rule);
    let ls = lines(t);
    let rows = Seq::new(h as nat, |i: int| row_text(g, i));
    assert(ls == seq![hl] + rows);
    assert(ls[0] == hl);
    assert(ls.drop_first() =~= rows);
    lemma_gather_rows(g, 0, (w, h));
    assert(rows =~= Seq::new((h - 0) as nat, |i: int| row_text(g, 0 + i)));
    assert(gather(ls, None) == Ok::<(Option<(int, int)>, Seq<char>), Seq<char>>((Some((w, h)), rows_data(g, 0))));
    let data = rows_data(g, 0);
    lemma_rows_data_index(g, 0);
    let last = h * (w + 1) - 1;
    assert(last == (h - 1) * (w + 1) + w) by (nonlinear_arith)
        requires
            last == h * (w + 1) - 1,
    ;
    assert(data[(h - 1 - 0) * (w + 1) + w] == row_text(g, h - 1)[w]);
    assert forall|k: int| 0 <= k < last implies data[k] != '!' by {
        let y = k / (w + 1);
        let j = k % (w + 1);
        assert(0 <= y < h && 0 <= j < w + 1 && k == y * (w + 1) + j) by (nonlinear_arith)
            requires
                w >= 0,
                0 <= k < h * (w + 1) - 1,
                y == k / (w + 1),
                j == k % (w + 1),
        ;
        assert(data[(y - 0) * (w + 1) + j] == row_text(g, y)[j]);
        lemma_row_chars(g, y);
        if j == w && y == h - 1 {
            assert(k == last);
        }
        if row_text(g, y)[j] == '!' {
            assert(has_char(row_text(g, y), '!'));
        }
        if j < w {
            assert(row_text(g, y)[j] == rle_char(g.data@[y * w + j]));
        }
    }
    lemma_find_char_at(data, '!', last);
    assert(scan_end(data) == last);
    let d = data.take(last);
    assert(h <= i32::MAX) by (nonlinear_arith)
        requires
            w >= 1,
            h >= 1,
            w * h <= i32::MAX,
    ;
    assert forall|n: int| 0 <= n <= d.len() implies (#[trigger] decode_state(d.take(n), w, h) matches Ok(st) ==> st.1
        <= i32::MAX && st.2 <= i32::MAX) by {
        let y = n / (w + 1);
        let x = n % (w + 1);
        assert(0 <= y < h && 0 <= x <= w && n == y * (w + 1) + x) by (nonlinear_arith)
            requires
                w >= 1,
                0 <= n <= last,
                last == h * (w + 1) - 1,
                y == n / (w + 1),
                x == n % (w + 1),
        ;
        assert(d.take(n) =~= data.take(n));
        lemma_decode_rows(g, y, x);
    }
    assert(decode_fits(d, w, h));
    lemma_decode_rows(g, h - 1, w);
    assert((h - 1) * w + w == w * h) by (nonlinear_arith);
    assert(partial_cells(g, w * h) =~= Seq::new((w * h) as nat, |k: int| rle_char(g.data@[k])));
}

} // verus!
