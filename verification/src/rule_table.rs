//! The generated table of an outer-totalistic rule reads back as that rule.
use vstd::prelude::*;
use crate::ca::{
    bit_char, cfg_line_text, cfg_text, has_entry, last_score, life_cell, life_next, lut_index, nb,
    neighbour_count, other_cell, reversed_window,
    parse_cfg_line, parse_cfg_lines, parse_cfg_text, states_gen0, states_of, CACell, CfgEntry, CfgError,
};
use crate::text::{
    all_digits, digit_value, digits_value, find_char, lemma_find_char, lines, parse_int,
    spec_is_whitespace, split, strip_cr, trim, trim_end, trim_start,
};

verus! {

pub(crate) proof fn lemma_find_char_at(s: Seq<char>, c: char, i: int)
    requires
        0 <= i < s.len(),
        s[i] == c,
        forall|j: int| 0 <= j < i ==> s[j] != c,
    ensures
        find_char(s, c) == i,
{
    lemma_find_char(s, c);
}

pub(crate) proof fn lemma_find_char_none(s: Seq<char>, c: char)
    requires
        forall|j: int| 0 <= j < s.len() ==> s[j] != c,
    ensures
        find_char(s, c) == -1,
{
    lemma_find_char(s, c);
}

/// A piece without the separator splits into itself.
pub proof fn lemma_split_single(s: Seq<char>, sep: char)
    requires
        forall|j: int| 0 <= j < s.len() ==> s[j] != sep,
    ensures
        split(s, sep) == seq![s],
{
    lemma_find_char_none(s, sep);
}

/// Splitting `p + sep + q` splits `p` and `q` separately.
pub proof fn lemma_split_concat(p: Seq<char>, sep: char, q: Seq<char>)
    ensures
        split(p + seq![sep] + q, sep) == split(p, sep) + split(q, sep),
    decreases p.len(),
{
    let whole = p + seq![sep] + q;
    lemma_find_char(p, sep);
    let f = find_char(p, sep);
    if f >= 0 {
        lemma_find_char_at(whole, sep, f);
        assert(whole.take(f) =~= p.take(f));
        assert(whole.skip(f + 1) =~= p.skip(f + 1) + seq![sep] + q);
        lemma_split_concat(p.skip(f + 1), sep, q);
        assert(split(whole, sep) =~= seq![p.take(f)] + split(whole.skip(f + 1), sep));
        assert(split(p, sep) == seq![p.take(f)] + split(p.skip(f + 1), sep));
        assert(split(whole, sep) =~= split(p, sep) + split(q, sep));
    } else {
        lemma_find_char_at(whole, sep, p.len() as int);
        assert(whole.take(p.len() as int) =~= p);
        assert(whole.skip(p.len() as int + 1) =~= q);
        assert(split(p, sep) == seq![p]);
        assert(split(whole, sep) =~= split(p, sep) + split(q, sep));
    }
}

/// The table line for `g` without its newline.
pub open spec fn line_body(g: u32, born: Set<int>, surv: Set<int>) -> Seq<char> {
    cfg_line_text(g, born, surv).drop_last()
}

/// The transition that the table line for `g` states: its states, read in the table's
/// field order, pack into the window `reversed_window(g)`.
pub open spec fn rule_entry(g: u32, born: Set<int>, surv: Set<int>) -> CfgEntry {
    CfgEntry {
        gen0: reversed_window(g),
        gen1: if life_next(g, born, surv) == 1 {
            CACell::ALIVE
        } else {
            CACell::DEAD
        },
        score: nb(g, 4) as i32,
    }
}

proof fn lemma_bit_char(b: u32)
    ensures
        bit_char(b) == '0' || bit_char(b) == '1',
        !spec_is_whitespace(bit_char(b)),
{
}

proof fn lemma_body_shape(g: u32, born: Set<int>, surv: Set<int>)
    ensures
        cfg_line_text(g, born, surv) == line_body(g, born, surv) + seq!['\n'],
        line_body(g, born, surv).len() == 21,
        forall|j: int| 0 <= j < 21 ==> line_body(g, born, surv)[j] != '\n',
        line_body(g, born, surv)[0] == bit_char(nb(g, 4)),
        line_body(g, born, surv)[20] == bit_char(nb(g, 4)),
{
    let t = cfg_line_text(g, born, surv);
    assert(t =~= t.drop_last() + seq!['\n']);
    lemma_bit_char(nb(g, 4));
    lemma_bit_char(nb(g, 7));
    lemma_bit_char(nb(g, 6));
    lemma_bit_char(nb(g, 3));
    lemma_bit_char(nb(g, 0));
    lemma_bit_char(nb(g, 1));
    lemma_bit_char(nb(g, 2));
    lemma_bit_char(nb(g, 5));
    lemma_bit_char(nb(g, 8));
    lemma_bit_char(life_next(g, born, surv));
}

pub open spec fn bodies(n: int, born: Set<int>, surv: Set<int>) -> Seq<Seq<char>> {
    Seq::new(n as nat, |k: int| line_body(k as u32, born, surv))
}

proof fn lemma_split_text_prefix(n: int, born: Set<int>, surv: Set<int>)
    requires
        0 <= n < 512,
    ensures
        split(cfg_text(n, born, surv) + line_body(n as u32, born, surv), '\n') == bodies(n + 1, born, surv),
    decreases n,
{
    lemma_body_shape(n as u32, born, surv);
    lemma_split_single(line_body(n as u32, born, surv), '\n');
    if n == 0 {
        assert(cfg_text(0, born, surv) + line_body(0, born, surv) =~= line_body(0, born, surv));
        assert(bodies(1, born, surv) =~= seq![line_body(0, born, surv)]);
    } else {
        lemma_split_text_prefix(n - 1, born, surv);
        lemma_body_shape((n - 1) as u32, born, surv);
        let u = cfg_text(n - 1, born, surv) + line_body((n - 1) as u32, born, surv);
        assert(cfg_text(n, born, surv) + line_body(n as u32, born, surv) =~= u + seq!['\n'] + line_body(n as u32, born, surv));
        lemma_split_concat(u, '\n', line_body(n as u32, born, surv));
        assert(bodies(n + 1, born, surv) =~= bodies(n, born, surv) + seq![line_body(n as u32, born, surv)]);
    }
}

/// The lines of the generated table are the 512 line bodies.
pub proof fn lemma_cfg_lines(born: Set<int>, surv: Set<int>)
    ensures
        lines(cfg_text(512, born, surv)) == bodies(512, born, surv),
{
    lemma_split_text_prefix(511, born, surv);
    let u = cfg_text(511, born, surv) + line_body(511, born, surv);
    lemma_body_shape(511, born, surv);
    assert(cfg_text(512, born, surv) =~= u + seq!['\n'] + Seq::<char>::empty());
    lemma_split_concat(u, '\n', Seq::<char>::empty());
    lemma_split_single(Seq::<char>::empty(), '\n');
    let parts = split(cfg_text(512, born, surv), '\n');
    assert(parts =~= bodies(512, born, surv) + seq![Seq::<char>::empty()]);
    assert forall|k: int| 0 <= k < 512 implies strip_cr(#[trigger] parts[k]) == parts[k] by {
        lemma_body_shape(k as u32, born, surv);
        lemma_bit_char(nb(k as u32, 4));
    }
    assert(lines(cfg_text(512, born, surv)) =~= bodies(512, born, surv));
}

/// Joins characters with commas.
pub open spec fn comma_join(ds: Seq<char>) -> Seq<char>
    decreases ds.len(),
{
    if ds.len() <= 1 {
        ds
    } else {
        seq![ds[0], ','] + comma_join(ds.drop_first())
    }
}

proof fn lemma_split_comma_join(ds: Seq<char>)
    requires
        ds.len() >= 1,
        forall|j: int| 0 <= j < ds.len() ==> ds[j] != ',',
    ensures
        split(comma_join(ds), ',') == Seq::new(ds.len(), |k: int| seq![ds[k]]),
    decreases ds.len(),
{
    if ds.len() == 1 {
        lemma_split_single(ds, ',');
        assert(ds =~= seq![ds[0]]);
        assert(Seq::new(ds.len(), |k: int| seq![ds[k]]) =~= seq![ds]);
    } else {
        lemma_split_comma_join(ds.drop_first());
        assert(comma_join(ds) =~= seq![ds[0]] + seq![','] + comma_join(ds.drop_first()));
        lemma_split_concat(seq![ds[0]], ',', comma_join(ds.drop_first()));
        lemma_split_single(seq![ds[0]], ',');
        assert(split(comma_join(ds), ',') =~= Seq::new(ds.len(), |k: int| seq![ds[k]]));
    }
}

pub(crate) proof fn lemma_trim_plain(s: Seq<char>)
    requires
        s.len() >= 1,
        !spec_is_whitespace(s[0]),
        !spec_is_whitespace(s.last()),
    ensures
        trim(s) == s,
{
}

proof fn lemma_parse_bit(d: char, signed: bool, min: int, max: int)
    requires
        d == '0' || d == '1',
        min <= 0,
        1 <= max,
    ensures
        parse_int(trim(seq![d]), signed, min, max) == Some(digit_value(d)),
{
    lemma_trim_plain(seq![d]);
    let sd = seq![d];
    assert(sd.drop_last() =~= Seq::<char>::empty());
    assert(sd.last() == d);
    assert(digits_value(Seq::<char>::empty()) == 0);
    assert(all_digits(sd));
    assert(digits_value(sd) == 10 * digits_value(sd.drop_last()) + digit_value(sd.last()));
    assert(digits_value(sd) == digit_value(d));
}

proof fn lemma_bit_char_value(b: u32)
    requires
        b == 0 || b == 1,
    ensures
        digit_value(bit_char(b)) == b,
{
}

proof fn lemma_nb01(g: u32, k: u32)
    requires
        k < 32,
    ensures
        nb(g, k) == 0 || nb(g, k) == 1,
{
    assert(((g >> k) & 1u32) == 0u32 || ((g >> k) & 1u32) == 1u32) by (bit_vector);
}

/// The ten states of the table line for `g`.
pub open spec fn line_digits(g: u32, born: Set<int>, surv: Set<int>) -> Seq<char> {
    seq![
        bit_char(nb(g, 4)), bit_char(nb(g, 7)), bit_char(nb(g, 6)), bit_char(nb(g, 3)),
        bit_char(nb(g, 0)), bit_char(nb(g, 1)), bit_char(nb(g, 2)), bit_char(nb(g, 5)),
        bit_char(nb(g, 8)), bit_char(life_next(g, born, surv))
    ]
}

proof fn lemma_line_digits(g: u32, born: Set<int>, surv: Set<int>)
    ensures
        forall|j: int| 0 <= j < 10 ==> #[trigger] line_digits(g, born, surv)[j] == '0' || line_digits(g, born, surv)[j] == '1',
        line_digits(g, born, surv).len() == 10,
{
    lemma_bit_char(nb(g, 4));
    lemma_bit_char(nb(g, 7));
    lemma_bit_char(nb(g, 6));
    lemma_bit_char(nb(g, 3));
    lemma_bit_char(nb(g, 0));
    lemma_bit_char(nb(g, 1));
    lemma_bit_char(nb(g, 2));
    lemma_bit_char(nb(g, 5));
    lemma_bit_char(nb(g, 8));
    lemma_bit_char(life_next(g, born, surv));
}

proof fn lemma_comma_join_step(ds: Seq<char>)
    requires
        ds.len() >= 2,
    ensures
        comma_join(ds) == seq![ds[0], ','] + comma_join(ds.drop_first()),
{
}

proof fn lemma_comma_join10(ds: Seq<char>)
    requires
        ds.len() == 10,
    ensures
        comma_join(ds) == seq![
            ds[0], ',', ds[1], ',', ds[2], ',', ds[3], ',', ds[4], ',', ds[5], ',', ds[6], ',',
            ds[7], ',', ds[8], ',', ds[9]
        ],
{
    let mut k: int = 0;
    let d1 = ds.drop_first();
    let d2 = d1.drop_first();
    let d3 = d2.drop_first();
    let d4 = d3.drop_first();
    let d5 = d4.drop_first();
    let d6 = d5.drop_first();
    let d7 = d6.drop_first();
    let d8 = d7.drop_first();
    let d9 = d8.drop_first();
    lemma_comma_join_step(ds);
    lemma_comma_join_step(d1);
    lemma_comma_join_step(d2);
    lemma_comma_join_step(d3);
    lemma_comma_join_step(d4);
    lemma_comma_join_step(d5);
    lemma_comma_join_step(d6);
    lemma_comma_join_step(d7);
    lemma_comma_join_step(d8);
    assert(comma_join(d9) == d9);
    assert(d9 =~= seq![ds[9]]);
    assert(comma_join(ds) =~= seq![
        ds[0], ',', ds[1], ',', ds[2], ',', ds[3], ',', ds[4], ',', ds[5], ',', ds[6], ',',
        ds[7], ',', ds[8], ',', ds[9]
    ]);
}

#[verifier::rlimit(40)]
proof fn lemma_line_parts(g: u32, born: Set<int>, surv: Set<int>)
    ensures
        trim(line_body(g, born, surv)) == line_body(g, born, surv),
        line_body(g, born, surv).len() != 0,
        split(line_body(g, born, surv), '=') == seq![comma_join(line_digits(g, born, surv)), seq![bit_char(nb(g, 4))]],
{
    let body = line_body(g, born, surv);
    lemma_body_shape(g, born, surv);
    lemma_bit_char(nb(g, 4));
    lemma_trim_plain(body);
    lemma_line_digits(g, born, surv);
    let ds = line_digits(g, born, surv);
    lemma_comma_join10(ds);
    let st_text = comma_join(ds);
    assert(body =~= st_text + seq!['='] + seq![bit_char(nb(g, 4))]);
    assert forall|j: int| 0 <= j < st_text.len() implies st_text[j] != '=' by {}
    lemma_split_concat(st_text, '=', seq![bit_char(nb(g, 4))]);
    lemma_split_single(st_text, '=');
    lemma_split_single(seq![bit_char(nb(g, 4))], '=');
    assert(split(body, '=') =~= seq![st_text, seq![bit_char(nb(g, 4))]]);
}

proof fn lemma_line_states(g: u32, born: Set<int>, surv: Set<int>)
    ensures
        ({
            let sts = split(comma_join(line_digits(g, born, surv)), ',');
            &&& sts.len() == 10
            &&& forall|k: int| 0 <= k < 10 ==> parse_int(trim(#[trigger] sts[k]), false, 0, 255) == Some(
                digit_value(line_digits(g, born, surv)[k]))
        }),
{
    let ds = line_digits(g, born, surv);
    lemma_line_digits(g, born, surv);
    lemma_split_comma_join(ds);
    let sts = split(comma_join(ds), ',');
    assert forall|k: int| 0 <= k < 10 implies parse_int(trim(#[trigger] sts[k]), false, 0, 255) == Some(
        digit_value(ds[k]),
    ) by {
        assert(sts[k] == seq![ds[k]]);
        lemma_parse_bit(ds[k], false, 0, 255);
    }
}

/// Reversing the window's bits is an involution that keeps the centre and swaps
/// opposite neighbours.
pub proof fn lemma_reversed_window(g: u32)
    requires
        g < 512,
    ensures
        reversed_window(g) < 512,
        reversed_window(reversed_window(g)) == g,
        nb(reversed_window(g), 4) == nb(g, 4),
        neighbour_count(reversed_window(g)) == neighbour_count(g),
{
    let r = reversed_window(g);
    assert(r < 512 && reversed_window(r) == g && nb(r, 4) == nb(g, 4)) by (bit_vector)
        requires
            g < 512,
            r == reversed_window(g),
    ;
    assert(nb(r, 0) == nb(g, 8) && nb(r, 1) == nb(g, 7) && nb(r, 2) == nb(g, 6) && nb(r, 3) == nb(g, 5)
        && nb(r, 5) == nb(g, 3) && nb(r, 6) == nb(g, 2) && nb(r, 7) == nb(g, 1) && nb(r, 8) == nb(g, 0))
        by (bit_vector)
        requires
            g < 512,
            r == reversed_window(g),
    ;
}

/// Each generated line reads back as its transition.
pub proof fn lemma_parse_rule_line(g: u32, born: Set<int>, surv: Set<int>, line_no: int)
    requires
        g < 512,
    ensures
        parse_cfg_line(line_body(g, born, surv), line_no) == Ok::<Option<CfgEntry>, CfgError>(Some(rule_entry(g, born, surv))),
{
    lemma_line_parts(g, born, surv);
    lemma_line_states(g, born, surv);
    lemma_line_digits(g, born, surv);
    let ds = line_digits(g, born, surv);
    let sts = split(comma_join(ds), ',');
    let ln = life_next(g, born, surv);
    lemma_parse_bit(bit_char(nb(g, 4)), true, i32::MIN as int, i32::MAX as int);
    lemma_nb01(g, 4);
    lemma_nb01(g, 7);
    lemma_nb01(g, 6);
    lemma_nb01(g, 3);
    lemma_nb01(g, 0);
    lemma_nb01(g, 1);
    lemma_nb01(g, 2);
    lemma_nb01(g, 5);
    lemma_nb01(g, 8);
    lemma_bit_char_value(nb(g, 4));
    lemma_bit_char_value(nb(g, 7));
    lemma_bit_char_value(nb(g, 6));
    lemma_bit_char_value(nb(g, 3));
    lemma_bit_char_value(nb(g, 0));
    lemma_bit_char_value(nb(g, 1));
    lemma_bit_char_value(nb(g, 2));
    lemma_bit_char_value(nb(g, 5));
    lemma_bit_char_value(nb(g, 8));
    lemma_bit_char_value(ln);
    let st = states_of(sts);
    assert(!(exists|k: int| 0 <= k < sts.len() && #[trigger] parse_int(trim(sts[k]), false, 0, 255) is None));
    assert(st[0] == nb(g, 4));
    assert(st[1] == nb(g, 7));
    assert(st[2] == nb(g, 6));
    assert(st[3] == nb(g, 3));
    assert(st[4] == nb(g, 0));
    assert(st[5] == nb(g, 1));
    assert(st[6] == nb(g, 2));
    assert(st[7] == nb(g, 5));
    assert(st[8] == nb(g, 8));
    assert(st[9] == ln);
    assert(states_gen0(st) == reversed_window(g));
}

/// The transitions of the first `n` generated lines.
pub open spec fn rule_entries(n: int, born: Set<int>, surv: Set<int>) -> Seq<CfgEntry> {
    Seq::new(n as nat, |k: int| rule_entry(k as u32, born, surv))
}

proof fn lemma_parse_rule_lines(n: int, born: Set<int>, surv: Set<int>)
    requires
        0 <= n <= 512,
    ensures
        parse_cfg_lines(bodies(512, born, surv), n) == Ok::<Seq<CfgEntry>, CfgError>(rule_entries(n, born, surv)),
    decreases n,
{
    if n > 0 {
        lemma_parse_rule_lines(n - 1, born, surv);
        lemma_parse_rule_line((n - 1) as u32, born, surv, n);
        assert(rule_entries(n, born, surv) =~= rule_entries(n - 1, born, surv).push(rule_entry((n - 1) as u32, born, surv)));
    } else {
        assert(rule_entries(0, born, surv) =~= Seq::<CfgEntry>::empty());
    }
}

/// The generated table parses without error into one transition per neighbourhood.
pub proof fn lemma_rule_table_parses(born: Set<int>, surv: Set<int>)
    ensures
        parse_cfg_text(cfg_text(512, born, surv)) == Ok::<Seq<CfgEntry>, CfgError>(rule_entries(512, born, surv)),
{
    lemma_cfg_lines(born, surv);
    lemma_parse_rule_lines(512, born, surv);
}

proof fn lemma_low_bits(g: u32)
    requires
        g < 512,
    ensures
        g & 0x1ffu32 == g,
{
    assert(g & 0x1ffu32 == g) by (bit_vector)
        requires
            g < 512,
    ;
}

/// In the generated transitions, `g` turns into exactly its successor state, at a cost of
/// its centre's state; the other transition costs nothing.
pub proof fn lemma_rule_entries(g: u32, c: CACell, born: Set<int>, surv: Set<int>)
    requires
        g < 512,
    ensures
        has_entry(rule_entries(512, born, surv), g, c) <==> c == life_cell(g, born, surv),
        last_score(rule_entries(512, born, surv), g, life_cell(g, born, surv)) == nb(g, 4) as i32,
        last_score(rule_entries(512, born, surv), g, other_cell(life_cell(g, born, surv))) == 0,
{
    let es = rule_entries(512, born, surv);
    let v = reversed_window(g);
    lemma_reversed_window(g);
    lemma_low_bits(g);
    if has_entry(es, g, c) {
        let i = choose|i: int| 0 <= i < es.len() && (es[i].gen0 & 0x1ffu32) == g && es[i].gen1 == c;
        lemma_reversed_window(i as u32);
        lemma_low_bits(reversed_window(i as u32));
        assert(i == v);
    }
    if c == life_cell(g, born, surv) {
        lemma_low_bits(v);
        assert(es[v as int].gen0 & 0x1ffu32 == g);
    }
    lemma_last_score(512, g, life_cell(g, born, surv), born, surv);
    lemma_last_score(512, g, other_cell(life_cell(g, born, surv)), born, surv);
}

proof fn lemma_last_score(n: int, g: u32, c: CACell, born: Set<int>, surv: Set<int>)
    requires
        0 <= n <= 512,
        g < 512,
    ensures
        last_score(rule_entries(n, born, surv), g, c) == (if reversed_window(g) < n && c == life_cell(g, born, surv) {
            nb(g, 4) as i32
        } else {
            0i32
        }),
    decreases n,
{
    lemma_reversed_window(g);
    if n > 0 {
        let es = rule_entries(n, born, surv);
        let k = (n - 1) as u32;
        assert(es.drop_last() =~= rule_entries(n - 1, born, surv));
        lemma_reversed_window(k);
        lemma_low_bits(reversed_window(k));
        lemma_last_score(n - 1, g, c, born, surv);
    }
}

} // verus!
