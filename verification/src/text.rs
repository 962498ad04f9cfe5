//! Character-level text handling: trimming, splitting, integer parsing and printing.
use vstd::prelude::*;
use vstd::std_specs::iter::IteratorSpec;

verus! {

/// The characters of a `&str`, in order.
pub fn chars_of(s: &str) -> (v: Vec<char>)
    ensures
        v@ == s@,
{
    let mut v: Vec<char> = Vec::new();
    let mut it = s.chars();
    proof {
        broadcast use vstd::string::group_string_axioms;

    }
    let ghost total = s@;
    loop
        invariant
            it.remaining() == total.skip(v@.len() as int),
            v@ == total.take(v@.len() as int),
            v@.len() <= total.len(),
            total == s@,
        decreases total.len() - v@.len(),
    {
        match it.next() {
            Some(c) => {
                proof {
                    broadcast use vstd::string::group_string_axioms;

                }
                v.push(c);
                assert(v@ =~= total.take(v@.len() as int));
            },
            None => {
                proof {
                    broadcast use vstd::string::group_string_axioms;

                }
                assert(v@ =~= total);
                return v;
            },
        }
    }
}

/// Appends one character to a `String` (`String::push`).
#[verifier::external_body]
pub(crate) fn push_char(s: &mut String, c: char)
    ensures
        final(s)@ == old(s)@.push(c),
{
    s.push(c);
}

/// Appends characters to a `String`.
pub fn push_chars(s: &mut String, cs: &Vec<char>)
    ensures
        final(s)@ == old(s)@ + cs@,
{
    let ghost start = s@;
    for i in 0..cs.len()
        invariant
            s@ == start + cs@.take(i as int),
    {
        push_char(s, cs[i]);
        assert(s@ =~= start + cs@.take(i + 1));
    }
    assert(cs@.take(cs@.len() as int) =~= cs@);
}

/// Appends a string slice.
pub fn push_str(s: &mut String, t: &str)
    ensures
        final(s)@ == old(s)@ + t@,
{
    let cs = chars_of(t);
    push_chars(s, &cs);
}

/// Unicode `White_Space`, as `char::is_whitespace` documents it.
pub open spec fn spec_is_whitespace(c: char) -> bool {
    let u = c as u32;
    ||| 0x9 <= u <= 0xD
    ||| u == 0x20
    ||| u == 0x85
    ||| u == 0xA0
    ||| u == 0x1680
    ||| 0x2000 <= u <= 0x200A
    ||| u == 0x2028
    ||| u == 0x2029
    ||| u == 0x202F
    ||| u == 0x205F
    ||| u == 0x3000
}

pub fn is_whitespace(c: char) -> (r: bool)
    ensures
        r == spec_is_whitespace(c),
{
    let u = c as u32;
    (0x9 <= u && u <= 0xD) || u == 0x20 || u == 0x85 || u == 0xA0 || u == 0x1680 || (0x2000 <= u
        && u <= 0x200A) || u == 0x2028 || u == 0x2029 || u == 0x202F || u == 0x205F || u == 0x3000
}

pub open spec fn trim_start(s: Seq<char>) -> Seq<char>
    decreases s.len(),
{
    if s.len() > 0 && spec_is_whitespace(s[0]) {
        trim_start(s.drop_first())
    } else {
        s
    }
}

pub open spec fn trim_end(s: Seq<char>) -> Seq<char>
    decreases s.len(),
{
    if s.len() > 0 && spec_is_whitespace(s.last()) {
        trim_end(s.drop_last())
    } else {
        s
    }
}

/// `str::trim`: leading and trailing whitespace removed.
pub open spec fn trim(s: Seq<char>) -> Seq<char> {
    trim_end(trim_start(s))
}

/// Bounds of `v[lo..hi]` with surrounding whitespace removed.
pub fn trim_bounds(v: &Vec<char>, lo: usize, hi: usize) -> (r: (usize, usize))
    requires
        lo <= hi <= v@.len(),
    ensures
        lo <= r.0 <= r.1 <= hi,
        v@.subrange(r.0 as int, r.1 as int) == trim(v@.subrange(lo as int, hi as int)),
{
    let mut a = lo;
    while a < hi && is_whitespace(v[a])
        invariant
            lo <= a <= hi <= v@.len(),
            trim_start(v@.subrange(lo as int, hi as int)) == trim_start(
                v@.subrange(a as int, hi as int),
            ),
        decreases hi - a,
    {
        assert(v@.subrange(a as int, hi as int).drop_first() =~= v@.subrange(a + 1, hi as int));
        a = a + 1;
    }
    let mut b = hi;
    while b > a && is_whitespace(v[b - 1])
        invariant
            lo <= a <= b <= hi <= v@.len(),
            trim_end(v@.subrange(a as int, hi as int)) == trim_end(v@.subrange(a as int, b as int)),
        decreases b - a,
    {
        assert(v@.subrange(a as int, b as int).drop_last() =~= v@.subrange(a as int, b - 1));
        b = b - 1;
    }
    (a, b)
}

/// Position of the first `c` in `s`, or -1.
pub open spec fn find_char(s: Seq<char>, c: char) -> int
    decreases s.len(),
{
    if s.len() == 0 {
        -1
    } else if s[0] == c {
        0
    } else {
        let r = find_char(s.drop_first(), c);
        if r < 0 {
            -1
        } else {
            r + 1
        }
    }
}

pub proof fn lemma_find_char(s: Seq<char>, c: char)
    ensures
        -1 <= find_char(s, c) < s.len(),
        find_char(s, c) >= 0 ==> s[find_char(s, c)] == c,
        forall|i: int| 0 <= i < s.len() && (find_char(s, c) < 0 || i < find_char(s, c)) ==> s[i]
            != c,
    decreases s.len(),
{
    if s.len() > 0 && s[0] != c {
        lemma_find_char(s.drop_first(), c);
        assert forall|i: int|
            0 <= i < s.len() && (find_char(s, c) < 0 || i < find_char(s, c)) implies s[i] != c by {
            if i > 0 {
                assert(s[i] == s.drop_first()[i - 1]);
            }
        }
    }
}

/// `s` holds `c` somewhere.
pub open spec fn has_char(s: Seq<char>, c: char) -> bool {
    exists|i: int| 0 <= i < s.len() && s[i] == c
}

/// Index of the first `c` in `v[lo..hi]`, or `hi`.
pub fn find_in(v: &Vec<char>, lo: usize, hi: usize, c: char) -> (r: usize)
    requires
        lo <= hi <= v@.len(),
    ensures
        lo <= r <= hi,
        r == hi <==> find_char(v@.subrange(lo as int, hi as int), c) < 0,
        r < hi ==> r - lo == find_char(v@.subrange(lo as int, hi as int), c),
        r < hi ==> v@[r as int] == c,
        forall|i: int| lo <= i < r ==> v@[i] != c,
        r == hi <==> !has_char(v@.subrange(lo as int, hi as int), c),
{
    let mut i = lo;
    while i < hi && v[i] != c
        invariant
            lo <= i <= hi <= v@.len(),
            forall|k: int| lo <= k < i ==> v@[k] != c,
        decreases hi - i,
    {
        i = i + 1;
    }
    proof {
        let s = v@.subrange(lo as int, hi as int);
        lemma_find_char(s, c);
        let f = find_char(s, c);
        if f >= 0 {
            assert(s[f] == c);
        }
        if i < hi {
            assert(s[i - lo] == c);
        }
        if has_char(s, c) {
            let k = choose|k: int| 0 <= k < s.len() && s[k] == c;
            assert(v@[lo + k] == c);
        }
        if i < hi {
            assert(has_char(s, c)) by {
                assert(s[i - lo] == c);
            }
        }
    }
    i
}

/// `str::split` on one character.
pub open spec fn split(s: Seq<char>, sep: char) -> Seq<Seq<char>>
    decreases s.len(),
{
    let i = find_char(s, sep);
    if i < 0 || i >= s.len() {
        seq![s]
    } else {
        seq![s.take(i)] + split(s.skip(i + 1), sep)
    }
}

/// The pieces named by `r` in `v`.
pub open spec fn pieces(v: Seq<char>, r: Seq<(usize, usize)>) -> Seq<Seq<char>> {
    r.map_values(|p: (usize, usize)| v.subrange(p.0 as int, p.1 as int))
}

/// Bounds of the pieces of `v[lo..hi]` between the separators `sep`.
pub fn split_bounds(v: &Vec<char>, lo: usize, hi: usize, sep: char) -> (r: Vec<(usize, usize)>)
    requires
        lo <= hi <= v@.len(),
    ensures
        pieces(v@, r@) == split(v@.subrange(lo as int, hi as int), sep),
        forall|k: int| 0 <= k < r@.len() ==> lo <= (#[trigger] r@[k]).0 <= r@[k].1 <= hi,
        r@.len() >= 1,
{
    let mut out: Vec<(usize, usize)> = Vec::new();
    let mut cur = lo;
    loop
        invariant
            lo <= cur <= hi <= v@.len(),
            pieces(v@, out@) + split(v@.subrange(cur as int, hi as int), sep) == split(
                v@.subrange(lo as int, hi as int),
                sep,
            ),
            forall|k: int| 0 <= k < out@.len() ==> lo <= (#[trigger] out@[k]).0 <= out@[k].1 <= hi,
        decreases hi - cur,
    {
        let k = find_in(v, cur, hi, sep);
        let ghost s = v@.subrange(cur as int, hi as int);
        let ghost before = pieces(v@, out@);
        if k == hi {
            out.push((cur, hi));
            proof {
                assert(split(s, sep) == seq![s]);
                assert(pieces(v@, out@) =~= before + seq![s]);
            }
            return out;
        }
        out.push((cur, k));
        proof {
            assert(s.take(k - cur) =~= v@.subrange(cur as int, k as int));
            assert(s.skip(k - cur + 1) =~= v@.subrange(k + 1, hi as int));
            assert(pieces(v@, out@) =~= before + seq![v@.subrange(cur as int, k as int)]);
            assert(split(s, sep) == seq![s.take(k - cur)] + split(s.skip(k - cur + 1), sep));
            assert(pieces(v@, out@) + split(v@.subrange(k + 1, hi as int), sep) =~= before + split(s, sep));
        }
        cur = k + 1;
    }
}

/// Removes one trailing `'\r'`.
pub open spec fn strip_cr(s: Seq<char>) -> Seq<char> {
    if s.len() > 0 && s.last() == '\r' {
        s.drop_last()
    } else {
        s
    }
}

/// `str::lines`: pieces between `'\n'`, a final empty piece dropped, and `"\r\n"`
/// endings handled as line ends.
pub open spec fn lines(s: Seq<char>) -> Seq<Seq<char>> {
    let parts = split(s, '\n');
    let n = if parts.last().len() == 0 {
        parts.len() - 1
    } else {
        parts.len() as int
    };
    Seq::new(
        n as nat,
        |i: int|
            if i < parts.len() - 1 {
                strip_cr(parts[i])
            } else {
                parts[i]
            },
    )
}

pub proof fn lemma_split_nonempty(s: Seq<char>, sep: char)
    ensures
        split(s, sep).len() >= 1,
    decreases s.len(),
{
    lemma_find_char(s, sep);
    let i = find_char(s, sep);
    if i >= 0 && i < s.len() {
        lemma_split_nonempty(s.skip(i + 1), sep);
    }
}

/// Bounds of the lines of `v`.
pub fn line_bounds(v: &Vec<char>) -> (r: Vec<(usize, usize)>)
    ensures
        pieces(v@, r@) == lines(v@),
        forall|k: int| 0 <= k < r@.len() ==> (#[trigger] r@[k]).0 <= r@[k].1 <= v@.len(),
{
    let parts = split_bounds(v, 0, v.len(), '\n');
    let ghost sp = split(v@.subrange(0, v@.len() as int), '\n');
    proof {
        assert(v@.subrange(0, v@.len() as int) =~= v@);
    }
    let np = parts.len();
    let last = parts[np - 1];
    let n = if last.0 == last.1 {
        np - 1
    } else {
        np
    };
    let mut out: Vec<(usize, usize)> = Vec::new();
    for i in 0..n
        invariant
            n <= np == parts@.len(),
            pieces(v@, parts@) == sp,
            sp == split(v@, '\n'),
            forall|k: int| 0 <= k < parts@.len() ==> (#[trigger] parts@[k]).0 <= parts@[k].1 <= v@.len(),
            out@.len() == i,
            forall|k: int| 0 <= k < out@.len() ==> (#[trigger] out@[k]).0 <= out@[k].1 <= v@.len(),
            forall|k: int|
                0 <= k < i ==> v@.subrange(out@[k].0 as int, out@[k].1 as int) == (if k < sp.len()
                    - 1 {
                    strip_cr(sp[k])
                } else {
                    sp[k]
                }),
    {
        let (a, b) = parts[i];
        proof {
            assert(sp[i as int] == v@.subrange(a as int, b as int));
        }
        if i + 1 < np && b > a && v[b - 1] == '\r' {
            out.push((a, b - 1));
            proof {
                assert(v@.subrange(a as int, b - 1) =~= strip_cr(v@.subrange(a as int, b as int)));
            }
        } else {
            out.push((a, b));
            proof {
                if i + 1 < np {
                    assert(strip_cr(v@.subrange(a as int, b as int)) == v@.subrange(a as int, b as int));
                }
            }
        }
    }
    proof {
        assert(sp.last() == v@.subrange(last.0 as int, last.1 as int));
        assert(pieces(v@, out@) =~= lines(v@));
    }
    out
}

pub open spec fn is_digit(c: char) -> bool {
    '0' <= c <= '9'
}

pub open spec fn digit_value(c: char) -> int {
    (c as u32) - ('0' as u32)
}

pub open spec fn all_digits(s: Seq<char>) -> bool {
    forall|i: int| 0 <= i < s.len() ==> is_digit(#[trigger] s[i])
}

/// Decimal value of a string of digits.
pub open spec fn digits_value(s: Seq<char>) -> int
    decreases s.len(),
{
    if s.len() == 0 {
        0
    } else {
        10 * digits_value(s.drop_last()) + digit_value(s.last())
    }
}

/// Rust's integer `from_str` in base 10: an optional sign (`-` only where `signed`),
/// then one or more ASCII digits, and a value in `min..=max`.
pub open spec fn parse_int(s: Seq<char>, signed: bool, min: int, max: int) -> Option<int> {
    if s.len() == 0 {
        None
    } else {
        let neg = signed && s[0] == '-';
        let body = if s[0] == '+' || neg {
            s.drop_first()
        } else {
            s
        };
        if body.len() == 0 || !all_digits(body) {
            None
        } else {
            let v = if neg {
                -digits_value(body)
            } else {
                digits_value(body)
            };
            if min <= v <= max {
                Some(v)
            } else {
                None
            }
        }
    }
}

proof fn lemma_digits_value_nonneg(s: Seq<char>)
    requires
        all_digits(s),
    ensures
        digits_value(s) >= 0,
    decreases s.len(),
{
    if s.len() > 0 {
        lemma_digits_value_nonneg(s.drop_last());
    }
}

proof fn lemma_digits_value_mono(s: Seq<char>, k: int)
    requires
        all_digits(s),
        0 <= k <= s.len(),
    ensures
        digits_value(s.take(k)) <= digits_value(s),
    decreases s.len() - k,
{
    if k < s.len() {
        lemma_digits_value_mono(s, k + 1);
        assert(s.take(k + 1).drop_last() =~= s.take(k));
        lemma_digits_value_nonneg(s.take(k));
    } else {
        assert(s.take(k) =~= s);
    }
}

/// Value of the digits `v[lo..hi]` when it is at most `limit`.
fn digits_upto(v: &Vec<char>, lo: usize, hi: usize, limit: u64) -> (r: Option<u64>)
    requires
        lo <= hi <= v@.len(),
        all_digits(v@.subrange(lo as int, hi as int)),
    ensures
        r matches Some(x) ==> x == digits_value(v@.subrange(lo as int, hi as int)),
        r is None <==> digits_value(v@.subrange(lo as int, hi as int)) > limit,
{
    let mut acc: u64 = 0;
    let mut i = lo;
    while i < hi
        invariant
            lo <= i <= hi <= v@.len(),
            all_digits(v@.subrange(lo as int, hi as int)),
            acc == digits_value(v@.subrange(lo as int, i as int)),
            acc <= limit,
        decreases hi - i,
    {
        let c = v[i];
        proof {
            assert(v@.subrange(lo as int, hi as int)[i - lo] == c);
        }
        let d = (c as u32 - '0' as u32) as u64;
        proof {
            assert(v@.subrange(lo as int, i + 1).drop_last() =~= v@.subrange(lo as int, i as int));
        }
        if d > limit || acc > (limit - d) / 10 {
            proof {
                let s = v@.subrange(lo as int, hi as int);
                assert(s.take(i + 1 - lo) =~= v@.subrange(lo as int, i + 1));
                lemma_digits_value_mono(s, i + 1 - lo);
                assert(s =~= v@.subrange(lo as int, hi as int));
                if d <= limit {
                    assert(10 * acc + d > limit) by (nonlinear_arith)
                        requires
                            acc > (limit - d) / 10,
                            d <= limit,
                    ;
                } else {
                    assert(10 * acc + d > limit) by (nonlinear_arith)
                        requires
                            acc >= 0,
                            d > limit,
                    ;
                }
            }
            return None;
        }
        acc = acc * 10 + d;
        i = i + 1;
    }
    Some(acc)
}

/// Parses `v[lo..hi]` as a decimal integer in `min..=max`, as Rust's `from_str` does.
pub fn parse_int_in(v: &Vec<char>, lo: usize, hi: usize, signed: bool, min: i64, max: i64) -> (r:
    Option<i64>)
    requires
        lo <= hi <= v@.len(),
        i64::MIN < min <= 0 <= max,
    ensures
        r matches Some(x) ==> parse_int(v@.subrange(lo as int, hi as int), signed, min as int, max as int)
            == Some(x as int),
        r is None ==> parse_int(v@.subrange(lo as int, hi as int), signed, min as int, max as int) is None,
{
    let ghost s = v@.subrange(lo as int, hi as int);
    if lo == hi {
        return None;
    }
    let neg = signed && v[lo] == '-';
    proof {
        assert(s[0] == v@[lo as int]);
    }
    let start = if v[lo] == '+' || neg {
        lo + 1
    } else {
        lo
    };
    proof {
        if v@[lo as int] == '+' || neg {
            assert(s.drop_first() =~= v@.subrange(start as int, hi as int));
        } else {
            assert(s =~= v@.subrange(start as int, hi as int));
        }
    }
    if start == hi {
        return None;
    }
    let mut i = start;
    while i < hi
        invariant
            start <= i <= hi <= v@.len(),
            forall|k: int| start <= k < i ==> is_digit(v@[k]),
            lo < hi,
            s == v@.subrange(lo as int, hi as int),
            neg == (signed && s[0] == '-'),
            v@.subrange(start as int, hi as int) == (if s[0] == '+' || neg {
                s.drop_first()
            } else {
                s
            }),
        decreases hi - i,
    {
        if !(v[i] >= '0' && v[i] <= '9') {
            proof {
                let body = v@.subrange(start as int, hi as int);
                assert(!is_digit(body[i - start]));
                assert(!all_digits(body));
            }
            return None;
        }
        i = i + 1;
    }
    proof {
        assert(all_digits(v@.subrange(start as int, hi as int)));
    }
    let limit: u64 = if neg {
        (0i64 - min) as u64
    } else {
        max as u64
    };
    match digits_upto(v, start, hi, limit) {
        None => None,
        Some(x) => {
            if neg {
                Some(0i64 - (x as i64))
            } else {
                Some(x as i64)
            }
        },
    }
}

/// Parses `v[lo..hi]` as `usize::from_str` does: an optional `+`, then one or more
/// ASCII digits, with a value that fits in `usize`.
pub fn parse_usize_in(v: &Vec<char>, lo: usize, hi: usize) -> (r: Option<usize>)
    requires
        lo <= hi <= v@.len(),
    ensures
        r matches Some(x) ==> parse_int(v@.subrange(lo as int, hi as int), false, 0, usize::MAX as int)
            == Some(x as int),
        r is None ==> parse_int(v@.subrange(lo as int, hi as int), false, 0, usize::MAX as int) is None,
{
    let ghost s = v@.subrange(lo as int, hi as int);
    if lo == hi {
        return None;
    }
    proof {
        assert(s[0] == v@[lo as int]);
    }
    let start = if v[lo] == '+' {
        lo + 1
    } else {
        lo
    };
    proof {
        if v@[lo as int] == '+' {
            assert(s.drop_first() =~= v@.subrange(start as int, hi as int));
        } else {
            assert(s =~= v@.subrange(start as int, hi as int));
        }
    }
    if start == hi {
        return None;
    }
    let mut i = start;
    while i < hi
        invariant
            start <= i <= hi <= v@.len(),
            forall|k: int| start <= k < i ==> is_digit(v@[k]),
            lo < hi,
            s == v@.subrange(lo as int, hi as int),
            v@.subrange(start as int, hi as int) == (if s[0] == '+' {
                s.drop_first()
            } else {
                s
            }),
        decreases hi - i,
    {
        if !(v[i] >= '0' && v[i] <= '9') {
            proof {
                let body = v@.subrange(start as int, hi as int);
                assert(!is_digit(body[i - start]));
                assert(!all_digits(body));
            }
            return None;
        }
        i = i + 1;
    }
    proof {
        assert(all_digits(v@.subrange(start as int, hi as int)));
    }
    match digits_upto(v, start, hi, usize::MAX as u64) {
        None => None,
        Some(x) => Some(x as usize),
    }
}

/// Decimal digits of `n`.
pub open spec fn decimal(n: nat) -> Seq<char>
    decreases n,
{
    if n < 10 {
        seq![('0' as u32 + n) as char]
    } else {
        decimal(n / 10) + seq![('0' as u32 + (n % 10)) as char]
    }
}

/// `n` formatted as `{}` does for integers.
pub open spec fn int_text(n: int) -> Seq<char> {
    if n < 0 {
        seq!['-'] + decimal((-n) as nat)
    } else {
        decimal(n as nat)
    }
}

/// The ASCII digit for `d`.
pub fn digit_char(d: u32) -> (c: char)
    requires
        d < 10,
    ensures
        c == ('0' as u32 + d) as char,
        is_digit(c),
        digit_value(c) == d,
{
    match d {
        0 => '0',
        1 => '1',
        2 => '2',
        3 => '3',
        4 => '4',
        5 => '5',
        6 => '6',
        7 => '7',
        8 => '8',
        _ => '9',
    }
}

fn push_decimal(s: &mut String, n: u64)
    ensures
        final(s)@ == old(s)@ + decimal(n as nat),
    decreases n,
{
    if n >= 10 {
        push_decimal(s, n / 10);
    }
    push_char(s, digit_char((n % 10) as u32));
}

/// Appends the decimal text of `n`.
pub fn push_int(s: &mut String, n: i64)
    requires
        n > i64::MIN,
    ensures
        final(s)@ == old(s)@ + int_text(n as int),
{
    if n < 0 {
        push_char(s, '-');
        push_decimal(s, (0 - n) as u64);
        assert(final(s)@ =~= old(s)@ + int_text(n as int));
    } else {
        push_decimal(s, n as u64);
    }
}

} // verus!
