//! Character-level helpers shared by the file parser and the rule parser.
use vstd::prelude::*;

verus! {

/// Relies on `String::push`: appends one character at the end.
#[verifier::external_body]
fn push_char(s: &mut String, c: char)
    ensures
        final(s)@ == old(s)@.push(c),
{
    s.push(c);
}

/// The characters of `s`, in order.
pub fn chars_of(s: &str) -> (r: Vec<char>)
    ensures
        r@ == s@,
{
    let mut r: Vec<char> = Vec::new();
    for c in it: s.chars()
        invariant
            r@ == it.seq().subrange(0, it.index() as int),
    {
        r.push(c);
    }
    r
}

/// A `String` holding `cs[a..b]`.
pub fn string_of(cs: &Vec<char>, a: usize, b: usize) -> (r: String)
    requires
        a <= b <= cs.len(),
    ensures
        r@ == cs@.subrange(a as int, b as int),
{
    let mut r = String::new();
    let mut i = a;
    while i < b
        invariant
            a <= i <= b <= cs.len(),
            r@ == cs@.subrange(a as int, i as int),
        decreases b - i,
    {
        push_char(&mut r, cs[i]);
        assert(cs@.subrange(a as int, i + 1) == cs@.subrange(a as int, i as int).push(cs@[i as int]));
        i = i + 1;
    }
    r
}

/// `s` cut at every `sep`: one piece more than there are separators, each
/// piece free of `sep`, empty pieces kept.
pub open spec fn split(s: Seq<char>, sep: char) -> Seq<Seq<char>>
    decreases s.len(),
{
    if s.len() == 0 {
        seq![Seq::<char>::empty()]
    } else {
        let parts = split(s.drop_last(), sep);
        if s.last() == sep {
            parts.push(Seq::<char>::empty())
        } else {
            parts.update(parts.len() - 1, parts.last().push(s.last()))
        }
    }
}

pub proof fn lemma_split_nonempty(s: Seq<char>, sep: char)
    ensures
        split(s, sep).len() >= 1,
    decreases s.len(),
{
    if s.len() > 0 {
        lemma_split_nonempty(s.drop_last(), sep);
    }
}

/// The character sequences held by a list of character vectors.
pub open spec fn views(v: Seq<Vec<char>>) -> Seq<Seq<char>> {
    v.map_values(|x: Vec<char>| x@)
}

/// The pieces of `cs[a..b]` between the occurrences of `sep`.
pub fn split_chars(cs: &Vec<char>, a: usize, b: usize, sep: char) -> (r: Vec<Vec<char>>)
    requires
        a <= b <= cs.len(),
    ensures
        views(r@) == split(cs@.subrange(a as int, b as int), sep),
        r.len() >= 1,
{
    let mut done: Vec<Vec<char>> = Vec::new();
    let mut cur: Vec<char> = Vec::new();
    let mut i = a;
    while i < b
        invariant
            a <= i <= b <= cs.len(),
            views(done@).push(cur@) == split(cs@.subrange(a as int, i as int), sep),
        decreases b - i,
    {
        let ghost pre = cs@.subrange(a as int, i as int);
        let ghost next = cs@.subrange(a as int, i + 1);
        assert(next.drop_last() == pre);
        assert(next.last() == cs@[i as int]);
        proof {
            lemma_split_nonempty(pre, sep);
        }
        let c = cs[i];
        let ghost dv = views(done@);
        let ghost cv = cur@;
        if c == sep {
            let old_cur = cur;
            cur = Vec::new();
            done.push(old_cur);
            assert(views(done@) =~= dv.push(cv));
        } else {
            cur.push(c);
            assert(views(done@) =~= dv);
        }
        i = i + 1;
        assert(views(done@).push(cur@) =~= split(next, sep));
    }
    let ghost dv = views(done@);
    let ghost cv = cur@;
    done.push(cur);
    assert(views(done@) =~= dv.push(cv));
    done
}

/// Unicode whitespace (the `White_Space` property), as `char::is_whitespace`
/// documents it.
pub open spec fn is_ws(c: char) -> bool {
    c == '\t' || c == '\n' || c == '\u{0B}' || c == '\u{0C}' || c == '\r' || c == ' '
        || c == '\u{85}' || c == '\u{A0}' || c == '\u{1680}' || ('\u{2000}' <= c
        && c <= '\u{200A}') || c == '\u{2028}' || c == '\u{2029}' || c == '\u{202F}'
        || c == '\u{205F}' || c == '\u{3000}'
}

pub fn is_whitespace(c: char) -> (r: bool)
    ensures
        r == is_ws(c),
{
    c == '\t' || c == '\n' || c == '\u{0B}' || c == '\u{0C}' || c == '\r' || c == ' '
        || c == '\u{85}' || c == '\u{A0}' || c == '\u{1680}' || ('\u{2000}' <= c
        && c <= '\u{200A}') || c == '\u{2028}' || c == '\u{2029}' || c == '\u{202F}'
        || c == '\u{205F}' || c == '\u{3000}'
}

pub open spec fn is_digit(c: char) -> bool {
    '0' <= c && c <= '9'
}

pub open spec fn digit_value(c: char) -> nat {
    (c as int - '0' as int) as nat
}

/// The number that a run of decimal digits writes.
pub open spec fn digits_value(s: Seq<char>) -> nat
    decreases s.len(),
{
    if s.len() == 0 {
        0
    } else {
        digits_value(s.drop_last()) * 10 + digit_value(s.last())
    }
}

pub open spec fn all_digits(s: Seq<char>) -> bool {
    forall|i: int| 0 <= i < s.len() ==> is_digit(#[trigger] s[i])
}

/// The digits of an unsigned numeral: an optional leading `+` is dropped.
pub open spec fn unsigned_digits(s: Seq<char>) -> Seq<char> {
    if s.len() > 0 && s[0] == '+' {
        s.drop_first()
    } else {
        s
    }
}

/// An unsigned integer numeral as `str::parse` reads one into a type whose
/// largest value is `max`: an optional `+`, then one or more ASCII digits,
/// with a value of at most `max`.
pub open spec fn parse_unsigned(s: Seq<char>, max: nat) -> Option<nat> {
    let d = unsigned_digits(s);
    if d.len() > 0 && all_digits(d) && digits_value(d) <= max {
        Some(digits_value(d))
    } else {
        None
    }
}

proof fn lemma_digits_value_prefix(s: Seq<char>, k: int)
    requires
        0 <= k <= s.len(),
    ensures
        digits_value(s.subrange(0, k)) <= digits_value(s),
    decreases s.len(),
{
    if k < s.len() {
        assert(s.drop_last() == s.subrange(0, s.len() - 1));
        lemma_digits_value_prefix(s.drop_last(), k);
        assert(s.drop_last().subrange(0, k) == s.subrange(0, k));
    } else {
        assert(s.subrange(0, k) == s);
    }
}

/// Reads `cs[a..b]` as an unsigned numeral bounded by `max`.
pub fn parse_unsigned_chars(cs: &Vec<char>, a: usize, b: usize, max: u64) -> (r: Option<u64>)
    requires
        a <= b <= cs.len(),
    ensures
        match parse_unsigned(cs@.subrange(a as int, b as int), max as nat) {
            Some(v) => r == Some(v as u64),
            None => r is None,
        },
{
    let ghost s = cs@.subrange(a as int, b as int);
    let mut start = a;
    if a < b && cs[a] == '+' {
        start = a + 1;
    }
    let ghost d = cs@.subrange(start as int, b as int);
    assert(d == unsigned_digits(s));
    if start == b {
        return None;
    }
    let mut acc: u128 = 0;
    let mut i = start;
    while i < b
        invariant
            a <= start <= i <= b <= cs.len(),
            d == cs@.subrange(start as int, b as int),
            s == cs@.subrange(a as int, b as int),
            d == unsigned_digits(s),
            all_digits(cs@.subrange(start as int, i as int)),
            acc as nat == digits_value(cs@.subrange(start as int, i as int)),
            acc <= max,
        decreases b - i,
    {
        let c = cs[i];
        let ghost pre = cs@.subrange(start as int, i as int);
        let ghost next = cs@.subrange(start as int, i + 1);
        assert(next.drop_last() == pre);
        if !('0' <= c && c <= '9') {
            assert(d[i - start] == c);
            return None;
        }
        let v = (c as u32 - '0' as u32) as u128;
        acc = acc * 10 + v;
        i = i + 1;
        assert(all_digits(next));
        if acc > max as u128 {
            proof {
                assert(next == d.subrange(0, next.len() as int));
                lemma_digits_value_prefix(d, next.len() as int);
            }
            return None;
        }
    }
    Some(acc as u64)
}

/// `pat` occurs in `s`.
pub open spec fn contains_seq(s: Seq<char>, pat: Seq<char>) -> bool {
    exists|i: int| 0 <= i && i + pat.len() <= s.len() && #[trigger] s.subrange(i, i + pat.len()) == pat
}

/// Whether `pat` occurs in `s`.
pub fn contains_chars(s: &Vec<char>, pat: &Vec<char>) -> (r: bool)
    ensures
        r == contains_seq(s@, pat@),
{
    let m = pat.len();
    if m > s.len() {
        return false;
    }
    let mut i: usize = 0;
    while i <= s.len() - m
        invariant
            m == pat.len() <= s.len(),
            forall|k: int| 0 <= k < i ==> #[trigger] s@.subrange(k, k + m) != pat@,
        decreases s.len() - m + 1 - i,
    {
        let mut j: usize = 0;
        while j < m && s[i + j] == pat[j]
            invariant
                m == pat.len() <= s.len(),
                i + m <= s.len(),
                j <= m,
                forall|t: int| 0 <= t < j ==> s@[i + t] == pat@[t],
            decreases m - j,
        {
            j = j + 1;
        }
        if j == m {
            assert(s@.subrange(i as int, i + m) =~= pat@);
            return true;
        }
        assert(s@.subrange(i as int, i + m)[j as int] != pat@[j as int]);
        i = i + 1;
    }
    false
}

/// `l` without one trailing carriage return.
pub open spec fn strip_cr(l: Seq<char>) -> Seq<char> {
    if l.len() > 0 && l.last() == '\r' {
        l.drop_last()
    } else {
        l
    }
}

/// The lines of `s`, as `str::lines` gives them: split at `\n`, a `\r` just
/// before a `\n` dropped, and no empty line after a final `\n`.
pub open spec fn lines_of(s: Seq<char>) -> Seq<Seq<char>> {
    let parts = split(s, '\n');
    let body = parts.drop_last().map_values(|l: Seq<char>| strip_cr(l));
    if parts.last().len() == 0 {
        body
    } else {
        body.push(parts.last())
    }
}

/// The lines of `cs`.
pub fn lines_of_chars(cs: &Vec<char>) -> (r: Vec<Vec<char>>)
    ensures
        views(r@) == lines_of(cs@),
{
    let parts = split_chars(cs, 0, cs.len(), '\n');
    let ghost pv = views(parts@);
    assert(cs@.subrange(0, cs@.len() as int) == cs@);
    let n = parts.len();
    let mut r: Vec<Vec<char>> = Vec::new();
    let mut k: usize = 0;
    for part in it: parts.into_iter()
        invariant
            n == it.seq().len(),
            n >= 1,
            views(it.seq()) == pv,
            pv == split(cs@, '\n'),
            k == it.index(),
            views(r@) == (if k < n {
                pv.subrange(0, k as int).map_values(|l: Seq<char>| strip_cr(l))
            } else {
                lines_of(cs@)
            }),
    {
        let ghost before = views(r@);
        let ghost pre = pv.subrange(0, k as int).map_values(|l: Seq<char>| strip_cr(l));
        assert(pv[k as int] == part@);
        let ghost pk = part@;
        let mut line = part;
        if k + 1 < n {
            let len = line.len();
            if len > 0 && line[len - 1] == '\r' {
                line.pop();
            }
            assert(line@ =~= strip_cr(pk));
            r.push(line);
            assert(views(r@) =~= before.push(strip_cr(pk)));
            assert(pv.subrange(0, k + 1) =~= pv.subrange(0, k as int).push(pk));
            assert(views(r@) =~= pv.subrange(0, k + 1).map_values(|l: Seq<char>| strip_cr(l)));
        } else {
            assert(pv.drop_last() =~= pv.subrange(0, k as int));
            if line.len() > 0 {
                r.push(line);
                assert(views(r@) =~= lines_of(cs@));
            } else {
                assert(views(r@) =~= lines_of(cs@));
            }
        }
        k = k + 1;
    }
    r
}

/// Position of the first `.` in `s`, or `s.len()` when there is none.
pub open spec fn first_dot(s: Seq<char>) -> int
    decreases s.len(),
{
    if s.len() == 0 {
        0
    } else {
        let k = first_dot(s.drop_last());
        if k < s.len() - 1 {
            k
        } else if s.last() == '.' {
            s.len() - 1
        } else {
            s.len() as int
        }
    }
}

proof fn lemma_first_dot(s: Seq<char>)
    ensures
        0 <= first_dot(s) <= s.len(),
        forall|i: int| 0 <= i < first_dot(s) ==> s[i] != '.',
        first_dot(s) < s.len() ==> s[first_dot(s)] == '.',
    decreases s.len(),
{
    if s.len() > 0 {
        let t = s.drop_last();
        lemma_first_dot(t);
        assert forall|i: int| 0 <= i < first_dot(s) implies s[i] != '.' by {
            if i < t.len() {
                assert(t[i] == s[i]);
            }
        }
    }
}

/// The digits before the first `.` of an unsigned numeral.
pub open spec fn whole_digits(s: Seq<char>) -> Seq<char> {
    let d = unsigned_digits(s);
    d.subrange(0, first_dot(d))
}

/// The digits after the first `.` of an unsigned numeral.
pub open spec fn fraction_digits(s: Seq<char>) -> Seq<char> {
    let d = unsigned_digits(s);
    if first_dot(d) < d.len() {
        d.subrange(first_dot(d) + 1, d.len() as int)
    } else {
        Seq::empty()
    }
}

/// A decimal numeral: an optional `+`, digits, and at most one `.` followed by
/// more digits, with at least one digit in all. Only plain decimals are read:
/// no `-` sign, no exponent (`1e5`), no `inf` or `NaN`.
pub open spec fn is_decimal_numeral(s: Seq<char>) -> bool {
    &&& all_digits(whole_digits(s))
    &&& all_digits(fraction_digits(s))
    &&& whole_digits(s).len() + fraction_digits(s).len() > 0
}

/// Whether `cs[a..b]` is a decimal numeral; where it is, its whole and
/// fractional digits as ranges of `cs`.
pub fn decimal_numeral(cs: &Vec<char>, a: usize, b: usize) -> (r: Option<(usize, usize)>)
    requires
        a <= b <= cs.len(),
    ensures
        r is Some == is_decimal_numeral(cs@.subrange(a as int, b as int)),
        r matches Some((w, f)) ==> a <= w <= b && w <= f <= b
            && cs@.subrange(w as int, f as int) == whole_digits(cs@.subrange(a as int, b as int))
            && cs@.subrange(if f < b { f + 1 } else { b as int }, b as int) == fraction_digits(cs@.subrange(a as int, b as int))
            && (f < b ==> cs@[f as int] == '.'),
{
    let ghost s = cs@.subrange(a as int, b as int);
    let start = if a < b && cs[a] == '+' {
        a + 1
    } else {
        a
    };
    let ghost d = unsigned_digits(s);
    assert(d == cs@.subrange(start as int, b as int));
    proof {
        lemma_first_dot(d);
    }
    let mut k = start;
    while k < b && cs[k] != '.'
        invariant
            start <= k <= b <= cs.len(),
            d == cs@.subrange(start as int, b as int),
            0 <= first_dot(d) <= d.len(),
            forall|i: int| 0 <= i < first_dot(d) ==> d[i] != '.',
            first_dot(d) < d.len() ==> d[first_dot(d)] == '.',
            forall|i: int| start <= i < k ==> cs@[i] != '.',
        decreases b - k,
    {
        k = k + 1;
    }
    assert(k - start == first_dot(d)) by {
        if k - start < first_dot(d) {
            assert(d[k - start] == cs@[k as int]);
        } else if k - start > first_dot(d) {
            assert(d[first_dot(d)] == cs@[start + first_dot(d)]);
        }
    }
    let mut ok = true;
    let mut i = start;
    while i < k
        invariant
            start <= i <= k <= b <= cs.len(),
            ok == all_digits(cs@.subrange(start as int, i as int)),
        decreases k - i,
    {
        assert(cs@.subrange(start as int, i + 1) == cs@.subrange(start as int, i as int).push(cs@[i as int]));
        let c = cs[i];
        assert(cs@.subrange(start as int, i + 1)[i - start] == c);
        if !('0' <= c && c <= '9') {
            ok = false;
        }
        i = i + 1;
    }
    let fs = if k < b {
        k + 1
    } else {
        b
    };
    let mut j = fs;
    while j < b
        invariant
            fs <= j <= b <= cs.len(),
            start <= k <= b,
            ok == (all_digits(cs@.subrange(start as int, k as int)) && all_digits(cs@.subrange(fs as int, j as int))),
        decreases b - j,
    {
        assert(cs@.subrange(fs as int, j + 1) == cs@.subrange(fs as int, j as int).push(cs@[j as int]));
        let c = cs[j];
        assert(cs@.subrange(fs as int, j + 1)[j - fs] == c);
        if !('0' <= c && c <= '9') {
            ok = false;
        }
        j = j + 1;
    }
    assert(cs@.subrange(start as int, k as int) =~= whole_digits(s));
    assert(cs@.subrange(fs as int, b as int) =~= fraction_digits(s));
    if ok && (k - start) + (b - fs) > 0 {
        Some((start, k))
    } else {
        None
    }
}

/// `s` without its trailing `%` signs.
pub open spec fn strip_percent(s: Seq<char>) -> Seq<char>
    decreases s.len(),
{
    if s.len() > 0 && s.last() == '%' {
        strip_percent(s.drop_last())
    } else {
        s
    }
}

/// The end of `cs[a..b]` once its trailing `%` signs are removed.
pub fn strip_percent_end(cs: &Vec<char>, a: usize, b: usize) -> (r: usize)
    requires
        a <= b <= cs.len(),
    ensures
        a <= r <= b,
        cs@.subrange(a as int, r as int) == strip_percent(cs@.subrange(a as int, b as int)),
{
    let mut e = b;
    while e > a && cs[e - 1] == '%'
        invariant
            a <= e <= b <= cs.len(),
            strip_percent(cs@.subrange(a as int, e as int)) == strip_percent(cs@.subrange(a as int, b as int)),
        decreases e,
    {
        assert(cs@.subrange(a as int, e as int).drop_last() == cs@.subrange(a as int, e - 1));
        e = e - 1;
    }
    e
}

} // verus!
