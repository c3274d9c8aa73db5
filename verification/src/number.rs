//! Numbers written as words: decimal integers and the text of floating point numbers.
use vstd::prelude::*;
use crate::text::chars_of;

verus! {

pub open spec fn is_digit(c: char) -> bool {
    '0' <= c && c <= '9'
}

pub open spec fn all_digits(s: Seq<char>) -> bool {
    forall|k: int| 0 <= k < s.len() ==> is_digit(#[trigger] s[k])
}

pub open spec fn digit_value(c: char) -> int {
    c as int - '0' as int
}

/// The value of a string of decimal digits.
pub open spec fn digits_value(s: Seq<char>) -> int
    decreases s.len(),
{
    if s.len() == 0 {
        0
    } else {
        digits_value(s.drop_last()) * 10 + digit_value(s.last())
    }
}

/// The value of a non-empty string of decimal digits, or `None`.
pub open spec fn unsigned_digits(d: Seq<char>) -> Option<int> {
    if d.len() > 0 && all_digits(d) {
        Some(digits_value(d))
    } else {
        None
    }
}

/// The integer that a word denotes, as `str::parse` reads integers: an optional sign followed
/// by one or more decimal digits. A `-` sign is only accepted if `signed` holds.
pub open spec fn spec_int_value(w: Seq<char>, signed: bool) -> Option<int> {
    if w.len() > 0 && w[0] == '+' {
        unsigned_digits(w.drop_first())
    } else if w.len() > 0 && w[0] == '-' && signed {
        match unsigned_digits(w.drop_first()) {
            Some(v) => Some(-v),
            None => None,
        }
    } else {
        unsigned_digits(w)
    }
}

/// The integer that a word denotes, if it lies in `min..=max`.
pub open spec fn spec_parse_int(w: Seq<char>, signed: bool, min: int, max: int) -> Option<int> {
    match spec_int_value(w, signed) {
        Some(v) => if min <= v <= max {
            Some(v)
        } else {
            None
        },
        None => None,
    }
}

pub proof fn lemma_int_value_cases(w: Seq<char>, signed: bool)
    ensures
        w.len() > 0 && w[0] == '+' ==> spec_int_value(w, signed) == unsigned_digits(
            w.drop_first(),
        ),
        w.len() > 0 && w[0] == '-' && signed && unsigned_digits(w.drop_first()) is None
            ==> spec_int_value(w, signed) is None,
        w.len() > 0 && w[0] == '-' && signed && unsigned_digits(w.drop_first()) is Some
            ==> spec_int_value(w, signed) == Some(-unsigned_digits(w.drop_first())->0),
        !(w.len() > 0 && (w[0] == '+' || (w[0] == '-' && signed))) ==> spec_int_value(w, signed)
            == unsigned_digits(w),
{
}

pub proof fn lemma_digits_value_nonneg(s: Seq<char>)
    requires
        all_digits(s),
    ensures
        digits_value(s) >= 0,
    decreases s.len(),
{
    if s.len() > 0 {
        lemma_digits_value_nonneg(s.drop_last());
    }
}

pub proof fn lemma_digits_value_prefix(s: Seq<char>, k: int)
    requires
        all_digits(s),
        0 <= k <= s.len(),
    ensures
        digits_value(s.take(k)) <= digits_value(s),
    decreases s.len(),
{
    if k < s.len() {
        lemma_digits_value_prefix(s.drop_last(), k);
        assert(s.drop_last().take(k) =~= s.take(k));
        lemma_digits_value_nonneg(s.drop_last());
    } else {
        assert(s.take(k) =~= s);
    }
}

/// Reads a decimal integer in `min..=max` from the characters of a word.
pub fn parse_int(w: &Vec<char>, signed: bool, min: i128, max: i128) -> (r: Option<i128>)
    requires
        -0x1_0000_0000_0000_0000 <= min <= 0 <= max <= 0x1_0000_0000_0000_0000,
    ensures
        match r {
            Some(v) => spec_parse_int(w@, signed, min as int, max as int) == Some(v as int),
            None => spec_parse_int(w@, signed, min as int, max as int) is None,
        },
{
    let mut start: usize = 0;
    let mut negative = false;
    if w.len() > 0 && w[0] == '+' {
        start = 1;
    } else if w.len() > 0 && w[0] == '-' && signed {
        start = 1;
        negative = true;
    }
    let ghost d = w@.subrange(start as int, w@.len() as int);
    assert(start == 1 ==> d =~= w@.drop_first());
    assert(start == 0 ==> d =~= w@);
    if start >= w.len() {
        return None;
    }
    let mut acc: i128 = 0;
    let mut k: usize = start;
    while k < w.len()
        invariant
            start <= k <= w.len(),
            start <= 1,
            d == w@.subrange(start as int, w@.len() as int),
            start == 1 ==> d == w@.drop_first(),
            start == 0 ==> d == w@,
            start == 1 ==> (w@[0] == '+' || (w@[0] == '-' && signed)),
            start == 0 ==> !(w@.len() > 0 && (w@[0] == '+' || (w@[0] == '-' && signed))),
            negative == (start == 1 && w@[0] == '-'),
            -0x1_0000_0000_0000_0000 <= min <= 0 <= max <= 0x1_0000_0000_0000_0000,
            all_digits(d.take(k - start)),
            acc as int == digits_value(d.take(k - start)),
            0 <= acc <= 0x1_0000_0000_0000_0000,
        decreases w.len() - k,
    {
        let c = w[k];
        if !('0' <= c && c <= '9') {
            assert(d[k - start] == c);
            assert(!all_digits(d));
            assert(unsigned_digits(d) is None);
            proof {
                lemma_int_value_cases(w@, signed);
                if start == 1 {
                    assert(unsigned_digits(w@.drop_first()) is None);
                } else {
                    assert(unsigned_digits(w@) is None);
                }
                assert(spec_int_value(w@, signed) is None);
            }
            return None;
        }
        let dv = digit_of(c) as i128;
        assert(d.take(k + 1 - start).drop_last() =~= d.take(k - start));
        assert(d.take(k + 1 - start).last() == c);
        acc = acc * 10 + dv;
        k += 1;
        assert(all_digits(d.take(k - start)));
        assert(acc as int == digits_value(d.take(k - start)));
        if acc > 0x1_0000_0000_0000_0000 {
            proof {
                if all_digits(d) {
                    lemma_digits_value_prefix(d, k - start);
                    assert(d.len() > 0);
                    assert(unsigned_digits(d) == Some(digits_value(d)));
                    assert(digits_value(d) > 0x1_0000_0000_0000_0000);
                } else {
                    assert(unsigned_digits(d) is None);
                }
                lemma_int_value_cases(w@, signed);
                if start == 1 {
                    assert(unsigned_digits(w@.drop_first()) == unsigned_digits(d));
                } else {
                    assert(unsigned_digits(w@) == unsigned_digits(d));
                }
                assert(spec_parse_int(w@, signed, min as int, max as int) is None);
            }
            return None;
        }
    }
    assert(d.take(k - start) =~= d);
    proof {
        lemma_int_value_cases(w@, signed);
    }
    let v = if negative {
        -acc
    } else {
        acc
    };
    if min <= v && v <= max {
        Some(v)
    } else {
        None
    }
}

/// The upper case of a lower case ASCII letter; other characters are left as they are.
pub open spec fn ascii_upper(l: char) -> char {
    if l == 'a' {
        'A'
    } else if l == 'b' {
        'B'
    } else if l == 'c' {
        'C'
    } else if l == 'd' {
        'D'
    } else if l == 'e' {
        'E'
    } else if l == 'f' {
        'F'
    } else if l == 'g' {
        'G'
    } else if l == 'h' {
        'H'
    } else if l == 'i' {
        'I'
    } else if l == 'j' {
        'J'
    } else if l == 'k' {
        'K'
    } else if l == 'l' {
        'L'
    } else if l == 'm' {
        'M'
    } else if l == 'n' {
        'N'
    } else if l == 'o' {
        'O'
    } else if l == 'p' {
        'P'
    } else if l == 'q' {
        'Q'
    } else if l == 'r' {
        'R'
    } else if l == 's' {
        'S'
    } else if l == 't' {
        'T'
    } else if l == 'u' {
        'U'
    } else if l == 'v' {
        'V'
    } else if l == 'w' {
        'W'
    } else if l == 'x' {
        'X'
    } else if l == 'y' {
        'Y'
    } else if l == 'z' {
        'Z'
    } else {
        l
    }
}

/// Whether `c` equals the lower case ASCII character `l`, ignoring ASCII case.
pub open spec fn ci_char_eq(c: char, l: char) -> bool {
    c == l || c == ascii_upper(l)
}

/// The upper case of a lower case ASCII letter; other characters are left as they are.
pub fn to_ascii_upper(l: char) -> (r: char)
    ensures
        r == ascii_upper(l),
{
    if l == 'a' {
        'A'
    } else if l == 'b' {
        'B'
    } else if l == 'c' {
        'C'
    } else if l == 'd' {
        'D'
    } else if l == 'e' {
        'E'
    } else if l == 'f' {
        'F'
    } else if l == 'g' {
        'G'
    } else if l == 'h' {
        'H'
    } else if l == 'i' {
        'I'
    } else if l == 'j' {
        'J'
    } else if l == 'k' {
        'K'
    } else if l == 'l' {
        'L'
    } else if l == 'm' {
        'M'
    } else if l == 'n' {
        'N'
    } else if l == 'o' {
        'O'
    } else if l == 'p' {
        'P'
    } else if l == 'q' {
        'Q'
    } else if l == 'r' {
        'R'
    } else if l == 's' {
        'S'
    } else if l == 't' {
        'T'
    } else if l == 'u' {
        'U'
    } else if l == 'v' {
        'V'
    } else if l == 'w' {
        'W'
    } else if l == 'x' {
        'X'
    } else if l == 'y' {
        'Y'
    } else if l == 'z' {
        'Z'
    } else {
        l
    }
}

/// The value of a decimal digit.
pub fn digit_of(c: char) -> (d: u8)
    requires
        is_digit(c),
    ensures
        d as int == digit_value(c),
        d < 10,
{
    if c == '0' {
        0
    } else if c == '1' {
        1
    } else if c == '2' {
        2
    } else if c == '3' {
        3
    } else if c == '4' {
        4
    } else if c == '5' {
        5
    } else if c == '6' {
        6
    } else if c == '7' {
        7
    } else if c == '8' {
        8
    } else {
        9
    }
}

/// Whether `t` equals the lower case ASCII text `l`, ignoring ASCII case.
pub open spec fn ci_eq(t: Seq<char>, l: Seq<char>) -> bool {
    t.len() == l.len() && forall|k: int| 0 <= k < t.len() ==> ci_char_eq(#[trigger] t[k], l[k])
}

/// `s` without a leading `+` or `-`.
pub open spec fn strip_sign(s: Seq<char>) -> Seq<char> {
    if s.len() > 0 && (s[0] == '+' || s[0] == '-') {
        s.drop_first()
    } else {
        s
    }
}

/// The mantissa of a decimal number: digits with at most one `.`, and at least one digit.
pub open spec fn is_mantissa(m: Seq<char>) -> bool {
    &&& forall|k: int| 0 <= k < m.len() ==> is_digit(#[trigger] m[k]) || m[k] == '.'
    &&& forall|j: int, k: int|
        0 <= j < m.len() && 0 <= k < m.len() && #[trigger] m[j] == '.' && #[trigger] m[k] == '.'
            ==> j == k
    &&& exists|k: int| 0 <= k < m.len() && is_digit(#[trigger] m[k])
}

/// The exponent part of a decimal number: empty, or `e` or `E`, an optional sign and digits.
pub open spec fn is_exponent(x: Seq<char>) -> bool {
    x.len() == 0 || ((x[0] == 'e' || x[0] == 'E') && unsigned_digits(strip_sign(x.drop_first()))
        is Some)
}

/// The first index at or after `i` that holds `e` or `E` (or the end).
pub open spec fn find_exp(s: Seq<char>, i: int) -> int
    decreases s.len() - i,
{
    if 0 <= i < s.len() && s[i] != 'e' && s[i] != 'E' {
        find_exp(s, i + 1)
    } else {
        i
    }
}

/// A decimal number: a mantissa and an optional exponent.
pub open spec fn is_decimal(t: Seq<char>) -> bool {
    let e = find_exp(t, 0);
    is_mantissa(t.take(e)) && is_exponent(t.skip(e))
}

/// The words that `str::parse::<f64>` accepts, by the grammar that its documentation gives:
/// an optional sign, then `inf`, `infinity`, `nan` (in any case) or a decimal number.
pub open spec fn spec_is_float(s: Seq<char>) -> bool {
    let t = strip_sign(s);
    ||| ci_eq(t, seq!['i', 'n', 'f'])
    ||| ci_eq(t, seq!['i', 'n', 'f', 'i', 'n', 'i', 't', 'y'])
    ||| ci_eq(t, seq!['n', 'a', 'n'])
    ||| is_decimal(t)
}

pub proof fn lemma_find_exp(s: Seq<char>, i: int)
    requires
        0 <= i <= s.len(),
    ensures
        i <= find_exp(s, i) <= s.len(),
        forall|k: int| i <= k < find_exp(s, i) ==> #[trigger] s[k] != 'e' && s[k] != 'E',
        find_exp(s, i) < s.len() ==> s[find_exp(s, i)] == 'e' || s[find_exp(s, i)] == 'E',
    decreases s.len() - i,
{
    if i < s.len() && s[i] != 'e' && s[i] != 'E' {
        lemma_find_exp(s, i + 1);
    }
}

fn ci_matches(t: &Vec<char>, from: usize, l: &Vec<char>) -> (r: bool)
    requires
        from <= t.len(),
    ensures
        r == ci_eq(t@.skip(from as int), l@),
{
    if t.len() - from != l.len() {
        return false;
    }
    let mut k: usize = 0;
    while k < l.len()
        invariant
            k <= l.len() == t.len() - from,
            forall|m: int| 0 <= m < k ==> ci_char_eq(t@[from + m], l@[m]),
        decreases l.len() - k,
    {
        let c = t[from + k];
        let lc = l[k];
        if !(c == lc || c == to_ascii_upper(lc)) {
            assert(t@.skip(from as int)[k as int] == c);
            return false;
        }
        assert(ci_char_eq(c, lc));
        assert(ci_char_eq(t@[from + k], l@[k as int]));
        k += 1;
    }
    assert forall|m: int| 0 <= m < t@.skip(from as int).len() implies ci_char_eq(
        #[trigger] t@.skip(from as int)[m],
        l@[m],
    ) by {
        assert(t@.skip(from as int)[m] == t@[from + m]);
    }
    true
}

fn is_mantissa_at(t: &Vec<char>, from: usize, to: usize) -> (r: bool)
    requires
        from <= to <= t.len(),
    ensures
        r == is_mantissa(t@.subrange(from as int, to as int)),
{
    let ghost m = t@.subrange(from as int, to as int);
    let mut dots: usize = 0;
    let mut digits = false;
    let mut dot_at: usize = 0;
    let mut k: usize = from;
    while k < to
        invariant
            from <= k <= to <= t.len(),
            m == t@.subrange(from as int, to as int),
            forall|j: int| 0 <= j < k - from ==> is_digit(#[trigger] m[j]) || m[j] == '.',
            dots <= 1,
            dots == 0 ==> forall|j: int| 0 <= j < k - from ==> #[trigger] m[j] != '.',
            dots == 1 ==> from <= dot_at < k && m[dot_at - from] == '.' && forall|j: int|
                0 <= j < k - from && #[trigger] m[j] == '.' ==> j == dot_at - from,
            digits <==> exists|j: int| 0 <= j < k - from && is_digit(#[trigger] m[j]),
        decreases to - k,
    {
        let c = t[k];
        assert(m[k - from] == c);
        if '0' <= c && c <= '9' {
            digits = true;
        } else if c == '.' {
            if dots == 1 {
                return false;
            }
            dots = 1;
            dot_at = k;
        } else {
            return false;
        }
        k += 1;
    }
    digits
}

fn is_exponent_at(t: &Vec<char>, from: usize) -> (r: bool)
    requires
        from <= t.len(),
    ensures
        r == is_exponent(t@.skip(from as int)),
{
    let ghost x = t@.skip(from as int);
    if from == t.len() {
        return true;
    }
    if t[from] != 'e' && t[from] != 'E' {
        return false;
    }
    let mut s: usize = from + 1;
    if s < t.len() && (t[s] == '+' || t[s] == '-') {
        s = s + 1;
    }
    assert(strip_sign(x.drop_first()) =~= t@.skip(s as int));
    if s >= t.len() {
        return false;
    }
    let mut k: usize = s;
    while k < t.len()
        invariant
            s <= k <= t.len(),
            x == t@.skip(from as int),
            x.len() > 0,
            x[0] == 'e' || x[0] == 'E',
            strip_sign(x.drop_first()) == t@.skip(s as int),
            s < t.len(),
            forall|j: int| s <= j < k ==> is_digit(#[trigger] t@[j]),
        decreases t.len() - k,
    {
        if !('0' <= t[k] && t[k] <= '9') {
            assert(t@.skip(s as int)[k - s] == t@[k as int]);
            return false;
        }
        k += 1;
    }
    assert(all_digits(t@.skip(s as int))) by {
        assert forall|j: int| 0 <= j < t@.skip(s as int).len() implies is_digit(
            #[trigger] t@.skip(s as int)[j],
        ) by {
            assert(t@.skip(s as int)[j] == t@[s + j]);
        }
    }
    true
}

/// Whether a word is a floating point number, as `str::parse::<f64>` accepts it.
pub fn is_float(w: &Vec<char>) -> (r: bool)
    ensures
        r == spec_is_float(w@),
{
    let mut from: usize = 0;
    if w.len() > 0 && (w[0] == '+' || w[0] == '-') {
        from = 1;
    }
    let ghost t = strip_sign(w@);
    assert(t =~= w@.skip(from as int));
    let inf = chars_of("inf");
    let infinity = chars_of("infinity");
    let nan = chars_of("nan");
    proof {
        reveal_strlit("inf");
        reveal_strlit("infinity");
        reveal_strlit("nan");
        assert(inf@ =~= seq!['i', 'n', 'f']);
        assert(infinity@ =~= seq!['i', 'n', 'f', 'i', 'n', 'i', 't', 'y']);
        assert(nan@ =~= seq!['n', 'a', 'n']);
    }
    if ci_matches(w, from, &inf) || ci_matches(w, from, &infinity) || ci_matches(w, from, &nan) {
        return true;
    }
    let mut e: usize = from;
    while e < w.len() && w[e] != 'e' && w[e] != 'E'
        invariant
            from <= e <= w.len(),
            t == w@.skip(from as int),
            find_exp(t, e - from) == find_exp(t, 0),
        decreases w.len() - e,
    {
        assert(t[e - from] == w@[e as int]);
        e += 1;
    }
    proof {
        lemma_find_exp(t, 0);
        if e < w.len() {
            assert(t[e - from] == w@[e as int]);
        }
        assert(t.take(e - from) =~= w@.subrange(from as int, e as int));
        assert(t.skip(e - from) =~= w@.skip(e as int));
    }
    is_mantissa_at(w, from, e) && is_exponent_at(w, e)
}

} // verus!
