//! Character-level text handling: whitespace, words, comments and lines.
//!
//! All specifications work on the `Seq<char>` view of strings.
use vstd::prelude::*;

verus! {

/// The Unicode `White_Space` property, which is what `char::is_whitespace` tests.
pub open spec fn is_ws(c: char) -> bool {
    ||| ('\u{9}' <= c && c <= '\u{d}')
    ||| c == ' '
    ||| c == '\u{85}'
    ||| c == '\u{a0}'
    ||| c == '\u{1680}'
    ||| ('\u{2000}' <= c && c <= '\u{200a}')
    ||| c == '\u{2028}'
    ||| c == '\u{2029}'
    ||| c == '\u{202f}'
    ||| c == '\u{205f}'
    ||| c == '\u{3000}'
}

/// Every character of `s` is whitespace.
pub open spec fn all_ws(s: Seq<char>) -> bool {
    forall|k: int| 0 <= k < s.len() ==> is_ws(#[trigger] s[k])
}

/// No character of `s` is whitespace.
pub open spec fn no_ws(s: Seq<char>) -> bool {
    forall|k: int| 0 <= k < s.len() ==> !is_ws(#[trigger] s[k])
}

/// The first index at or after `i` that does not hold whitespace (or the end).
pub open spec fn skip_ws(s: Seq<char>, i: int) -> int
    decreases s.len() - i,
{
    if 0 <= i < s.len() && is_ws(s[i]) {
        skip_ws(s, i + 1)
    } else {
        i
    }
}

/// The first index at or after `i` that holds whitespace (or the end).
pub open spec fn skip_word(s: Seq<char>, i: int) -> int
    decreases s.len() - i,
{
    if 0 <= i < s.len() && !is_ws(s[i]) {
        skip_word(s, i + 1)
    } else {
        i
    }
}

/// The index just after the last non-whitespace character before `j` (or 0).
pub open spec fn rskip_ws(s: Seq<char>, j: int) -> int
    decreases j,
{
    if 0 < j <= s.len() && is_ws(s[j - 1]) {
        rskip_ws(s, j - 1)
    } else {
        j
    }
}

/// The first index at or after `i` that holds `c` (or the end).
pub open spec fn find_char(s: Seq<char>, i: int, c: char) -> int
    decreases s.len() - i,
{
    if 0 <= i < s.len() && s[i] != c {
        find_char(s, i + 1, c)
    } else {
        i
    }
}

pub proof fn lemma_skip_ws(s: Seq<char>, i: int)
    requires
        0 <= i <= s.len(),
    ensures
        i <= skip_ws(s, i) <= s.len(),
        forall|k: int| i <= k < skip_ws(s, i) ==> is_ws(#[trigger] s[k]),
        skip_ws(s, i) < s.len() ==> !is_ws(s[skip_ws(s, i)]),
    decreases s.len() - i,
{
    if i < s.len() && is_ws(s[i]) {
        lemma_skip_ws(s, i + 1);
    }
}

pub proof fn lemma_skip_word(s: Seq<char>, i: int)
    requires
        0 <= i <= s.len(),
    ensures
        i <= skip_word(s, i) <= s.len(),
        forall|k: int| i <= k < skip_word(s, i) ==> !is_ws(#[trigger] s[k]),
        skip_word(s, i) < s.len() ==> is_ws(s[skip_word(s, i)]),
    decreases s.len() - i,
{
    if i < s.len() && !is_ws(s[i]) {
        lemma_skip_word(s, i + 1);
    }
}

pub proof fn lemma_rskip_ws(s: Seq<char>, j: int)
    requires
        0 <= j <= s.len(),
    ensures
        0 <= rskip_ws(s, j) <= j,
        forall|k: int| rskip_ws(s, j) <= k < j ==> is_ws(#[trigger] s[k]),
        rskip_ws(s, j) > 0 ==> !is_ws(s[rskip_ws(s, j) - 1]),
    decreases j,
{
    if 0 < j && is_ws(s[j - 1]) {
        lemma_rskip_ws(s, j - 1);
    }
}

pub proof fn lemma_find_char(s: Seq<char>, i: int, c: char)
    requires
        0 <= i <= s.len(),
    ensures
        i <= find_char(s, i, c) <= s.len(),
        forall|k: int| i <= k < find_char(s, i, c) ==> #[trigger] s[k] != c,
        find_char(s, i, c) < s.len() ==> s[find_char(s, i, c)] == c,
    decreases s.len() - i,
{
    if i < s.len() && s[i] != c {
        lemma_find_char(s, i + 1, c);
    }
}

/// `s` with leading whitespace removed (`str::trim_start`).
pub open spec fn trim_start(s: Seq<char>) -> Seq<char> {
    s.subrange(skip_ws(s, 0), s.len() as int)
}

/// `s` with trailing whitespace removed (`str::trim_end`).
pub open spec fn trim_end(s: Seq<char>) -> Seq<char> {
    s.subrange(0, rskip_ws(s, s.len() as int))
}

/// `s` with leading and trailing whitespace removed (`str::trim`).
pub open spec fn trim(s: Seq<char>) -> Seq<char> {
    trim_end(trim_start(s))
}

/// `s` starts with a whitespace character.
pub open spec fn starts_with_ws(s: Seq<char>) -> bool {
    s.len() > 0 && is_ws(s[0])
}

/// The first whitespace-separated word of `s` and everything after it.
pub open spec fn spec_next_word(s: Seq<char>) -> Option<(Seq<char>, Seq<char>)> {
    let a = skip_ws(s, 0);
    if a >= s.len() {
        None
    } else {
        let b = skip_word(s, a);
        Some((s.subrange(a, b), s.subrange(b, s.len() as int)))
    }
}

/// The whitespace-separated words of `s` from index `i` on (`str::split_whitespace`).
pub open spec fn words_from(s: Seq<char>, i: int) -> Seq<Seq<char>>
    decreases s.len() - i,
{
    if 0 <= i <= s.len() {
        let a = skip_ws(s, i);
        if a >= s.len() {
            seq![]
        } else {
            let b = skip_word(s, a);
            proof {
                lemma_skip_ws(s, i);
                lemma_skip_word(s, a);
            }
            seq![s.subrange(a, b)] + words_from(s, b)
        }
    } else {
        seq![]
    }
}

/// The whitespace-separated words of `s`.
pub open spec fn words(s: Seq<char>) -> Seq<Seq<char>> {
    words_from(s, 0)
}

/// The words that repeated `next_word` calls give: the first word, then those of the rest.
pub open spec fn next_words(s: Seq<char>) -> Seq<Seq<char>>
    decreases s.len(),
{
    match spec_next_word(s) {
        None => seq![],
        Some((w, rest)) => {
            proof {
                lemma_skip_ws(s, 0);
                lemma_skip_word(s, skip_ws(s, 0));
            }
            seq![w] + next_words(rest)
        },
    }
}

proof fn lemma_skip_shift(s: Seq<char>, a: int, k: int)
    requires
        0 <= a <= s.len(),
        0 <= k <= s.len() - a,
    ensures
        skip_ws(s.subrange(a, s.len() as int), k) + a == skip_ws(s, a + k),
        skip_word(s.subrange(a, s.len() as int), k) + a == skip_word(s, a + k),
    decreases s.len() - a - k,
{
    let t = s.subrange(a, s.len() as int);
    if k < t.len() {
        lemma_skip_shift(s, a, k + 1);
    }
}

proof fn lemma_words_from_shift(s: Seq<char>, a: int, k: int)
    requires
        0 <= a <= s.len(),
        0 <= k <= s.len() - a,
    ensures
        words_from(s.subrange(a, s.len() as int), k) == words_from(s, a + k),
    decreases s.len() - a - k,
{
    let t = s.subrange(a, s.len() as int);
    lemma_skip_shift(s, a, k);
    lemma_skip_ws(t, k);
    let c = skip_ws(t, k);
    if c < t.len() {
        lemma_skip_shift(s, a, c);
        lemma_skip_word(t, c);
        let d = skip_word(t, c);
        lemma_words_from_shift(s, a, d);
        assert(t.subrange(c, d) =~= s.subrange(a + c, a + d));
    }
}

/// Calling `next_word` again and again on what it leaves gives exactly the whitespace-separated
/// words of the text (`str::split_whitespace`), in order.
pub proof fn lemma_next_words(s: Seq<char>)
    ensures
        next_words(s) == words(s),
    decreases s.len(),
{
    lemma_skip_ws(s, 0);
    let a = skip_ws(s, 0);
    if a < s.len() {
        lemma_skip_word(s, a);
        let b = skip_word(s, a);
        let rest = s.subrange(b, s.len() as int);
        lemma_next_words(rest);
        lemma_words_from_shift(s, b, 0);
    }
}

/// The split of a line into data and comment: the comment starts at the first `#`.
pub open spec fn spec_split_comment(s: Seq<char>) -> (Seq<char>, Option<Seq<char>>) {
    let k = find_char(s, 0, '#');
    if k < s.len() {
        (s.subrange(0, k), Some(s.subrange(k, s.len() as int)))
    } else {
        (s, None)
    }
}

/// A line without its carriage return, if it ends in one.
pub open spec fn strip_cr(l: Seq<char>) -> Seq<char> {
    if l.len() > 0 && l.last() == '\r' {
        l.drop_last()
    } else {
        l
    }
}

/// The lines of `s` from index `i` on, as `str::lines` splits them: at `\n` or `\r\n`, with no
/// empty line after a final line ending.
pub open spec fn lines_from(s: Seq<char>, i: int) -> Seq<Seq<char>>
    decreases s.len() - i,
{
    if 0 <= i < s.len() {
        let e = find_char(s, i, '\n');
        proof {
            lemma_find_char(s, i, '\n');
        }
        if e < s.len() {
            seq![strip_cr(s.subrange(i, e))] + lines_from(s, e + 1)
        } else {
            seq![s.subrange(i, e)]
        }
    } else {
        seq![]
    }
}

/// The lines of `s`.
pub open spec fn lines(s: Seq<char>) -> Seq<Seq<char>> {
    lines_from(s, 0)
}

proof fn lemma_find_char_prefix(x: Seq<char>, y: Seq<char>, i: int, c: char)
    requires
        0 <= i < x.len(),
        x[x.len() - 1] == c,
    ensures
        find_char(x + y, i, c) == find_char(x, i, c),
    decreases x.len() - i,
{
    assert((x + y)[i] == x[i]);
    if x[i] != c {
        lemma_find_char_prefix(x, y, i + 1, c);
    }
}

proof fn lemma_find_char_shift(s: Seq<char>, a: int, k: int, c: char)
    requires
        0 <= a <= s.len(),
        0 <= k <= s.len() - a,
    ensures
        find_char(s, a + k, c) == a + find_char(s.subrange(a, s.len() as int), k, c),
    decreases s.len() - a - k,
{
    if k < s.len() - a {
        lemma_find_char_shift(s, a, k + 1, c);
    }
}

proof fn lemma_lines_shift(s: Seq<char>, a: int, k: int)
    requires
        0 <= a <= s.len(),
        0 <= k <= s.len() - a,
    ensures
        lines_from(s, a + k) == lines_from(s.subrange(a, s.len() as int), k),
    decreases s.len() - a - k,
{
    let t = s.subrange(a, s.len() as int);
    if k < t.len() {
        lemma_find_char_shift(s, a, k, '\n');
        lemma_find_char(t, k, '\n');
        let e = find_char(t, k, '\n');
        assert(s.subrange(a + k, a + e) =~= t.subrange(k, e));
        if e < t.len() {
            lemma_lines_shift(s, a, e + 1);
        }
    }
}

proof fn lemma_lines_from_concat(x: Seq<char>, y: Seq<char>, i: int)
    requires
        0 <= i <= x.len(),
        x.len() == 0 || x[x.len() - 1] == '\n',
    ensures
        lines_from(x + y, i) == lines_from(x, i) + lines(y),
    decreases x.len() - i,
{
    let s = x + y;
    if i == x.len() {
        lemma_lines_shift(s, x.len() as int, 0);
        assert(s.subrange(x.len() as int, s.len() as int) =~= y);
        assert(lines_from(x, i) =~= seq![]);
        assert(lines_from(x, i) + lines(y) =~= lines(y));
    } else {
        lemma_find_char_prefix(x, y, i, '\n');
        lemma_find_char(x, i, '\n');
        let e = find_char(x, i, '\n');
        assert(s.subrange(i, e) =~= x.subrange(i, e));
        lemma_lines_from_concat(x, y, e + 1);
        assert(seq![strip_cr(x.subrange(i, e))] + (lines_from(x, e + 1) + lines(y)) =~= (seq![
            strip_cr(x.subrange(i, e)),
        ] + lines_from(x, e + 1)) + lines(y));
    }
}

/// The lines of two texts, the first empty or ending with a line break, are the lines of the
/// first followed by those of the second.
pub proof fn lemma_lines_concat(x: Seq<char>, y: Seq<char>)
    requires
        x.len() == 0 || x[x.len() - 1] == '\n',
    ensures
        lines(x + y) == lines(x) + lines(y),
{
    lemma_lines_from_concat(x, y, 0);
}

/// The lower case of a string, as `str::to_lowercase` computes it (Unicode `Lowercase` mapping).
pub uninterp spec fn lowercase(s: Seq<char>) -> Seq<char>;

/// `str::to_lowercase`: the result is the lower case mapping of the argument, `lowercase(s@)`.
/// Nothing is stated of what that mapping is for given characters.
#[verifier::external_body]
pub(crate) fn to_lowercase(s: &str) -> (r: String)
    ensures
        r@ == lowercase(s@),
{
    s.to_lowercase()
}

/// `String`'s `FromIterator<&char>`: the string made of the given characters in order.
#[verifier::external_body]
pub(crate) fn string_from_chars(v: &[char]) -> (r: String)
    ensures
        r@ == v@,
{
    v.iter().collect()
}

/// Whether `c` is whitespace (`char::is_whitespace`).
pub fn is_whitespace(c: char) -> (b: bool)
    ensures
        b == is_ws(c),
{
    ('\u{9}' <= c && c <= '\u{d}') || c == ' ' || c == '\u{85}' || c == '\u{a0}' || c
        == '\u{1680}' || ('\u{2000}' <= c && c <= '\u{200a}') || c == '\u{2028}' || c
        == '\u{2029}' || c == '\u{202f}' || c == '\u{205f}' || c == '\u{3000}'
}

/// The characters of `s` in order.
pub fn chars_of(s: &str) -> (v: Vec<char>)
    ensures
        v@ == s@,
{
    let mut v: Vec<char> = Vec::new();
    for c in it: s.chars()
        invariant
            v@ == it.seq().take(it.index()),
            it.seq() == s@,
    {
        v.push(c);
    }
    v
}

/// The characters of `s` from `i` up to `j`.
pub fn sub_chars(s: &Vec<char>, i: usize, j: usize) -> (r: Vec<char>)
    requires
        i <= j <= s.len(),
    ensures
        r@ == s@.subrange(i as int, j as int),
{
    let mut r: Vec<char> = Vec::new();
    let mut k: usize = i;
    while k < j
        invariant
            i <= k <= j <= s.len(),
            r@ == s@.subrange(i as int, k as int),
        decreases j - k,
    {
        r.push(s[k]);
        k += 1;
        assert(r@ =~= s@.subrange(i as int, k as int));
    }
    r
}

/// The string made of the characters of `s` from `i` up to `j`.
pub fn sub_string(s: &Vec<char>, i: usize, j: usize) -> (r: String)
    requires
        i <= j <= s.len(),
    ensures
        r@ == s@.subrange(i as int, j as int),
{
    let v = sub_chars(s, i, j);
    string_from_chars(v.as_slice())
}

/// Whether two character sequences are equal.
pub fn chars_eq(a: &Vec<char>, b: &Vec<char>) -> (r: bool)
    ensures
        r == (a@ == b@),
{
    if a.len() != b.len() {
        return false;
    }
    let mut k: usize = 0;
    while k < a.len()
        invariant
            k <= a.len() == b.len(),
            forall|m: int| 0 <= m < k ==> a@[m] == b@[m],
        decreases a.len() - k,
    {
        if a[k] != b[k] {
            return false;
        }
        k += 1;
    }
    assert(a@ =~= b@);
    true
}

/// The first index at or after `i` that does not hold whitespace.
pub fn skip_ws_at(s: &Vec<char>, i: usize) -> (r: usize)
    requires
        i <= s.len(),
    ensures
        r as int == skip_ws(s@, i as int),
        i <= r <= s.len(),
{
    proof {
        lemma_skip_ws(s@, i as int);
    }
    let mut k: usize = i;
    while k < s.len() && is_whitespace(s[k])
        invariant
            i <= k <= s.len(),
            skip_ws(s@, k as int) == skip_ws(s@, i as int),
        decreases s.len() - k,
    {
        k += 1;
    }
    k
}

/// The first index at or after `i` that holds whitespace.
pub fn skip_word_at(s: &Vec<char>, i: usize) -> (r: usize)
    requires
        i <= s.len(),
    ensures
        r as int == skip_word(s@, i as int),
        i <= r <= s.len(),
{
    proof {
        lemma_skip_word(s@, i as int);
    }
    let mut k: usize = i;
    while k < s.len() && !is_whitespace(s[k])
        invariant
            i <= k <= s.len(),
            skip_word(s@, k as int) == skip_word(s@, i as int),
        decreases s.len() - k,
    {
        k += 1;
    }
    k
}

/// The index just after the last non-whitespace character before `j`.
pub fn rskip_ws_at(s: &Vec<char>, j: usize) -> (r: usize)
    requires
        j <= s.len(),
    ensures
        r as int == rskip_ws(s@, j as int),
        r <= j,
{
    proof {
        lemma_rskip_ws(s@, j as int);
    }
    let mut k: usize = j;
    while k > 0 && is_whitespace(s[k - 1])
        invariant
            k <= j <= s.len(),
            rskip_ws(s@, k as int) == rskip_ws(s@, j as int),
        decreases k,
    {
        k -= 1;
    }
    k
}

/// The first index at or after `i` that holds `c`.
pub fn find_char_at(s: &Vec<char>, i: usize, c: char) -> (r: usize)
    requires
        i <= s.len(),
    ensures
        r as int == find_char(s@, i as int, c),
        i <= r <= s.len(),
{
    proof {
        lemma_find_char(s@, i as int, c);
    }
    let mut k: usize = i;
    while k < s.len() && s[k] != c
        invariant
            i <= k <= s.len(),
            find_char(s@, k as int, c) == find_char(s@, i as int, c),
        decreases s.len() - k,
    {
        k += 1;
    }
    k
}

/// `s` without leading and trailing whitespace.
pub fn trim_chars(s: &Vec<char>) -> (r: Vec<char>)
    ensures
        r@ == trim(s@),
{
    let a = skip_ws_at(s, 0);
    let t = sub_chars(s, a, s.len());
    let b = rskip_ws_at(&t, t.len());
    sub_chars(&t, 0, b)
}

/// Splits off the first whitespace-separated word of `input`.
///
/// Returns `None` if `input` holds only whitespace. Otherwise returns the first word and the rest
/// of the input after it; the rest is empty or starts with whitespace.
pub fn next_word(input: &str) -> (r: Option<(&str, &str)>)
    ensures
        match r {
            None => spec_next_word(input@) is None,
            Some((w, rest)) => spec_next_word(input@) == Some((w@, rest@)),
        },
        r is None <==> all_ws(input@),
        r matches Some((w, rest)) ==> {
            &&& w@.len() > 0
            &&& no_ws(w@)
            &&& rest@.len() == 0 || is_ws(rest@[0])
            &&& input@ == input@.subrange(0, input@.len() - w@.len() - rest@.len()) + w@ + rest@
            &&& all_ws(input@.subrange(0, input@.len() - w@.len() - rest@.len()))
        },
{
    let s = chars_of(input);
    let a = skip_ws_at(&s, 0);
    proof {
        lemma_skip_ws(s@, 0);
    }
    if a >= s.len() {
        return None;
    }
    let b = skip_word_at(&s, a);
    proof {
        lemma_skip_word(s@, a as int);
        assert(input@ =~= input@.subrange(0, a as int) + input@.subrange(a as int, b as int)
            + input@.subrange(b as int, input@.len() as int));
    }
    let w = input.substring_char(a, b);
    let rest = input.substring_char(b, s.len());
    Some((w, rest))
}

/// Splits a line into its data and its comment, which starts at the first `#`.
pub fn split_comment(line: &Vec<char>) -> (r: (Vec<char>, Option<Vec<char>>))
    ensures
        (r.0@, match r.1 {
            Some(c) => Some(c@),
            None => None,
        }) == spec_split_comment(line@),
{
    let k = find_char_at(line, 0, '#');
    if k < line.len() {
        (sub_chars(line, 0, k), Some(sub_chars(line, k, line.len())))
    } else {
        (sub_chars(line, 0, line.len()), None)
    }
}

/// The whitespace-separated words of `s`.
pub fn split_words(s: &Vec<char>) -> (r: Vec<String>)
    ensures
        r.deep_view() == words(s@),
{
    let mut r: Vec<String> = Vec::new();
    let mut i: usize = 0;
    while i < s.len()
        invariant
            i <= s.len(),
            r.deep_view() + words_from(s@, i as int) == words(s@),
        decreases s.len() - i,
    {
        let a = skip_ws_at(s, i);
        if a >= s.len() {
            i = s.len();
            assert(words_from(s@, s.len() as int) =~= seq![]);
        } else {
            let b = skip_word_at(s, a);
            proof {
                lemma_skip_ws(s@, i as int);
                lemma_skip_word(s@, a as int);
            }
            let w = sub_string(s, a, b);
            let ghost old_r = r.deep_view();
            r.push(w);
            assert(r.deep_view() =~= old_r + seq![w@]);
            i = b;
        }
    }
    assert(words_from(s@, s.len() as int) =~= seq![]) by {
        lemma_skip_ws(s@, s.len() as int);
    }
    assert(r.deep_view() =~= r.deep_view() + words_from(s@, i as int));
    r
}

/// The lines of `input`, as `str::lines` splits them.
pub fn split_lines(input: &Vec<char>) -> (r: Vec<Vec<char>>)
    ensures
        r.deep_view() == lines(input@),
{
    let mut r: Vec<Vec<char>> = Vec::new();
    let mut i: usize = 0;
    while i < input.len()
        invariant
            i <= input.len(),
            r.deep_view() + lines_from(input@, i as int) == lines(input@),
        decreases input.len() - i,
    {
        let e = find_char_at(input, i, '\n');
        let ghost old_r = r.deep_view();
        if e < input.len() {
            let mut end = e;
            if end > i && input[end - 1] == '\r' {
                end = end - 1;
            }
            let l = sub_chars(input, i, end);
            assert(l@ == strip_cr(input@.subrange(i as int, e as int)));
            assert(l.deep_view() =~= l@);
            r.push(l);
            assert(r.deep_view() =~= old_r + seq![l@]);
            i = e + 1;
        } else {
            let l = sub_chars(input, i, e);
            assert(l.deep_view() =~= l@);
            r.push(l);
            assert(r.deep_view() =~= old_r + seq![l@]);
            assert(lines_from(input@, e as int) =~= seq![]);
            i = e;
        }
    }
    assert(r.deep_view() =~= r.deep_view() + lines_from(input@, i as int));
    r
}

} // verus!
