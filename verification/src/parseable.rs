//! Values that can be read from the words of a line in an SLHA file.
use vstd::prelude::*;
use crate::errors::{Error, ErrorKind, ErrorKindView, ErrorView, err};
use crate::number::{is_float, parse_int, spec_is_float, spec_parse_int};
use crate::text::{chars_of, split_words, words};

verus! {

/// The text of a floating point number, as an SLHA file writes it.
///
/// The text is one that `str::parse::<f64>` accepts (see `spec_is_float`); converting it into a
/// number is left to the caller.
#[derive(Debug)]
pub struct Real {
    text: String,
}

impl View for Real {
    type V = Seq<char>;

    closed spec fn view(&self) -> Seq<char> {
        self.text@
    }
}

impl DeepView for Real {
    type V = Seq<char>;

    open spec fn deep_view(&self) -> Seq<char> {
        self@
    }
}

impl Real {
    #[verifier::type_invariant]
    spec fn wf(&self) -> bool {
        spec_is_float(self.text@)
    }

    /// The number written as `s`, if `s` is the text of a floating point number.
    pub fn new(s: &str) -> (r: Option<Real>)
        ensures
            r is Some <==> spec_is_float(s@),
            r matches Some(x) ==> x@ == s@,
    {
        let w = chars_of(s);
        if is_float(&w) {
            Some(Real { text: s.to_owned() })
        } else {
            None
        }
    }

    /// The text of this number.
    pub fn as_str(&self) -> (r: &str)
        ensures
            r@ == self@,
            spec_is_float(r@),
    {
        proof {
            use_type_invariant(self);
        }
        self.text.as_str()
    }
}

impl Clone for Real {
    fn clone(&self) -> (r: Self)
        ensures
            r@ == self@,
    {
        proof {
            use_type_invariant(self);
        }
        Real { text: self.text.clone() }
    }
}

impl PartialEq for Real {
    fn eq(&self, other: &Self) -> (r: bool) {
        self.text == other.text
    }
}

impl vstd::std_specs::cmp::PartialEqSpecImpl for Real {
    open spec fn obeys_eq_spec() -> bool {
        true
    }

    open spec fn eq_spec(&self, other: &Self) -> bool {
        self@ == other@
    }
}

/// A type whose values are read from a single word.
pub trait ParseableWord: Sized + DeepView {
    /// The value that a word denotes, or the kind of error that reading it gives.
    spec fn spec_parse_word(w: Seq<char>) -> Result<<Self as DeepView>::V, ErrorKindView>;

    /// Reads a value from a single word.
    fn parse_word(input: &str) -> (r: Result<Self, Error>)
        ensures
            match r {
                Ok(v) => Self::spec_parse_word(input@) == Ok::<<Self as DeepView>::V, ErrorKindView>(
                    v.deep_view(),
                ),
                Err(e) => Self::spec_parse_word(input@) == Err::<<Self as DeepView>::V, ErrorKindView>(
                    e@.0,
                ) && e@.1.len() == 0,
            },
    ;

    /// Whether two values are equal.
    fn same_word(&self, other: &Self) -> (b: bool)
        ensures
            b == (self.deep_view() == other.deep_view()),
    ;
}

impl ParseableWord for i8 {
    /// A decimal integer in the range of `i8`.
    open spec fn spec_parse_word(w: Seq<char>) -> Result<i8, ErrorKindView> {
        match spec_parse_int(w, true, i8::MIN as int, i8::MAX as int) {
            Some(v) => Ok(v as i8),
            None => Err(ErrorKindView::InvalidInt(w)),
        }
    }

    fn parse_word(input: &str) -> (r: Result<i8, Error>) {
        let w = chars_of(input);
        match parse_int(&w, true, i8::MIN as i128, i8::MAX as i128) {
            Some(v) => Ok(v as i8),
            None => Err(Error::new(ErrorKind::InvalidInt(input.to_owned()))),
        }
    }

    fn same_word(&self, other: &Self) -> (b: bool) {
        *self == *other
    }
}

impl ParseableWord for i16 {
    /// A decimal integer in the range of `i16`.
    open spec fn spec_parse_word(w: Seq<char>) -> Result<i16, ErrorKindView> {
        match spec_parse_int(w, true, i16::MIN as int, i16::MAX as int) {
            Some(v) => Ok(v as i16),
            None => Err(ErrorKindView::InvalidInt(w)),
        }
    }

    fn parse_word(input: &str) -> (r: Result<i16, Error>) {
        let w = chars_of(input);
        match parse_int(&w, true, i16::MIN as i128, i16::MAX as i128) {
            Some(v) => Ok(v as i16),
            None => Err(Error::new(ErrorKind::InvalidInt(input.to_owned()))),
        }
    }

    fn same_word(&self, other: &Self) -> (b: bool) {
        *self == *other
    }
}

impl ParseableWord for i32 {
    /// A decimal integer in the range of `i32`.
    open spec fn spec_parse_word(w: Seq<char>) -> Result<i32, ErrorKindView> {
        match spec_parse_int(w, true, i32::MIN as int, i32::MAX as int) {
            Some(v) => Ok(v as i32),
            None => Err(ErrorKindView::InvalidInt(w)),
        }
    }

    fn parse_word(input: &str) -> (r: Result<i32, Error>) {
        let w = chars_of(input);
        match parse_int(&w, true, i32::MIN as i128, i32::MAX as i128) {
            Some(v) => Ok(v as i32),
            None => Err(Error::new(ErrorKind::InvalidInt(input.to_owned()))),
        }
    }

    fn same_word(&self, other: &Self) -> (b: bool) {
        *self == *other
    }
}

impl ParseableWord for i64 {
    /// A decimal integer in the range of `i64`.
    open spec fn spec_parse_word(w: Seq<char>) -> Result<i64, ErrorKindView> {
        match spec_parse_int(w, true, i64::MIN as int, i64::MAX as int) {
            Some(v) => Ok(v as i64),
            None => Err(ErrorKindView::InvalidInt(w)),
        }
    }

    fn parse_word(input: &str) -> (r: Result<i64, Error>) {
        let w = chars_of(input);
        match parse_int(&w, true, i64::MIN as i128, i64::MAX as i128) {
            Some(v) => Ok(v as i64),
            None => Err(Error::new(ErrorKind::InvalidInt(input.to_owned()))),
        }
    }

    fn same_word(&self, other: &Self) -> (b: bool) {
        *self == *other
    }
}

impl ParseableWord for u8 {
    /// A decimal integer in the range of `u8`.
    open spec fn spec_parse_word(w: Seq<char>) -> Result<u8, ErrorKindView> {
        match spec_parse_int(w, false, u8::MIN as int, u8::MAX as int) {
            Some(v) => Ok(v as u8),
            None => Err(ErrorKindView::InvalidInt(w)),
        }
    }

    fn parse_word(input: &str) -> (r: Result<u8, Error>) {
        let w = chars_of(input);
        match parse_int(&w, false, u8::MIN as i128, u8::MAX as i128) {
            Some(v) => Ok(v as u8),
            None => Err(Error::new(ErrorKind::InvalidInt(input.to_owned()))),
        }
    }

    fn same_word(&self, other: &Self) -> (b: bool) {
        *self == *other
    }
}

impl ParseableWord for u16 {
    /// A decimal integer in the range of `u16`.
    open spec fn spec_parse_word(w: Seq<char>) -> Result<u16, ErrorKindView> {
        match spec_parse_int(w, false, u16::MIN as int, u16::MAX as int) {
            Some(v) => Ok(v as u16),
            None => Err(ErrorKindView::InvalidInt(w)),
        }
    }

    fn parse_word(input: &str) -> (r: Result<u16, Error>) {
        let w = chars_of(input);
        match parse_int(&w, false, u16::MIN as i128, u16::MAX as i128) {
            Some(v) => Ok(v as u16),
            None => Err(Error::new(ErrorKind::InvalidInt(input.to_owned()))),
        }
    }

    fn same_word(&self, other: &Self) -> (b: bool) {
        *self == *other
    }
}

impl ParseableWord for u32 {
    /// A decimal integer in the range of `u32`.
    open spec fn spec_parse_word(w: Seq<char>) -> Result<u32, ErrorKindView> {
        match spec_parse_int(w, false, u32::MIN as int, u32::MAX as int) {
            Some(v) => Ok(v as u32),
            None => Err(ErrorKindView::InvalidInt(w)),
        }
    }

    fn parse_word(input: &str) -> (r: Result<u32, Error>) {
        let w = chars_of(input);
        match parse_int(&w, false, u32::MIN as i128, u32::MAX as i128) {
            Some(v) => Ok(v as u32),
            None => Err(Error::new(ErrorKind::InvalidInt(input.to_owned()))),
        }
    }

    fn same_word(&self, other: &Self) -> (b: bool) {
        *self == *other
    }
}

impl ParseableWord for u64 {
    /// A decimal integer in the range of `u64`.
    open spec fn spec_parse_word(w: Seq<char>) -> Result<u64, ErrorKindView> {
        match spec_parse_int(w, false, u64::MIN as int, u64::MAX as int) {
            Some(v) => Ok(v as u64),
            None => Err(ErrorKindView::InvalidInt(w)),
        }
    }

    fn parse_word(input: &str) -> (r: Result<u64, Error>) {
        let w = chars_of(input);
        match parse_int(&w, false, u64::MIN as i128, u64::MAX as i128) {
            Some(v) => Ok(v as u64),
            None => Err(Error::new(ErrorKind::InvalidInt(input.to_owned()))),
        }
    }

    fn same_word(&self, other: &Self) -> (b: bool) {
        *self == *other
    }
}

impl ParseableWord for String {
    /// Any word, taken as it is.
    open spec fn spec_parse_word(w: Seq<char>) -> Result<Seq<char>, ErrorKindView> {
        Ok(w)
    }

    fn parse_word(input: &str) -> (r: Result<String, Error>) {
        Ok(input.to_owned())
    }

    fn same_word(&self, other: &Self) -> (b: bool) {
        *self == *other
    }
}

impl ParseableWord for Real {
    /// A word that `str::parse::<f64>` accepts.
    open spec fn spec_parse_word(w: Seq<char>) -> Result<Seq<char>, ErrorKindView> {
        if spec_is_float(w) {
            Ok(w)
        } else {
            Err(ErrorKindView::InvalidFloat(w))
        }
    }

    fn parse_word(input: &str) -> (r: Result<Real, Error>) {
        match Real::new(input) {
            Some(x) => Ok(x),
            None => Err(Error::new(ErrorKind::InvalidFloat(input.to_owned()))),
        }
    }

    fn same_word(&self, other: &Self) -> (b: bool) {
        self.text == other.text
    }
}

/// The views of a sequence of words.
pub open spec fn words_view(ws: Seq<String>) -> Seq<Seq<char>> {
    ws.map_values(|w: String| w@)
}

/// The value of type `T` read from the word at index `i`; a missing word is an unexpected end of
/// line.
pub open spec fn word_at<T: ParseableWord>(words: Seq<Seq<char>>, i: int) -> Result<
    <T as DeepView>::V,
    ErrorKindView,
> {
    if 0 <= i < words.len() {
        T::spec_parse_word(words[i])
    } else {
        Err(ErrorKindView::UnexpectedEol)
    }
}

/// Reads a value of type `T` from the word at index `i`.
pub fn parse_word_at<T: ParseableWord>(words: &[String], i: usize) -> (r: Result<T, Error>)
    requires
        i <= words@.len(),
    ensures
        match r {
            Ok(v) => word_at::<T>(words_view(words@), i as int) == Ok::<<T as DeepView>::V, ErrorKindView>(
                v.deep_view(),
            ) && i < words.len(),
            Err(e) => word_at::<T>(words_view(words@), i as int) == Err::<<T as DeepView>::V, ErrorKindView>(
                e@.0,
            ) && e@.1.len() == 0,
        },
{
    if i < words.len() {
        T::parse_word(words[i].as_str())
    } else {
        Err(Error::new(ErrorKind::UnexpectedEol))
    }
}

/// The values of type `T` read from the words at indices `s..e`, or the first error.
pub open spec fn words_in<T: ParseableWord>(words: Seq<Seq<char>>, s: int, e: int) -> Result<
    Seq<<T as DeepView>::V>,
    ErrorKindView,
>
    decreases e - s,
{
    if e <= s {
        Ok(seq![])
    } else {
        match words_in::<T>(words, s, e - 1) {
            Err(x) => Err(x),
            Ok(vs) => match T::spec_parse_word(words[e - 1]) {
                Ok(v) => Ok(vs.push(v)),
                Err(x) => Err(x),
            },
        }
    }
}

/// Once reading the words in `s..e` fails, reading any longer range fails the same way.
pub proof fn lemma_words_in_err<T: ParseableWord>(words: Seq<Seq<char>>, s: int, e: int, f: int)
    requires
        s <= e <= f,
        words_in::<T>(words, s, e) is Err,
    ensures
        words_in::<T>(words, s, f) == words_in::<T>(words, s, e),
    decreases f - e,
{
    if f > e {
        lemma_words_in_err::<T>(words, s, e, f - 1);
    }
}

/// The value of type `T` read from a whole line of words: it must use all of them.
pub open spec fn spec_parse_all<T: Parseable>(words: Seq<Seq<char>>) -> Result<
    <T as DeepView>::V,
    ErrorView,
> {
    match T::spec_parse(words, 0) {
        Err(k) => Err(err(k)),
        Ok((v, e)) => if e == words.len() {
            Ok(v)
        } else {
            Err(err(ErrorKindView::IncompleteParse(words.subrange(e, words.len() as int))))
        },
    }
}

/// A type whose values are read from a sequence of words.
pub trait Parseable: Sized + DeepView {
    /// The number of words a value takes, if fixed.
    spec fn spec_length() -> Option<nat>;

    /// The number of words a value takes, if fixed.
    fn length() -> (r: Option<u8>)
        ensures
            r is None <==> Self::spec_length() is None,
            r matches Some(n) ==> Self::spec_length() == Some(n as nat),
    ;

    /// The value read from the words starting at index `start`, and the index after the last
    /// word used; or the kind of error that reading it gives.
    spec fn spec_parse(words: Seq<Seq<char>>, start: int) -> Result<
        (<Self as DeepView>::V, int),
        ErrorKindView,
    >;

    /// Reads a value from the words starting at index `start`.
    ///
    /// Returns the value and the index after the last word used.
    fn parse(words: &[String], start: usize) -> (r: Result<(Self, usize), Error>)
        requires
            start <= words@.len(),
        ensures
            match r {
                Ok((v, e)) => Self::spec_parse(words_view(words@), start as int) == Ok::<
                    (<Self as DeepView>::V, int),
                    ErrorKindView,
                >((v.deep_view(), e as int)) && start <= e <= words@.len(),
                Err(x) => Self::spec_parse(words_view(words@), start as int) == Err::<
                    (<Self as DeepView>::V, int),
                    ErrorKindView,
                >(x@.0) && x@.1.len() == 0,
            },
    ;

    /// Whether two values are equal.
    fn same(&self, other: &Self) -> (b: bool)
        ensures
            b == (self.deep_view() == other.deep_view()),
    ;

}

/// Reads a value from all the given words; words left over are an error.
pub fn parse_all<T: Parseable>(words: &[String]) -> (r: Result<T, Error>)
    ensures
        match r {
            Ok(v) => spec_parse_all::<T>(words_view(words@)) == Ok::<
                <T as DeepView>::V,
                ErrorView,
            >(v.deep_view()),
            Err(x) => spec_parse_all::<T>(words_view(words@)) == Err::<
                <T as DeepView>::V,
                ErrorView,
            >(x@),
        },
{
    match T::parse(words, 0) {
        Err(x) => {
            assert(x@.1 =~= seq![]);
            Err(x)
        },
        Ok((v, e)) => {
            if e == words.len() {
                Ok(v)
            } else {
                let mut rest: Vec<String> = Vec::new();
                let mut i: usize = e;
                while i < words.len()
                    invariant
                        e <= i <= words@.len(),
                        rest.deep_view() == words_view(words@).subrange(e as int, i as int),
                    decreases words.len() - i,
                {
                    let w = words[i].clone();
                    let ghost old_rest = rest.deep_view();
                    rest.push(w);
                    assert(rest.deep_view() =~= old_rest.push(w@));
                    assert(words_view(words@).subrange(e as int, i + 1) =~= words_view(
                        words@,
                    ).subrange(e as int, i as int).push(words@[i as int]@));
                    i += 1;
                }
                let x = Error::new(ErrorKind::IncompleteParse(rest));
                Err(x)
            }
        },
    }
}

/// Reads a value from all whitespace-separated words of `input`.
pub fn parse_str<T: Parseable>(input: &str) -> (r: Result<T, Error>)
    ensures
        match r {
            Ok(v) => spec_parse_all::<T>(words(input@)) == Ok::<<T as DeepView>::V, ErrorView>(
                v.deep_view(),
            ),
            Err(x) => spec_parse_all::<T>(words(input@)) == Err::<
                <T as DeepView>::V,
                ErrorView,
            >(x@),
        },
{
    let cs = chars_of(input);
    let ws = split_words(&cs);
    assert(words_view(ws@) =~= ws.deep_view());
    parse_all::<T>(ws.as_slice())
}

impl<T: ParseableWord> Parseable for T {
    open spec fn spec_length() -> Option<nat> {
        Some(1)
    }

    fn length() -> (r: Option<u8>) {
        Some(1)
    }

    /// A single word.
    open spec fn spec_parse(words: Seq<Seq<char>>, start: int) -> Result<
        (<T as DeepView>::V, int),
        ErrorKindView,
    > {
        match word_at::<T>(words, start) {
            Ok(v) => Ok((v, start + 1)),
            Err(x) => Err(x),
        }
    }

    fn parse(words: &[String], start: usize) -> (r: Result<(T, usize), Error>) {
        match parse_word_at::<T>(words, start) {
            Ok(v) => Ok((v, start + 1)),
            Err(x) => Err(x),
        }
    }

    fn same(&self, other: &Self) -> (b: bool) {
        self.same_word(other)
    }
}

impl<T: ParseableWord> Parseable for Vec<T> {
    open spec fn spec_length() -> Option<nat> {
        None
    }

    fn length() -> (r: Option<u8>) {
        None
    }

    /// All the remaining words.
    open spec fn spec_parse(words: Seq<Seq<char>>, start: int) -> Result<
        (Seq<<T as DeepView>::V>, int),
        ErrorKindView,
    > {
        match words_in::<T>(words, start, words.len() as int) {
            Ok(vs) => Ok((vs, words.len() as int)),
            Err(x) => Err(x),
        }
    }

    fn parse(words: &[String], start: usize) -> (r: Result<(Vec<T>, usize), Error>) {
        let mut vs: Vec<T> = Vec::new();
        let mut i: usize = start;
        assert(vs.deep_view() =~= seq![]);
        while i < words.len()
            invariant
                start <= i <= words@.len(),
                words_in::<T>(words_view(words@), start as int, i as int) == Ok::<
                    Seq<<T as DeepView>::V>,
                    ErrorKindView,
                >(vs.deep_view()),
            decreases words.len() - i,
        {
            let ghost old_vs = vs.deep_view();
            match T::parse_word(words[i].as_str()) {
                Ok(v) => {
                    vs.push(v);
                    assert(vs.deep_view() =~= old_vs.push(v.deep_view()));
                },
                Err(x) => {
                    proof {
                        lemma_words_in_err::<T>(
                            words_view(words@),
                            start as int,
                            i + 1,
                            words@.len() as int,
                        );
                    }
                    return Err(x);
                },
            }
            i += 1;
        }
        Ok((vs, i))
    }

    fn same(&self, other: &Self) -> (b: bool) {
        if self.len() != other.len() {
            assert(self.deep_view().len() != other.deep_view().len());
            return false;
        }
        let mut k: usize = 0;
        while k < self.len()
            invariant
                k <= self.len() == other.len(),
                forall|m: int| 0 <= m < k ==> self.deep_view()[m] == other.deep_view()[m],
            decreases self.len() - k,
        {
            if !self[k].same_word(&other[k]) {
                assert(self.deep_view()[k as int] != other.deep_view()[k as int]);
                return false;
            }
            k += 1;
        }
        assert(self.deep_view() =~= other.deep_view());
        true
    }
}

impl<K1: ParseableWord, K2: ParseableWord> Parseable for (K1, K2) {
    open spec fn spec_length() -> Option<nat> {
        Some(2)
    }

    fn length() -> (r: Option<u8>) {
        Some(2)
    }

    /// One word for each component, in order.
    open spec fn spec_parse(words: Seq<Seq<char>>, start: int) -> Result<
        ((<K1 as DeepView>::V, <K2 as DeepView>::V), int),
        ErrorKindView,
    > {
        match word_at::<K1>(words, start + 0) {
            Err(x) => Err(x),
            Ok(v1) =>
            match word_at::<K2>(words, start + 1) {
                Err(x) => Err(x),
                Ok(v2) => Ok(((v1, v2), start + 2)),
            },
        }
    }

    fn parse(words: &[String], start: usize) -> (r: Result<((K1, K2), usize), Error>) {
        let v1 = match parse_word_at::<K1>(words, start + 0) {
            Ok(v) => v,
            Err(x) => return Err(x),
        };
        let v2 = match parse_word_at::<K2>(words, start + 1) {
            Ok(v) => v,
            Err(x) => return Err(x),
        };
        Ok(((v1, v2), start + 2))
    }

    fn same(&self, other: &Self) -> (b: bool) {
        self.0.same_word(&other.0) && self.1.same_word(&other.1)
    }
}

impl<K1: ParseableWord, K2: ParseableWord, K3: ParseableWord> Parseable for (K1, K2, K3) {
    open spec fn spec_length() -> Option<nat> {
        Some(3)
    }

    fn length() -> (r: Option<u8>) {
        Some(3)
    }

    /// One word for each component, in order.
    open spec fn spec_parse(words: Seq<Seq<char>>, start: int) -> Result<
        ((<K1 as DeepView>::V, <K2 as DeepView>::V, <K3 as DeepView>::V), int),
        ErrorKindView,
    > {
        match word_at::<K1>(words, start + 0) {
            Err(x) => Err(x),
            Ok(v1) =>
            match word_at::<K2>(words, start + 1) {
                Err(x) => Err(x),
                Ok(v2) =>
                match word_at::<K3>(words, start + 2) {
                    Err(x) => Err(x),
                    Ok(v3) => Ok(((v1, v2, v3), start + 3)),
                },
            },
        }
    }

    fn parse(words: &[String], start: usize) -> (r: Result<((K1, K2, K3), usize), Error>) {
        let v1 = match parse_word_at::<K1>(words, start + 0) {
            Ok(v) => v,
            Err(x) => return Err(x),
        };
        let v2 = match parse_word_at::<K2>(words, start + 1) {
            Ok(v) => v,
            Err(x) => return Err(x),
        };
        let v3 = match parse_word_at::<K3>(words, start + 2) {
            Ok(v) => v,
            Err(x) => return Err(x),
        };
        Ok(((v1, v2, v3), start + 3))
    }

    fn same(&self, other: &Self) -> (b: bool) {
        self.0.same_word(&other.0) && self.1.same_word(&other.1) && self.2.same_word(&other.2)
    }
}

impl<K1: ParseableWord, K2: ParseableWord, K3: ParseableWord, K4: ParseableWord> Parseable for (K1, K2, K3, K4) {
    open spec fn spec_length() -> Option<nat> {
        Some(4)
    }

    fn length() -> (r: Option<u8>) {
        Some(4)
    }

    /// One word for each component, in order.
    open spec fn spec_parse(words: Seq<Seq<char>>, start: int) -> Result<
        ((<K1 as DeepView>::V, <K2 as DeepView>::V, <K3 as DeepView>::V, <K4 as DeepView>::V), int),
        ErrorKindView,
    > {
        match word_at::<K1>(words, start + 0) {
            Err(x) => Err(x),
            Ok(v1) =>
            match word_at::<K2>(words, start + 1) {
                Err(x) => Err(x),
                Ok(v2) =>
                match word_at::<K3>(words, start + 2) {
                    Err(x) => Err(x),
                    Ok(v3) =>
                    match word_at::<K4>(words, start + 3) {
                        Err(x) => Err(x),
                        Ok(v4) => Ok(((v1, v2, v3, v4), start + 4)),
                    },
                },
            },
        }
    }

    fn parse(words: &[String], start: usize) -> (r: Result<((K1, K2, K3, K4), usize), Error>) {
        let v1 = match parse_word_at::<K1>(words, start + 0) {
            Ok(v) => v,
            Err(x) => return Err(x),
        };
        let v2 = match parse_word_at::<K2>(words, start + 1) {
            Ok(v) => v,
            Err(x) => return Err(x),
        };
        let v3 = match parse_word_at::<K3>(words, start + 2) {
            Ok(v) => v,
            Err(x) => return Err(x),
        };
        let v4 = match parse_word_at::<K4>(words, start + 3) {
            Ok(v) => v,
            Err(x) => return Err(x),
        };
        Ok(((v1, v2, v3, v4), start + 4))
    }

    fn same(&self, other: &Self) -> (b: bool) {
        self.0.same_word(&other.0) && self.1.same_word(&other.1) && self.2.same_word(&other.2) && self.3.same_word(&other.3)
    }
}

impl<K1: ParseableWord, K2: ParseableWord, K3: ParseableWord, K4: ParseableWord, K5: ParseableWord> Parseable for (K1, K2, K3, K4, K5) {
    open spec fn spec_length() -> Option<nat> {
        Some(5)
    }

    fn length() -> (r: Option<u8>) {
        Some(5)
    }

    /// One word for each component, in order.
    open spec fn spec_parse(words: Seq<Seq<char>>, start: int) -> Result<
        ((<K1 as DeepView>::V, <K2 as DeepView>::V, <K3 as DeepView>::V, <K4 as DeepView>::V, <K5 as DeepView>::V), int),
        ErrorKindView,
    > {
        match word_at::<K1>(words, start + 0) {
            Err(x) => Err(x),
            Ok(v1) =>
            match word_at::<K2>(words, start + 1) {
                Err(x) => Err(x),
                Ok(v2) =>
                match word_at::<K3>(words, start + 2) {
                    Err(x) => Err(x),
                    Ok(v3) =>
                    match word_at::<K4>(words, start + 3) {
                        Err(x) => Err(x),
                        Ok(v4) =>
                        match word_at::<K5>(words, start + 4) {
                            Err(x) => Err(x),
                            Ok(v5) => Ok(((v1, v2, v3, v4, v5), start + 5)),
                        },
                    },
                },
            },
        }
    }

    fn parse(words: &[String], start: usize) -> (r: Result<((K1, K2, K3, K4, K5), usize), Error>) {
        let v1 = match parse_word_at::<K1>(words, start + 0) {
            Ok(v) => v,
            Err(x) => return Err(x),
        };
        let v2 = match parse_word_at::<K2>(words, start + 1) {
            Ok(v) => v,
            Err(x) => return Err(x),
        };
        let v3 = match parse_word_at::<K3>(words, start + 2) {
            Ok(v) => v,
            Err(x) => return Err(x),
        };
        let v4 = match parse_word_at::<K4>(words, start + 3) {
            Ok(v) => v,
            Err(x) => return Err(x),
        };
        let v5 = match parse_word_at::<K5>(words, start + 4) {
            Ok(v) => v,
            Err(x) => return Err(x),
        };
        Ok(((v1, v2, v3, v4, v5), start + 5))
    }

    fn same(&self, other: &Self) -> (b: bool) {
        self.0.same_word(&other.0) && self.1.same_word(&other.1) && self.2.same_word(&other.2) && self.3.same_word(&other.3) && self.4.same_word(&other.4)
    }
}

impl<K1: ParseableWord, K2: ParseableWord, K3: ParseableWord, K4: ParseableWord, K5: ParseableWord, K6: ParseableWord> Parseable for (K1, K2, K3, K4, K5, K6) {
    open spec fn spec_length() -> Option<nat> {
        Some(6)
    }

    fn length() -> (r: Option<u8>) {
        Some(6)
    }

    /// One word for each component, in order.
    open spec fn spec_parse(words: Seq<Seq<char>>, start: int) -> Result<
        ((<K1 as DeepView>::V, <K2 as DeepView>::V, <K3 as DeepView>::V, <K4 as DeepView>::V, <K5 as DeepView>::V, <K6 as DeepView>::V), int),
        ErrorKindView,
    > {
        match word_at::<K1>(words, start + 0) {
            Err(x) => Err(x),
            Ok(v1) =>
            match word_at::<K2>(words, start + 1) {
                Err(x) => Err(x),
                Ok(v2) =>
                match word_at::<K3>(words, start + 2) {
                    Err(x) => Err(x),
                    Ok(v3) =>
                    match word_at::<K4>(words, start + 3) {
                        Err(x) => Err(x),
                        Ok(v4) =>
                        match word_at::<K5>(words, start + 4) {
                            Err(x) => Err(x),
                            Ok(v5) =>
                            match word_at::<K6>(words, start + 5) {
                                Err(x) => Err(x),
                                Ok(v6) => Ok(((v1, v2, v3, v4, v5, v6), start + 6)),
                            },
                        },
                    },
                },
            },
        }
    }

    fn parse(words: &[String], start: usize) -> (r: Result<((K1, K2, K3, K4, K5, K6), usize), Error>) {
        let v1 = match parse_word_at::<K1>(words, start + 0) {
            Ok(v) => v,
            Err(x) => return Err(x),
        };
        let v2 = match parse_word_at::<K2>(words, start + 1) {
            Ok(v) => v,
            Err(x) => return Err(x),
        };
        let v3 = match parse_word_at::<K3>(words, start + 2) {
            Ok(v) => v,
            Err(x) => return Err(x),
        };
        let v4 = match parse_word_at::<K4>(words, start + 3) {
            Ok(v) => v,
            Err(x) => return Err(x),
        };
        let v5 = match parse_word_at::<K5>(words, start + 4) {
            Ok(v) => v,
            Err(x) => return Err(x),
        };
        let v6 = match parse_word_at::<K6>(words, start + 5) {
            Ok(v) => v,
            Err(x) => return Err(x),
        };
        Ok(((v1, v2, v3, v4, v5, v6), start + 6))
    }

    fn same(&self, other: &Self) -> (b: bool) {
        self.0.same_word(&other.0) && self.1.same_word(&other.1) && self.2.same_word(&other.2) && self.3.same_word(&other.3) && self.4.same_word(&other.4) && self.5.same_word(&other.5)
    }
}

impl<K1: ParseableWord, K2: ParseableWord, K3: ParseableWord, K4: ParseableWord, K5: ParseableWord, K6: ParseableWord, K7: ParseableWord> Parseable for (K1, K2, K3, K4, K5, K6, K7) {
    open spec fn spec_length() -> Option<nat> {
        Some(7)
    }

    fn length() -> (r: Option<u8>) {
        Some(7)
    }

    /// One word for each component, in order.
    open spec fn spec_parse(words: Seq<Seq<char>>, start: int) -> Result<
        ((<K1 as DeepView>::V, <K2 as DeepView>::V, <K3 as DeepView>::V, <K4 as DeepView>::V, <K5 as DeepView>::V, <K6 as DeepView>::V, <K7 as DeepView>::V), int),
        ErrorKindView,
    > {
        match word_at::<K1>(words, start + 0) {
            Err(x) => Err(x),
            Ok(v1) =>
            match word_at::<K2>(words, start + 1) {
                Err(x) => Err(x),
                Ok(v2) =>
                match word_at::<K3>(words, start + 2) {
                    Err(x) => Err(x),
                    Ok(v3) =>
                    match word_at::<K4>(words, start + 3) {
                        Err(x) => Err(x),
                        Ok(v4) =>
                        match word_at::<K5>(words, start + 4) {
                            Err(x) => Err(x),
                            Ok(v5) =>
                            match word_at::<K6>(words, start + 5) {
                                Err(x) => Err(x),
                                Ok(v6) =>
                                match word_at::<K7>(words, start + 6) {
                                    Err(x) => Err(x),
                                    Ok(v7) => Ok(((v1, v2, v3, v4, v5, v6, v7), start + 7)),
                                },
                            },
                        },
                    },
                },
            },
        }
    }

    fn parse(words: &[String], start: usize) -> (r: Result<((K1, K2, K3, K4, K5, K6, K7), usize), Error>) {
        let v1 = match parse_word_at::<K1>(words, start + 0) {
            Ok(v) => v,
            Err(x) => return Err(x),
        };
        let v2 = match parse_word_at::<K2>(words, start + 1) {
            Ok(v) => v,
            Err(x) => return Err(x),
        };
        let v3 = match parse_word_at::<K3>(words, start + 2) {
            Ok(v) => v,
            Err(x) => return Err(x),
        };
        let v4 = match parse_word_at::<K4>(words, start + 3) {
            Ok(v) => v,
            Err(x) => return Err(x),
        };
        let v5 = match parse_word_at::<K5>(words, start + 4) {
            Ok(v) => v,
            Err(x) => return Err(x),
        };
        let v6 = match parse_word_at::<K6>(words, start + 5) {
            Ok(v) => v,
            Err(x) => return Err(x),
        };
        let v7 = match parse_word_at::<K7>(words, start + 6) {
            Ok(v) => v,
            Err(x) => return Err(x),
        };
        Ok(((v1, v2, v3, v4, v5, v6, v7), start + 7))
    }

    fn same(&self, other: &Self) -> (b: bool) {
        self.0.same_word(&other.0) && self.1.same_word(&other.1) && self.2.same_word(&other.2) && self.3.same_word(&other.3) && self.4.same_word(&other.4) && self.5.same_word(&other.5) && self.6.same_word(&other.6)
    }
}

impl<K1: ParseableWord, K2: ParseableWord, K3: ParseableWord, K4: ParseableWord, K5: ParseableWord, K6: ParseableWord, K7: ParseableWord, K8: ParseableWord> Parseable for (K1, K2, K3, K4, K5, K6, K7, K8) {
    open spec fn spec_length() -> Option<nat> {
        Some(8)
    }

    fn length() -> (r: Option<u8>) {
        Some(8)
    }

    /// One word for each component, in order.
    open spec fn spec_parse(words: Seq<Seq<char>>, start: int) -> Result<
        ((<K1 as DeepView>::V, <K2 as DeepView>::V, <K3 as DeepView>::V, <K4 as DeepView>::V, <K5 as DeepView>::V, <K6 as DeepView>::V, <K7 as DeepView>::V, <K8 as DeepView>::V), int),
        ErrorKindView,
    > {
        match word_at::<K1>(words, start + 0) {
            Err(x) => Err(x),
            Ok(v1) =>
            match word_at::<K2>(words, start + 1) {
                Err(x) => Err(x),
                Ok(v2) =>
                match word_at::<K3>(words, start + 2) {
                    Err(x) => Err(x),
                    Ok(v3) =>
                    match word_at::<K4>(words, start + 3) {
                        Err(x) => Err(x),
                        Ok(v4) =>
                        match word_at::<K5>(words, start + 4) {
                            Err(x) => Err(x),
                            Ok(v5) =>
                            match word_at::<K6>(words, start + 5) {
                                Err(x) => Err(x),
                                Ok(v6) =>
                                match word_at::<K7>(words, start + 6) {
                                    Err(x) => Err(x),
                                    Ok(v7) =>
                                    match word_at::<K8>(words, start + 7) {
                                        Err(x) => Err(x),
                                        Ok(v8) => Ok(((v1, v2, v3, v4, v5, v6, v7, v8), start + 8)),
                                    },
                                },
                            },
                        },
                    },
                },
            },
        }
    }

    fn parse(words: &[String], start: usize) -> (r: Result<((K1, K2, K3, K4, K5, K6, K7, K8), usize), Error>) {
        let v1 = match parse_word_at::<K1>(words, start + 0) {
            Ok(v) => v,
            Err(x) => return Err(x),
        };
        let v2 = match parse_word_at::<K2>(words, start + 1) {
            Ok(v) => v,
            Err(x) => return Err(x),
        };
        let v3 = match parse_word_at::<K3>(words, start + 2) {
            Ok(v) => v,
            Err(x) => return Err(x),
        };
        let v4 = match parse_word_at::<K4>(words, start + 3) {
            Ok(v) => v,
            Err(x) => return Err(x),
        };
        let v5 = match parse_word_at::<K5>(words, start + 4) {
            Ok(v) => v,
            Err(x) => return Err(x),
        };
        let v6 = match parse_word_at::<K6>(words, start + 5) {
            Ok(v) => v,
            Err(x) => return Err(x),
        };
        let v7 = match parse_word_at::<K7>(words, start + 6) {
            Ok(v) => v,
            Err(x) => return Err(x),
        };
        let v8 = match parse_word_at::<K8>(words, start + 7) {
            Ok(v) => v,
            Err(x) => return Err(x),
        };
        Ok(((v1, v2, v3, v4, v5, v6, v7, v8), start + 8))
    }

    fn same(&self, other: &Self) -> (b: bool) {
        self.0.same_word(&other.0) && self.1.same_word(&other.1) && self.2.same_word(&other.2) && self.3.same_word(&other.3) && self.4.same_word(&other.4) && self.5.same_word(&other.5) && self.6.same_word(&other.6) && self.7.same_word(&other.7)
    }
}

impl<K1: ParseableWord, K2: ParseableWord, K3: ParseableWord, K4: ParseableWord, K5: ParseableWord, K6: ParseableWord, K7: ParseableWord, K8: ParseableWord, K9: ParseableWord> Parseable for (K1, K2, K3, K4, K5, K6, K7, K8, K9) {
    open spec fn spec_length() -> Option<nat> {
        Some(9)
    }

    fn length() -> (r: Option<u8>) {
        Some(9)
    }

    /// One word for each component, in order.
    open spec fn spec_parse(words: Seq<Seq<char>>, start: int) -> Result<
        ((<K1 as DeepView>::V, <K2 as DeepView>::V, <K3 as DeepView>::V, <K4 as DeepView>::V, <K5 as DeepView>::V, <K6 as DeepView>::V, <K7 as DeepView>::V, <K8 as DeepView>::V, <K9 as DeepView>::V), int),
        ErrorKindView,
    > {
        match word_at::<K1>(words, start + 0) {
            Err(x) => Err(x),
            Ok(v1) =>
            match word_at::<K2>(words, start + 1) {
                Err(x) => Err(x),
                Ok(v2) =>
                match word_at::<K3>(words, start + 2) {
                    Err(x) => Err(x),
                    Ok(v3) =>
                    match word_at::<K4>(words, start + 3) {
                        Err(x) => Err(x),
                        Ok(v4) =>
                        match word_at::<K5>(words, start + 4) {
                            Err(x) => Err(x),
                            Ok(v5) =>
                            match word_at::<K6>(words, start + 5) {
                                Err(x) => Err(x),
                                Ok(v6) =>
                                match word_at::<K7>(words, start + 6) {
                                    Err(x) => Err(x),
                                    Ok(v7) =>
                                    match word_at::<K8>(words, start + 7) {
                                        Err(x) => Err(x),
                                        Ok(v8) =>
                                        match word_at::<K9>(words, start + 8) {
                                            Err(x) => Err(x),
                                            Ok(v9) => Ok(((v1, v2, v3, v4, v5, v6, v7, v8, v9), start + 9)),
                                        },
                                    },
                                },
                            },
                        },
                    },
                },
            },
        }
    }

    fn parse(words: &[String], start: usize) -> (r: Result<((K1, K2, K3, K4, K5, K6, K7, K8, K9), usize), Error>) {
        let v1 = match parse_word_at::<K1>(words, start + 0) {
            Ok(v) => v,
            Err(x) => return Err(x),
        };
        let v2 = match parse_word_at::<K2>(words, start + 1) {
            Ok(v) => v,
            Err(x) => return Err(x),
        };
        let v3 = match parse_word_at::<K3>(words, start + 2) {
            Ok(v) => v,
            Err(x) => return Err(x),
        };
        let v4 = match parse_word_at::<K4>(words, start + 3) {
            Ok(v) => v,
            Err(x) => return Err(x),
        };
        let v5 = match parse_word_at::<K5>(words, start + 4) {
            Ok(v) => v,
            Err(x) => return Err(x),
        };
        let v6 = match parse_word_at::<K6>(words, start + 5) {
            Ok(v) => v,
            Err(x) => return Err(x),
        };
        let v7 = match parse_word_at::<K7>(words, start + 6) {
            Ok(v) => v,
            Err(x) => return Err(x),
        };
        let v8 = match parse_word_at::<K8>(words, start + 7) {
            Ok(v) => v,
            Err(x) => return Err(x),
        };
        let v9 = match parse_word_at::<K9>(words, start + 8) {
            Ok(v) => v,
            Err(x) => return Err(x),
        };
        Ok(((v1, v2, v3, v4, v5, v6, v7, v8, v9), start + 9))
    }

    fn same(&self, other: &Self) -> (b: bool) {
        self.0.same_word(&other.0) && self.1.same_word(&other.1) && self.2.same_word(&other.2) && self.3.same_word(&other.3) && self.4.same_word(&other.4) && self.5.same_word(&other.5) && self.6.same_word(&other.6) && self.7.same_word(&other.7) && self.8.same_word(&other.8)
    }
}

impl<K1: ParseableWord, K2: ParseableWord, K3: ParseableWord, K4: ParseableWord, K5: ParseableWord, K6: ParseableWord, K7: ParseableWord, K8: ParseableWord, K9: ParseableWord, K10: ParseableWord> Parseable for (K1, K2, K3, K4, K5, K6, K7, K8, K9, K10) {
    open spec fn spec_length() -> Option<nat> {
        Some(10)
    }

    fn length() -> (r: Option<u8>) {
        Some(10)
    }

    /// One word for each component, in order.
    open spec fn spec_parse(words: Seq<Seq<char>>, start: int) -> Result<
        ((<K1 as DeepView>::V, <K2 as DeepView>::V, <K3 as DeepView>::V, <K4 as DeepView>::V, <K5 as DeepView>::V, <K6 as DeepView>::V, <K7 as DeepView>::V, <K8 as DeepView>::V, <K9 as DeepView>::V, <K10 as DeepView>::V), int),
        ErrorKindView,
    > {
        match word_at::<K1>(words, start + 0) {
            Err(x) => Err(x),
            Ok(v1) =>
            match word_at::<K2>(words, start + 1) {
                Err(x) => Err(x),
                Ok(v2) =>
                match word_at::<K3>(words, start + 2) {
                    Err(x) => Err(x),
                    Ok(v3) =>
                    match word_at::<K4>(words, start + 3) {
                        Err(x) => Err(x),
                        Ok(v4) =>
                        match word_at::<K5>(words, start + 4) {
                            Err(x) => Err(x),
                            Ok(v5) =>
                            match word_at::<K6>(words, start + 5) {
                                Err(x) => Err(x),
                                Ok(v6) =>
                                match word_at::<K7>(words, start + 6) {
                                    Err(x) => Err(x),
                                    Ok(v7) =>
                                    match word_at::<K8>(words, start + 7) {
                                        Err(x) => Err(x),
                                        Ok(v8) =>
                                        match word_at::<K9>(words, start + 8) {
                                            Err(x) => Err(x),
                                            Ok(v9) =>
                                            match word_at::<K10>(words, start + 9) {
                                                Err(x) => Err(x),
                                                Ok(v10) => Ok(((v1, v2, v3, v4, v5, v6, v7, v8, v9, v10), start + 10)),
                                            },
                                        },
                                    },
                                },
                            },
                        },
                    },
                },
            },
        }
    }

    fn parse(words: &[String], start: usize) -> (r: Result<((K1, K2, K3, K4, K5, K6, K7, K8, K9, K10), usize), Error>) {
        let v1 = match parse_word_at::<K1>(words, start + 0) {
            Ok(v) => v,
            Err(x) => return Err(x),
        };
        let v2 = match parse_word_at::<K2>(words, start + 1) {
            Ok(v) => v,
            Err(x) => return Err(x),
        };
        let v3 = match parse_word_at::<K3>(words, start + 2) {
            Ok(v) => v,
            Err(x) => return Err(x),
        };
        let v4 = match parse_word_at::<K4>(words, start + 3) {
            Ok(v) => v,
            Err(x) => return Err(x),
        };
        let v5 = match parse_word_at::<K5>(words, start + 4) {
            Ok(v) => v,
            Err(x) => return Err(x),
        };
        let v6 = match parse_word_at::<K6>(words, start + 5) {
            Ok(v) => v,
            Err(x) => return Err(x),
        };
        let v7 = match parse_word_at::<K7>(words, start + 6) {
            Ok(v) => v,
            Err(x) => return Err(x),
        };
        let v8 = match parse_word_at::<K8>(words, start + 7) {
            Ok(v) => v,
            Err(x) => return Err(x),
        };
        let v9 = match parse_word_at::<K9>(words, start + 8) {
            Ok(v) => v,
            Err(x) => return Err(x),
        };
        let v10 = match parse_word_at::<K10>(words, start + 9) {
            Ok(v) => v,
            Err(x) => return Err(x),
        };
        Ok(((v1, v2, v3, v4, v5, v6, v7, v8, v9, v10), start + 10))
    }

    fn same(&self, other: &Self) -> (b: bool) {
        self.0.same_word(&other.0) && self.1.same_word(&other.1) && self.2.same_word(&other.2) && self.3.same_word(&other.3) && self.4.same_word(&other.4) && self.5.same_word(&other.5) && self.6.same_word(&other.6) && self.7.same_word(&other.7) && self.8.same_word(&other.8) && self.9.same_word(&other.9)
    }
}

impl<K1: ParseableWord, K2: ParseableWord, K3: ParseableWord, K4: ParseableWord, K5: ParseableWord, K6: ParseableWord, K7: ParseableWord, K8: ParseableWord, K9: ParseableWord, K10: ParseableWord, K11: ParseableWord> Parseable for (K1, K2, K3, K4, K5, K6, K7, K8, K9, K10, K11) {
    open spec fn spec_length() -> Option<nat> {
        Some(11)
    }

    fn length() -> (r: Option<u8>) {
        Some(11)
    }

    /// One word for each component, in order.
    open spec fn spec_parse(words: Seq<Seq<char>>, start: int) -> Result<
        ((<K1 as DeepView>::V, <K2 as DeepView>::V, <K3 as DeepView>::V, <K4 as DeepView>::V, <K5 as DeepView>::V, <K6 as DeepView>::V, <K7 as DeepView>::V, <K8 as DeepView>::V, <K9 as DeepView>::V, <K10 as DeepView>::V, <K11 as DeepView>::V), int),
        ErrorKindView,
    > {
        match word_at::<K1>(words, start + 0) {
            Err(x) => Err(x),
            Ok(v1) =>
            match word_at::<K2>(words, start + 1) {
                Err(x) => Err(x),
                Ok(v2) =>
                match word_at::<K3>(words, start + 2) {
                    Err(x) => Err(x),
                    Ok(v3) =>
                    match word_at::<K4>(words, start + 3) {
                        Err(x) => Err(x),
                        Ok(v4) =>
                        match word_at::<K5>(words, start + 4) {
                            Err(x) => Err(x),
                            Ok(v5) =>
                            match word_at::<K6>(words, start + 5) {
                                Err(x) => Err(x),
                                Ok(v6) =>
                                match word_at::<K7>(words, start + 6) {
                                    Err(x) => Err(x),
                                    Ok(v7) =>
                                    match word_at::<K8>(words, start + 7) {
                                        Err(x) => Err(x),
                                        Ok(v8) =>
                                        match word_at::<K9>(words, start + 8) {
                                            Err(x) => Err(x),
                                            Ok(v9) =>
                                            match word_at::<K10>(words, start + 9) {
                                                Err(x) => Err(x),
                                                Ok(v10) =>
                                                match word_at::<K11>(words, start + 10) {
                                                    Err(x) => Err(x),
                                                    Ok(v11) => Ok(((v1, v2, v3, v4, v5, v6, v7, v8, v9, v10, v11), start + 11)),
                                                },
                                            },
                                        },
                                    },
                                },
                            },
                        },
                    },
                },
            },
        }
    }

    fn parse(words: &[String], start: usize) -> (r: Result<((K1, K2, K3, K4, K5, K6, K7, K8, K9, K10, K11), usize), Error>) {
        let v1 = match parse_word_at::<K1>(words, start + 0) {
            Ok(v) => v,
            Err(x) => return Err(x),
        };
        let v2 = match parse_word_at::<K2>(words, start + 1) {
            Ok(v) => v,
            Err(x) => return Err(x),
        };
        let v3 = match parse_word_at::<K3>(words, start + 2) {
            Ok(v) => v,
            Err(x) => return Err(x),
        };
        let v4 = match parse_word_at::<K4>(words, start + 3) {
            Ok(v) => v,
            Err(x) => return Err(x),
        };
        let v5 = match parse_word_at::<K5>(words, start + 4) {
            Ok(v) => v,
            Err(x) => return Err(x),
        };
        let v6 = match parse_word_at::<K6>(words, start + 5) {
            Ok(v) => v,
            Err(x) => return Err(x),
        };
        let v7 = match parse_word_at::<K7>(words, start + 6) {
            Ok(v) => v,
            Err(x) => return Err(x),
        };
        let v8 = match parse_word_at::<K8>(words, start + 7) {
            Ok(v) => v,
            Err(x) => return Err(x),
        };
        let v9 = match parse_word_at::<K9>(words, start + 8) {
            Ok(v) => v,
            Err(x) => return Err(x),
        };
        let v10 = match parse_word_at::<K10>(words, start + 9) {
            Ok(v) => v,
            Err(x) => return Err(x),
        };
        let v11 = match parse_word_at::<K11>(words, start + 10) {
            Ok(v) => v,
            Err(x) => return Err(x),
        };
        Ok(((v1, v2, v3, v4, v5, v6, v7, v8, v9, v10, v11), start + 11))
    }

    fn same(&self, other: &Self) -> (b: bool) {
        self.0.same_word(&other.0) && self.1.same_word(&other.1) && self.2.same_word(&other.2) && self.3.same_word(&other.3) && self.4.same_word(&other.4) && self.5.same_word(&other.5) && self.6.same_word(&other.6) && self.7.same_word(&other.7) && self.8.same_word(&other.8) && self.9.same_word(&other.9) && self.10.same_word(&other.10)
    }
}

impl<K1: ParseableWord, K2: ParseableWord, K3: ParseableWord, K4: ParseableWord, K5: ParseableWord, K6: ParseableWord, K7: ParseableWord, K8: ParseableWord, K9: ParseableWord, K10: ParseableWord, K11: ParseableWord, K12: ParseableWord> Parseable for (K1, K2, K3, K4, K5, K6, K7, K8, K9, K10, K11, K12) {
    open spec fn spec_length() -> Option<nat> {
        Some(12)
    }

    fn length() -> (r: Option<u8>) {
        Some(12)
    }

    /// One word for each component, in order.
    open spec fn spec_parse(words: Seq<Seq<char>>, start: int) -> Result<
        ((<K1 as DeepView>::V, <K2 as DeepView>::V, <K3 as DeepView>::V, <K4 as DeepView>::V, <K5 as DeepView>::V, <K6 as DeepView>::V, <K7 as DeepView>::V, <K8 as DeepView>::V, <K9 as DeepView>::V, <K10 as DeepView>::V, <K11 as DeepView>::V, <K12 as DeepView>::V), int),
        ErrorKindView,
    > {
        match word_at::<K1>(words, start + 0) {
            Err(x) => Err(x),
            Ok(v1) =>
            match word_at::<K2>(words, start + 1) {
                Err(x) => Err(x),
                Ok(v2) =>
                match word_at::<K3>(words, start + 2) {
                    Err(x) => Err(x),
                    Ok(v3) =>
                    match word_at::<K4>(words, start + 3) {
                        Err(x) => Err(x),
                        Ok(v4) =>
                        match word_at::<K5>(words, start + 4) {
                            Err(x) => Err(x),
                            Ok(v5) =>
                            match word_at::<K6>(words, start + 5) {
                                Err(x) => Err(x),
                                Ok(v6) =>
                                match word_at::<K7>(words, start + 6) {
                                    Err(x) => Err(x),
                                    Ok(v7) =>
                                    match word_at::<K8>(words, start + 7) {
                                        Err(x) => Err(x),
                                        Ok(v8) =>
                                        match word_at::<K9>(words, start + 8) {
                                            Err(x) => Err(x),
                                            Ok(v9) =>
                                            match word_at::<K10>(words, start + 9) {
                                                Err(x) => Err(x),
                                                Ok(v10) =>
                                                match word_at::<K11>(words, start + 10) {
                                                    Err(x) => Err(x),
                                                    Ok(v11) =>
                                                    match word_at::<K12>(words, start + 11) {
                                                        Err(x) => Err(x),
                                                        Ok(v12) => Ok(((v1, v2, v3, v4, v5, v6, v7, v8, v9, v10, v11, v12), start + 12)),
                                                    },
                                                },
                                            },
                                        },
                                    },
                                },
                            },
                        },
                    },
                },
            },
        }
    }

    fn parse(words: &[String], start: usize) -> (r: Result<((K1, K2, K3, K4, K5, K6, K7, K8, K9, K10, K11, K12), usize), Error>) {
        let v1 = match parse_word_at::<K1>(words, start + 0) {
            Ok(v) => v,
            Err(x) => return Err(x),
        };
        let v2 = match parse_word_at::<K2>(words, start + 1) {
            Ok(v) => v,
            Err(x) => return Err(x),
        };
        let v3 = match parse_word_at::<K3>(words, start + 2) {
            Ok(v) => v,
            Err(x) => return Err(x),
        };
        let v4 = match parse_word_at::<K4>(words, start + 3) {
            Ok(v) => v,
            Err(x) => return Err(x),
        };
        let v5 = match parse_word_at::<K5>(words, start + 4) {
            Ok(v) => v,
            Err(x) => return Err(x),
        };
        let v6 = match parse_word_at::<K6>(words, start + 5) {
            Ok(v) => v,
            Err(x) => return Err(x),
        };
        let v7 = match parse_word_at::<K7>(words, start + 6) {
            Ok(v) => v,
            Err(x) => return Err(x),
        };
        let v8 = match parse_word_at::<K8>(words, start + 7) {
            Ok(v) => v,
            Err(x) => return Err(x),
        };
        let v9 = match parse_word_at::<K9>(words, start + 8) {
            Ok(v) => v,
            Err(x) => return Err(x),
        };
        let v10 = match parse_word_at::<K10>(words, start + 9) {
            Ok(v) => v,
            Err(x) => return Err(x),
        };
        let v11 = match parse_word_at::<K11>(words, start + 10) {
            Ok(v) => v,
            Err(x) => return Err(x),
        };
        let v12 = match parse_word_at::<K12>(words, start + 11) {
            Ok(v) => v,
            Err(x) => return Err(x),
        };
        Ok(((v1, v2, v3, v4, v5, v6, v7, v8, v9, v10, v11, v12), start + 12))
    }

    fn same(&self, other: &Self) -> (b: bool) {
        self.0.same_word(&other.0) && self.1.same_word(&other.1) && self.2.same_word(&other.2) && self.3.same_word(&other.3) && self.4.same_word(&other.4) && self.5.same_word(&other.5) && self.6.same_word(&other.6) && self.7.same_word(&other.7) && self.8.same_word(&other.8) && self.9.same_word(&other.9) && self.10.same_word(&other.10) && self.11.same_word(&other.11)
    }
}

} // verus!
