//! Reading a value from the start of a text, keeping what follows it.
use vstd::prelude::*;
use crate::errors::{Error, ErrorKind, ErrorKindView, err};
use crate::parseable::{Parseable, words_view};
use crate::text::{all_ws, chars_of, next_word, spec_next_word, split_words, words};

verus! {

/// The result of reading a value from the start of a text: the rest of the text after the
/// words that were used and the value, or the error that reading gives.
#[derive(Debug, PartialEq)]
pub enum ParseResult<T> {
    Done(String, T),
    Error(Error),
}

/// What is left of `s` after its first `k` words (all of `s` once no word is left).
pub open spec fn after_words(s: Seq<char>, k: nat) -> Seq<char>
    decreases k,
{
    if k == 0 {
        s
    } else {
        match spec_next_word(s) {
            Some((_, rest)) => after_words(rest, (k - 1) as nat),
            None => s,
        }
    }
}

/// Reads a value of type `T` from the words at the start of `input`.
///
/// The rest of the result is the text after the words that the value used, with the
/// whitespace that follows them.
pub fn parse_prefix<T: Parseable>(input: &str) -> (r: ParseResult<T>)
    ensures
        match T::spec_parse(words(input@), 0) {
            Ok((v, e)) => r matches ParseResult::Done(rest, x) && x.deep_view() == v && rest@
                == after_words(input@, e as nat),
            Err(k) => r matches ParseResult::Error(x) && x@ == err(k),
        },
{
    let cs = chars_of(input);
    let ws = split_words(&cs);
    assert(words_view(ws@) =~= ws.deep_view());
    match T::parse(ws.as_slice(), 0) {
        Err(x) => ParseResult::Error(x),
        Ok((v, e)) => {
            let mut rest: &str = input;
            let mut k: usize = 0;
            loop
                invariant
                    k <= e,
                    T::spec_parse(words(input@), 0) == Ok::<(<T as DeepView>::V, int), ErrorKindView>(
                        (v.deep_view(), e as int),
                    ),
                    after_words(rest@, (e - k) as nat) == after_words(input@, e as nat),
                decreases e - k,
            {
                if k >= e {
                    return ParseResult::Done(rest.to_owned(), v);
                }
                match next_word(rest) {
                    Some((_, r2)) => {
                        rest = r2;
                    },
                    None => {
                        return ParseResult::Done(rest.to_owned(), v);
                    },
                }
                k += 1;
            }
        },
    }
}

impl<T> ParseResult<T> {
    /// The value, provided that nothing but whitespace follows it; an error otherwise.
    pub fn end(self) -> (r: Result<T, Error>)
        ensures
            match self {
                ParseResult::Error(e) => r matches Err(x) && x@ == e@,
                ParseResult::Done(rest, v) => if all_ws(rest@) {
                    r matches Ok(x) && x == v
                } else {
                    r matches Err(x) && x@ == err(ErrorKindView::IncompleteParse(words(rest@)))
                },
            },
    {
        match self {
            ParseResult::Error(e) => Err(e),
            ParseResult::Done(rest, v) => {
                let cs = chars_of(rest.as_str());
                if next_word(rest.as_str()).is_some() {
                    Err(Error::new(ErrorKind::IncompleteParse(split_words(&cs))))
                } else {
                    Ok(v)
                }
            },
        }
    }
}

} // verus!
