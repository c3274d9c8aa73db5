//! Splitting an SLHA file into its segments: BLOCKs and DECAY tables.
use vstd::prelude::*;
use crate::block::{Line, LineView, RawBlock, RawBlockView, SlhaBlock, lines_view, scale_view};
pub use crate::modifier::WrappedBlock;
use crate::errors::{Error, ErrorKind, ErrorKindView, ErrorView, chain, err};
use crate::parseable::{Parseable, Real, parse_all, parse_word_at, spec_parse_all, word_at, words_view};
use crate::text::{
    all_ws, chars_eq, lemma_next_words, chars_of, skip_word_at, to_lowercase, is_whitespace, is_ws, lemma_rskip_ws, lemma_skip_ws, lowercase, rskip_ws, skip_ws,
    skip_ws_at, spec_next_word, spec_split_comment, split_comment, split_words, starts_with_ws,
    string_from_chars, sub_chars, trim, trim_chars, trim_start, words,
};

verus! {

pub use crate::text::next_word;

/// A single decay mode of a particle.
#[derive(Clone, Debug, PartialEq)]
pub struct Decay {
    /// The branching ratio of this decay mode.
    pub branching_ratio: Real,
    /// The pdg ids of all daughter particles.
    pub daughters: Vec<i64>,
}

/// The mathematical value of a `Decay`.
pub struct DecayView {
    pub branching_ratio: Seq<char>,
    pub daughters: Seq<i64>,
}

impl View for Decay {
    type V = DecayView;

    open spec fn view(&self) -> DecayView {
        DecayView { branching_ratio: self.branching_ratio@, daughters: self.daughters@ }
    }
}

/// The views of a sequence of decays.
pub open spec fn decays_view(ds: Seq<Decay>) -> Seq<DecayView> {
    ds.map_values(|d: Decay| d@)
}

/// The decay table of a particle.
#[derive(Clone, Debug, PartialEq)]
pub struct DecayTable {
    /// The width of the particle.
    pub width: Real,
    /// All decay modes of the particle.
    pub decays: Vec<Decay>,
}

/// The mathematical value of a `DecayTable`.
pub struct DecayTableView {
    pub width: Seq<char>,
    pub decays: Seq<DecayView>,
}

impl View for DecayTable {
    type V = DecayTableView;

    open spec fn view(&self) -> DecayTableView {
        DecayTableView { width: self.width@, decays: decays_view(self.decays@) }
    }
}

/// A segment of an SLHA file.
#[derive(Debug)]
pub enum Segment {
    /// A BLOCK: its (lower case) name and its body.
    Block { name: String, block: RawBlock },
    /// A DECAY table: the pdg id of the particle, its width and its decays.
    Decay { pdg_id: i64, width: Real, decays: Vec<Decay> },
}

/// The mathematical value of a `Segment`.
pub enum SegmentView {
    Block { name: Seq<char>, block: RawBlockView },
    Decay { pdg_id: i64, width: Seq<char>, decays: Seq<DecayView> },
}

impl View for Segment {
    type V = SegmentView;

    open spec fn view(&self) -> SegmentView {
        match self {
            Segment::Block { name, block } => SegmentView::Block { name: name@, block: block@ },
            Segment::Decay { pdg_id, width, decays } => SegmentView::Decay {
                pdg_id: *pdg_id,
                width: width@,
                decays: decays_view(decays@),
            },
        }
    }
}

/// A line that holds nothing but whitespace, or a comment.
pub open spec fn is_skippable(l: Seq<char>) -> bool {
    let t = trim(l);
    t.len() == 0 || t[0] == '#'
}

/// The index of the first line at or after `i` that is not skippable (or the end).
pub open spec fn skip_empty(ls: Seq<Seq<char>>, i: int) -> int
    decreases ls.len() - i,
{
    if 0 <= i < ls.len() && is_skippable(ls[i]) {
        skip_empty(ls, i + 1)
    } else {
        i
    }
}

pub proof fn lemma_skip_empty(ls: Seq<Seq<char>>, i: int)
    requires
        0 <= i <= ls.len(),
    ensures
        i <= skip_empty(ls, i) <= ls.len(),
        forall|k: int| i <= k < skip_empty(ls, i) ==> is_skippable(#[trigger] ls[k]),
        skip_empty(ls, i) < ls.len() ==> !is_skippable(ls[skip_empty(ls, i)]),
    decreases ls.len() - i,
{
    if i < ls.len() && is_skippable(ls[i]) {
        lemma_skip_empty(ls, i + 1);
    }
}

/// A data line of a body: the line without its leading whitespace, split into data and comment.
pub open spec fn body_line(l: Seq<char>) -> LineView {
    let (d, c) = spec_split_comment(trim_start(l));
    LineView { data: d, comment: c }
}

/// The data lines of a block body that starts at line `j`, and the index of the first line after
/// the body. The body is made of the indented lines, with skippable lines in between.
pub open spec fn block_body(ls: Seq<Seq<char>>, j: int) -> (Seq<LineView>, int)
    decreases ls.len() - j,
{
    if 0 <= j <= ls.len() {
        let k = skip_empty(ls, j);
        proof {
            lemma_skip_empty(ls, j);
        }
        if k < ls.len() && starts_with_ws(ls[k]) {
            let (b, e) = block_body(ls, k + 1);
            (seq![body_line(ls[k])] + b, e)
        } else {
            (seq![], k)
        }
    } else {
        (seq![], j)
    }
}

pub proof fn lemma_block_body(ls: Seq<Seq<char>>, j: int)
    requires
        0 <= j <= ls.len(),
    ensures
        j <= block_body(ls, j).1 <= ls.len(),
    decreases ls.len() - j,
{
    lemma_skip_empty(ls, j);
    let k = skip_empty(ls, j);
    if k < ls.len() && starts_with_ws(ls[k]) {
        lemma_block_body(ls, k + 1);
    }
}

/// `c` is the letter `q` in either case.
pub open spec fn is_q(c: char) -> bool {
    c == 'q' || c == 'Q'
}

/// The words that hold the scale, after the `Q` and `=` that announce it, if the words of a
/// block header (after the name) start as a scale must: `Q=` then the value, `Q` and `=` then
/// the value, or `Q=` joined to the value (`Q` in either case).
pub open spec fn scale_value_words(ws: Seq<Seq<char>>) -> Option<Seq<Seq<char>>>
    recommends
        ws.len() > 0,
{
    let w = ws[0];
    if w.len() == 2 && is_q(w[0]) && w[1] == '=' {
        Some(ws.subrange(1, ws.len() as int))
    } else if w.len() == 1 && is_q(w[0]) {
        if ws.len() >= 2 && ws[1] == seq!['='] {
            Some(ws.subrange(2, ws.len() as int))
        } else {
            None
        }
    } else if w.len() > 2 && is_q(w[0]) && w[1] == '=' {
        Some(seq![w.subrange(2, w.len() as int)] + ws.subrange(1, ws.len() as int))
    } else {
        None
    }
}

/// The scale in the rest of a block header after the block name: nothing, or a scale announced
/// as `scale_value_words` says. The scale must be the only remaining word.
pub open spec fn spec_parse_block_scale(h: Seq<char>) -> Result<Option<Seq<char>>, ErrorView> {
    let ws = words(h);
    if ws.len() == 0 {
        Ok(None)
    } else {
        match scale_value_words(ws) {
            None => Err(err(ErrorKindView::MalformedBlockHeader(h))),
            Some(vs) => match spec_parse_all::<Real>(vs) {
                Ok(v) => Ok(Some(v)),
                Err(e) => Err(chain(e, ErrorKindView::InvalidScale)),
            },
        }
    }
}

/// The name (in lower case) and scale given in a block header after the keyword.
pub open spec fn spec_parse_block_header(h: Seq<char>) -> Result<
    (Seq<char>, Option<Seq<char>>),
    ErrorView,
> {
    match spec_next_word(spec_split_comment(h).0) {
        None => Err(err(ErrorKindView::MissingBlockName)),
        Some((name, rest)) => {
            let n = lowercase(name);
            match spec_parse_block_scale(rest) {
                Ok(s) => Ok((n, s)),
                Err(e) => Err(chain(e, ErrorKindView::InvalidBlock(n))),
            }
        },
    }
}

/// The name of a block is the first word of its header (before any comment), in lower case; a
/// header without words is `MissingBlockName`.
pub proof fn lemma_block_header_name(h: Seq<char>)
    ensures
        ({
            let ws = words(spec_split_comment(h).0);
            &&& ws.len() == 0 <==> spec_parse_block_header(h) == Err::<
                (Seq<char>, Option<Seq<char>>),
                ErrorView,
            >(err(ErrorKindView::MissingBlockName))
            &&& spec_parse_block_header(h) matches Ok((n, _)) ==> ws.len() > 0 && n == lowercase(
                ws[0],
            )
            &&& spec_parse_block_header(h) matches Err(e) ==> ws.len() == 0 || e.0
                == ErrorKindView::InvalidBlock(lowercase(ws[0]))
        }),
{
    let d = spec_split_comment(h).0;
    lemma_next_words(d);
}

/// The segment that a BLOCK header starts is named by the first word after the keyword (before
/// any comment), in lower case.
pub proof fn lemma_block_segment_name(ls: Seq<Seq<char>>, i: int)
    requires
        0 <= i < ls.len(),
    ensures
        spec_parse_segment(ls, i) matches Ok((SegmentView::Block { name, .. }, _)) ==> spec_next_word(
            ls[i],
        ) matches Some((_, rest)) && words(spec_split_comment(rest).0).len() > 0 && name
            == lowercase(words(spec_split_comment(rest).0)[0]),
{
    if let Some((kw, rest)) = spec_next_word(ls[i]) {
        lemma_block_header_name(rest);
    }
}

/// The pdg id and width given in a decay table header after the keyword.
pub open spec fn spec_parse_decay_header(h: Seq<char>) -> Result<(i64, Seq<char>), ErrorView> {
    let ws = words(spec_split_comment(h).0);
    match word_at::<i64>(ws, 0) {
        Err(k) => Err(chain(err(k), ErrorKindView::InvalidDecayingPdgId)),
        Ok(p) => match spec_parse_all::<Real>(ws.subrange(1, ws.len() as int)) {
            Ok(w) => Ok((p, w)),
            Err(e) => Err(
                chain(chain(e, ErrorKindView::InvalidWidth), ErrorKindView::InvalidDecay(p)),
            ),
        },
    }
}

/// The pdg ids of the daughters with index `i` to `n - 1`, read from the words of a decay line,
/// where the first daughter is word 2.
pub open spec fn spec_daughters(ws: Seq<Seq<char>>, n: int, i: int) -> Result<Seq<i64>, ErrorView>
    decreases n - i,
{
    if i >= n {
        Ok(seq![])
    } else if 2 + i >= ws.len() {
        Err(err(ErrorKindView::NotEnoughDaughters(n as u8, i as u8)))
    } else {
        match word_at::<i64>(ws, 2 + i) {
            Err(k) => Err(chain(err(k), ErrorKindView::InvalidDaughterId)),
            Ok(d) => match spec_daughters(ws, n, i + 1) {
                Ok(ds) => Ok(seq![d] + ds),
                Err(e) => Err(e),
            },
        }
    }
}

/// The decay read from the data of a decay line: branching ratio, number of daughters and the
/// pdg ids of the daughters.
pub open spec fn spec_parse_decay(data: Seq<char>) -> Result<DecayView, ErrorView> {
    let ws = words(data);
    match word_at::<Real>(ws, 0) {
        Err(k) => Err(chain(err(k), ErrorKindView::InvalidBranchingRatio)),
        Ok(br) => match word_at::<u8>(ws, 1) {
            Err(k) => Err(chain(err(k), ErrorKindView::InvalidNumOfDaughters)),
            Ok(n) => match spec_daughters(ws, n as int, 0) {
                Err(e) => Err(e),
                Ok(ds) => if ws.len() > 2 + n {
                    Err(
                        err(
                            ErrorKindView::IncompleteParse(
                                ws.subrange(2 + n, ws.len() as int),
                            ),
                        ),
                    )
                } else {
                    Ok(DecayView { branching_ratio: br, daughters: ds })
                },
            },
        },
    }
}

/// The decays of a decay table body that starts at line `j`, where `count` decay lines came
/// before, and the index of the first line after the body.
pub open spec fn decay_body(ls: Seq<Seq<char>>, j: int, pdg_id: i64, count: int) -> Result<
    (Seq<DecayView>, int),
    ErrorView,
>
    decreases ls.len() - j,
{
    if 0 <= j <= ls.len() {
        let k = skip_empty(ls, j);
        proof {
            lemma_skip_empty(ls, j);
        }
        if k < ls.len() && starts_with_ws(ls[k]) {
            match spec_parse_decay(body_line(ls[k]).data) {
                Err(e) => Err(
                    chain(
                        chain(e, ErrorKindView::InvalidDecayLine((count + 1) as nat)),
                        ErrorKindView::InvalidDecay(pdg_id),
                    ),
                ),
                Ok(d) => match decay_body(ls, k + 1, pdg_id, count + 1) {
                    Err(e) => Err(e),
                    Ok((ds, e)) => Ok((seq![d] + ds, e)),
                },
            }
        } else {
            Ok((seq![], k))
        }
    } else {
        Ok((seq![], j))
    }
}

pub proof fn lemma_decay_body(ls: Seq<Seq<char>>, j: int, pdg_id: i64, count: int)
    requires
        0 <= j <= ls.len(),
    ensures
        decay_body(ls, j, pdg_id, count) matches Ok((_, e)) ==> j <= e <= ls.len(),
    decreases ls.len() - j,
{
    lemma_skip_empty(ls, j);
    let k = skip_empty(ls, j);
    if k < ls.len() && starts_with_ws(ls[k]) {
        lemma_decay_body(ls, k + 1, pdg_id, count + 1);
    }
}

pub open spec fn block_keyword() -> Seq<char> {
    seq!['b', 'l', 'o', 'c', 'k']
}

pub open spec fn decay_keyword() -> Seq<char> {
    seq!['d', 'e', 'c', 'a', 'y']
}

/// The segment whose header is line `i`, and the index of the first line after it.
///
/// The header must not be indented. Its first word, in lower case, is the keyword: `block` or
/// `decay`.
pub open spec fn spec_parse_segment(ls: Seq<Seq<char>>, i: int) -> Result<
    (SegmentView, int),
    ErrorView,
> {
    let line = ls[i];
    if starts_with_ws(line) {
        Err(err(ErrorKindView::UnexpectedIdent(line)))
    } else {
        match spec_next_word(line) {
            None => Err(err(ErrorKindView::UnknownSegment(seq![]))),
            Some((kw, rest)) => {
                let k = lowercase(kw);
                if k == block_keyword() {
                    match spec_parse_block_header(rest) {
                        Err(e) => Err(e),
                        Ok((name, scale)) => {
                            let (b, e) = block_body(ls, i + 1);
                            Ok(
                                (
                                    SegmentView::Block {
                                        name: name,
                                        block: RawBlockView { scale: scale, lines: b },
                                    },
                                    e,
                                ),
                            )
                        },
                    }
                } else if k == decay_keyword() {
                    match spec_parse_decay_header(rest) {
                        Err(e) => Err(e),
                        Ok((pdg_id, width)) => match decay_body(ls, i + 1, pdg_id, 0) {
                            Err(e) => Err(e),
                            Ok((ds, e)) => Ok(
                                (
                                    SegmentView::Decay {
                                        pdg_id: pdg_id,
                                        width: width,
                                        decays: ds,
                                    },
                                    e,
                                ),
                            ),
                        },
                    }
                } else {
                    Err(err(ErrorKindView::UnknownSegment(k)))
                }
            },
        }
    }
}

pub proof fn lemma_parse_segment(ls: Seq<Seq<char>>, i: int)
    requires
        0 <= i < ls.len(),
    ensures
        spec_parse_segment(ls, i) matches Ok((_, e)) ==> i < e <= ls.len(),
{
    lemma_block_body(ls, i + 1);
    let line = ls[i];
    if !starts_with_ws(line) {
        if let Some((kw, rest)) = spec_next_word(line) {
            if lowercase(kw) != block_keyword() && lowercase(kw) == decay_keyword() {
                if let Ok((pdg_id, width)) = spec_parse_decay_header(rest) {
                    lemma_decay_body(ls, i + 1, pdg_id, 0);
                }
            }
        }
    }
}

proof fn lemma_trim_nonempty(l: Seq<char>)
    requires
        trim(l).len() > 0,
    ensures
        !all_ws(l),
        !starts_with_ws(l) ==> trim(l)[0] == l[0],
{
    lemma_skip_ws(l, 0);
    let a = skip_ws(l, 0);
    let t = trim_start(l);
    lemma_rskip_ws(t, t.len() as int);
    assert(a < l.len());
    assert(!is_ws(l[a]));
    if !starts_with_ws(l) {
        assert(a == 0);
        assert(trim(l)[0] == t[0]);
    }
}

/// Whether a line holds nothing but whitespace, or a comment.
pub fn is_skippable_line(l: &Vec<char>) -> (r: bool)
    ensures
        r == is_skippable(l@),
{
    let t = trim_chars(l);
    t.len() == 0 || t[0] == '#'
}

/// Whether a line starts with whitespace.
pub fn starts_with_whitespace(l: &Vec<char>) -> (r: bool)
    ensures
        r == starts_with_ws(l@),
{
    l.len() > 0 && is_whitespace(l[0])
}

/// The index of the first line at or after `i` that holds something other than whitespace or a
/// comment.
pub fn skip_empty_lines(lines: &Vec<Vec<char>>, i: usize) -> (r: usize)
    requires
        i <= lines.len(),
    ensures
        r as int == skip_empty(lines.deep_view(), i as int),
        i <= r <= lines.len(),
{
    let ghost ls = lines.deep_view();
    proof {
        lemma_skip_empty(ls, i as int);
    }
    let mut k: usize = i;
    while k < lines.len() && is_skippable_line(&lines[k])
        invariant
            i <= k <= lines.len(),
            ls == lines.deep_view(),
            skip_empty(ls, k as int) == skip_empty(ls, i as int),
        decreases lines.len() - k,
    {
        assert(ls[k as int] == lines@[k as int]@);
        k += 1;
    }
    if k < lines.len() {
        assert(ls[k as int] == lines@[k as int]@);
    }
    k
}

/// The data line made from a line of a body.
pub fn make_body_line(l: &Vec<char>) -> (r: Line)
    ensures
        r@ == body_line(l@),
{
    let a = skip_ws_at(l, 0);
    let t = sub_chars(l, a, l.len());
    let (d, c) = split_comment(&t);
    let data = string_from_chars(d.as_slice());
    let comment = match c {
        Some(c) => Some(string_from_chars(c.as_slice())),
        None => None,
    };
    Line { data, comment }
}

/// The data lines of the block body that starts at line `j`, and the index after it.
pub fn parse_block_lines(lines: &Vec<Vec<char>>, j: usize) -> (r: (Vec<Line>, usize))
    requires
        j <= lines.len(),
    ensures
        (lines_view(r.0@), r.1 as int) == block_body(lines.deep_view(), j as int),
{
    let ghost ls = lines.deep_view();
    let mut body: Vec<Line> = Vec::new();
    let mut i: usize = j;
    assert(lines_view(body@) =~= seq![]);
    loop
        invariant
            j <= i <= lines.len(),
            ls == lines.deep_view(),
            block_body(ls, j as int) == (lines_view(body@) + block_body(ls, i as int).0, block_body(
                ls,
                i as int,
            ).1),
        decreases lines.len() - i,
    {
        let k = skip_empty_lines(lines, i);
        if k < lines.len() && starts_with_whitespace(&lines[k]) {
            assert(ls[k as int] == lines@[k as int]@);
            let l = make_body_line(&lines[k]);
            let ghost old_body = lines_view(body@);
            body.push(l);
            assert(lines_view(body@) =~= old_body.push(l@));
            assert(lines_view(body@) + block_body(ls, k + 1).0 =~= old_body + (seq![body_line(ls[k as int])] + block_body(ls, k + 1).0));
            i = k + 1;
        } else {
            if k < lines.len() {
                assert(ls[k as int] == lines@[k as int]@);
            }
            assert(lines_view(body@) + block_body(ls, i as int).0 =~= lines_view(body@));
            return (body, k);
        }
    }
}

/// The words of `ws` from index `start` on.
fn words_after(ws: &Vec<String>, start: usize) -> (r: Vec<String>)
    requires
        start <= ws.len(),
    ensures
        words_view(r@) == words_view(ws@).subrange(start as int, ws@.len() as int),
{
    let mut r: Vec<String> = Vec::new();
    let mut k: usize = start;
    while k < ws.len()
        invariant
            start <= k <= ws.len(),
            words_view(r@) == words_view(ws@).subrange(start as int, k as int),
        decreases ws.len() - k,
    {
        let ghost old_r = words_view(r@);
        r.push(ws[k].clone());
        assert(words_view(r@) =~= old_r.push(ws@[k as int]@));
        assert(words_view(ws@).subrange(start as int, k + 1) =~= words_view(ws@).subrange(
            start as int,
            k as int,
        ).push(ws@[k as int]@));
        k += 1;
    }
    r
}

/// The scale in the rest of a block header after the block name.
pub fn parse_block_scale(h: &Vec<char>) -> (r: Result<Option<Real>, Error>)
    ensures
        match r {
            Ok(s) => spec_parse_block_scale(h@) == Ok::<Option<Seq<char>>, ErrorView>(scale_view(s)),
            Err(e) => spec_parse_block_scale(h@) == Err::<Option<Seq<char>>, ErrorView>(e@),
        },
{
    let ws = split_words(h);
    let ghost wv = words(h@);
    assert(words_view(ws@) =~= ws.deep_view());
    if ws.len() == 0 {
        return Ok(None);
    }
    let w0 = chars_of(ws[0].as_str());
    assert(w0@ == wv[0]);
    let q = w0.len() >= 1 && (w0[0] == 'q' || w0[0] == 'Q');
    let values: Vec<String> = if q && w0.len() == 2 && w0[1] == '=' {
        words_after(&ws, 1)
    } else if q && w0.len() == 1 {
        let eq = if ws.len() >= 2 {
            let w1 = chars_of(ws[1].as_str());
            assert(w1@ == wv[1]);
            let e = w1.len() == 1 && w1[0] == '=';
            assert(e == (wv[1] == seq!['='])) by {
                if w1.len() == 1 {
                    assert(seq!['='].len() == 1);
                    if w1[0] == '=' {
                        assert(w1@ =~= seq!['=']);
                    }
                }
            }
            e
        } else {
            false
        };
        if !eq {
            return Err(Error::new(ErrorKind::MalformedBlockHeader(string_from_chars(h.as_slice()))));
        }
        words_after(&ws, 2)
    } else if q && w0.len() > 2 && w0[1] == '=' {
        let rest = words_after(&ws, 1);
        let first = string_from_chars(sub_chars(&w0, 2, w0.len()).as_slice());
        let mut v: Vec<String> = Vec::new();
        v.push(first);
        let ghost fv = words_view(v@);
        let mut rest2 = rest;
        let ghost rv = words_view(rest2@);
        v.append(&mut rest2);
        assert(words_view(v@) =~= fv + rv);
        assert(fv =~= seq![wv[0].subrange(2, wv[0].len() as int)]);
        v
    } else {
        return Err(Error::new(ErrorKind::MalformedBlockHeader(string_from_chars(h.as_slice()))));
    };
    assert(scale_value_words(wv) == Some(words_view(values@)));
    match parse_all::<Real>(values.as_slice()) {
        Ok(v) => Ok(Some(v)),
        Err(e) => Err(e.chain(ErrorKind::InvalidScale)),
    }
}

/// The first whitespace-separated word of `s` and everything after it.
pub fn next_word_chars(s: &Vec<char>) -> (r: Option<(Vec<char>, Vec<char>)>)
    ensures
        match r {
            None => spec_next_word(s@) is None,
            Some((w, rest)) => spec_next_word(s@) == Some((w@, rest@)),
        },
{
    let a = skip_ws_at(s, 0);
    if a >= s.len() {
        return None;
    }
    let b = skip_word_at(s, a);
    Some((sub_chars(s, a, b), sub_chars(s, b, s.len())))
}

/// The lower case of a word.
pub fn lowercase_chars(w: &Vec<char>) -> (r: Vec<char>)
    ensures
        r@ == lowercase(w@),
{
    let s = string_from_chars(w.as_slice());
    let l = to_lowercase(s.as_str());
    chars_of(l.as_str())
}

/// The name (in lower case) and scale given in a block header after the keyword.
pub fn parse_block_header(h: &Vec<char>) -> (r: Result<(String, Option<Real>), Error>)
    ensures
        match r {
            Ok((n, s)) => spec_parse_block_header(h@) == Ok::<
                (Seq<char>, Option<Seq<char>>),
                ErrorView,
            >((n@, scale_view(s))),
            Err(e) => spec_parse_block_header(h@) == Err::<(Seq<char>, Option<Seq<char>>), ErrorView>(
                e@,
            ),
        },
{
    let (data, _) = split_comment(h);
    match next_word_chars(&data) {
        None => Err(Error::new(ErrorKind::MissingBlockName)),
        Some((name, rest)) => {
            let n = lowercase_chars(&name);
            match parse_block_scale(&rest) {
                Ok(s) => Ok((string_from_chars(n.as_slice()), s)),
                Err(e) => Err(e.chain(ErrorKind::InvalidBlock(string_from_chars(n.as_slice())))),
            }
        },
    }
}

/// The pdg id and width given in a decay table header after the keyword.
pub fn parse_decay_header(h: &Vec<char>) -> (r: Result<(i64, Real), Error>)
    ensures
        match r {
            Ok((p, w)) => spec_parse_decay_header(h@) == Ok::<(i64, Seq<char>), ErrorView>((p, w@)),
            Err(e) => spec_parse_decay_header(h@) == Err::<(i64, Seq<char>), ErrorView>(e@),
        },
{
    let (data, _) = split_comment(h);
    let ws = split_words(&data);
    let ghost wv = words_view(ws@);
    assert(wv =~= ws.deep_view());
    match parse_word_at::<i64>(ws.as_slice(), 0) {
        Err(e) => {
            assert(e@.1 =~= seq![]);
            Err(e.chain(ErrorKind::InvalidDecayingPdgId))
        },
        Ok(p) => {
            let rest = &ws.as_slice()[1..ws.len()];
            assert(words_view(rest@) =~= wv.subrange(1, wv.len() as int));
            match parse_all::<Real>(rest) {
                Ok(w) => Ok((p, w)),
                Err(e) => Err(e.chain(ErrorKind::InvalidWidth).chain(ErrorKind::InvalidDecay(p))),
            }
        },
    }
}

/// The decay read from the data of a decay line.
pub fn parse_decay(data: &Vec<char>) -> (r: Result<Decay, Error>)
    ensures
        match r {
            Ok(d) => spec_parse_decay(data@) == Ok::<DecayView, ErrorView>(d@),
            Err(e) => spec_parse_decay(data@) == Err::<DecayView, ErrorView>(e@),
        },
{
    let ws = split_words(data);
    let ghost wv = words_view(ws@);
    assert(wv =~= ws.deep_view());
    let br = match parse_word_at::<Real>(ws.as_slice(), 0) {
        Err(e) => {
            assert(e@.1 =~= seq![]);
            return Err(e.chain(ErrorKind::InvalidBranchingRatio));
        },
        Ok(br) => br,
    };
    let n = match parse_word_at::<u8>(ws.as_slice(), 1) {
        Err(e) => {
            assert(e@.1 =~= seq![]);
            return Err(e.chain(ErrorKind::InvalidNumOfDaughters));
        },
        Ok(n) => n,
    };
    let mut daughters: Vec<i64> = Vec::new();
    let mut i: u8 = 0;
    assert(daughters@ =~= seq![]);
    while i < n
        invariant
            i <= n,
            ws@.len() >= 2,
            wv == words_view(ws@),
            wv == words(data@),
            word_at::<Real>(wv, 0) == Ok::<Seq<char>, ErrorKindView>(br@),
            word_at::<u8>(wv, 1) == Ok::<u8, ErrorKindView>(n),
            match spec_daughters(wv, n as int, i as int) {
                Ok(ds) => spec_daughters(wv, n as int, 0) == Ok::<Seq<i64>, ErrorView>(
                    daughters@ + ds,
                ),
                Err(e) => spec_daughters(wv, n as int, 0) == Err::<Seq<i64>, ErrorView>(e),
            },
        decreases n - i,
    {
        let k = 2 + i as usize;
        if k >= ws.len() {
            return Err(Error::new(ErrorKind::NotEnoughDaughters(n, i)));
        }
        match parse_word_at::<i64>(ws.as_slice(), k) {
            Err(e) => {
                assert(e@.1 =~= seq![]);
                return Err(e.chain(ErrorKind::InvalidDaughterId));
            },
            Ok(d) => {
                let ghost old = daughters@;
                daughters.push(d);
                proof {
                    match spec_daughters(wv, n as int, i + 1) {
                        Ok(ds) => {
                            assert(daughters@ + ds =~= old + (seq![d] + ds));
                        },
                        Err(_) => {},
                    }
                }
            },
        }
        i += 1;
    }
    assert(daughters@ + seq![] =~= daughters@);
    let m = 2 + n as usize;
    if ws.len() > m {
        let mut rest: Vec<String> = Vec::new();
        let mut j: usize = m;
        while j < ws.len()
            invariant
                m <= j <= ws@.len(),
                wv == words_view(ws@),
                rest.deep_view() == wv.subrange(m as int, j as int),
            decreases ws.len() - j,
        {
            let w = ws[j].clone();
            let ghost old_rest = rest.deep_view();
            rest.push(w);
            assert(rest.deep_view() =~= old_rest.push(w@));
            assert(wv.subrange(m as int, j + 1) =~= wv.subrange(m as int, j as int).push(
                ws@[j as int]@,
            ));
            j += 1;
        }
        return Err(Error::new(ErrorKind::IncompleteParse(rest)));
    }
    Ok(Decay { branching_ratio: br, daughters })
}

/// The decays of the decay table body that starts at line `j`, and the index after it.
pub fn parse_decay_lines(lines: &Vec<Vec<char>>, j: usize, pdg_id: i64) -> (r: Result<
    (Vec<Decay>, usize),
    Error,
>)
    requires
        j <= lines.len(),
    ensures
        match r {
            Ok((ds, e)) => decay_body(lines.deep_view(), j as int, pdg_id, 0) == Ok::<
                (Seq<DecayView>, int),
                ErrorView,
            >((decays_view(ds@), e as int)),
            Err(x) => decay_body(lines.deep_view(), j as int, pdg_id, 0) == Err::<
                (Seq<DecayView>, int),
                ErrorView,
            >(x@),
        },
{
    let ghost ls = lines.deep_view();
    let mut decays: Vec<Decay> = Vec::new();
    let mut i: usize = j;
    assert(decays_view(decays@) =~= seq![]);
    loop
        invariant
            j <= i <= lines.len(),
            ls == lines.deep_view(),
            decays@.len() <= i,
            match decay_body(ls, i as int, pdg_id, decays@.len() as int) {
                Ok((ds, e)) => decay_body(ls, j as int, pdg_id, 0) == Ok::<
                    (Seq<DecayView>, int),
                    ErrorView,
                >((decays_view(decays@) + ds, e)),
                Err(x) => decay_body(ls, j as int, pdg_id, 0) == Err::<
                    (Seq<DecayView>, int),
                    ErrorView,
                >(x),
            },
        decreases lines.len() - i,
    {
        let k = skip_empty_lines(lines, i);
        if k < lines.len() && starts_with_whitespace(&lines[k]) {
            assert(ls[k as int] == lines@[k as int]@);
            let l = make_body_line(&lines[k]);
            let data = chars_of(l.data.as_str());
            match parse_decay(&data) {
                Err(e) => {
                    let count = decays.len();
                    return Err(
                        e.chain(ErrorKind::InvalidDecayLine(count + 1)).chain(
                            ErrorKind::InvalidDecay(pdg_id),
                        ),
                    );
                },
                Ok(d) => {
                    let ghost old = decays_view(decays@);
                    let ghost dv = d@;
                    decays.push(d);
                    assert(decays_view(decays@) =~= old.push(dv));
                    proof {
                        match decay_body(ls, k + 1, pdg_id, decays@.len() as int) {
                            Ok((ds, e)) => {
                                assert(decays_view(decays@) + ds =~= old + (seq![dv] + ds));
                            },
                            Err(_) => {},
                        }
                    }
                    i = k + 1;
                },
            }
        } else {
            if k < lines.len() {
                assert(ls[k as int] == lines@[k as int]@);
            }
            assert(decays_view(decays@) + seq![] =~= decays_view(decays@));
            return Ok((decays, k));
        }
    }
}

/// Reads the segment whose header is line `i`, which is not skippable.
///
/// Returns the segment and the index of the first line after it.
pub fn parse_segment_at(lines: &Vec<Vec<char>>, i: usize) -> (r: Result<(Segment, usize), Error>)
    requires
        i < lines.len(),
        !is_skippable(lines.deep_view()[i as int]),
    ensures
        match r {
            Ok((seg, e)) => spec_parse_segment(lines.deep_view(), i as int) == Ok::<
                (SegmentView, int),
                ErrorView,
            >((seg@, e as int)),
            Err(x) => spec_parse_segment(lines.deep_view(), i as int) == Err::<
                (SegmentView, int),
                ErrorView,
            >(x@),
        },
{
    let ghost ls = lines.deep_view();
    let line = &lines[i];
    assert(ls[i as int] == line@);
    if starts_with_whitespace(line) {
        return Err(Error::new(ErrorKind::UnexpectedIdent(string_from_chars(line.as_slice()))));
    }
    match next_word_chars(line) {
        None => {
            proof {
                lemma_trim_nonempty(line@);
                lemma_skip_ws(line@, 0);
            }
            Err(Error::new(ErrorKind::UnknownSegment(string_from_chars(&[]))))
        },
        Some((kw, rest)) => {
            let k = lowercase_chars(&kw);
            let block_kw = chars_of("block");
            let decay_kw = chars_of("decay");
            proof {
                reveal_strlit("block");
                reveal_strlit("decay");
                assert(block_kw@ =~= block_keyword());
                assert(decay_kw@ =~= decay_keyword());
            }
            if chars_eq(&k, &block_kw) {
                match parse_block_header(&rest) {
                    Err(e) => Err(e),
                    Ok((name, scale)) => {
                        let (body, e) = parse_block_lines(lines, i + 1);
                        Ok((Segment::Block { name, block: RawBlock { scale, lines: body } }, e))
                    },
                }
            } else if chars_eq(&k, &decay_kw) {
                match parse_decay_header(&rest) {
                    Err(e) => Err(e),
                    Ok((pdg_id, width)) => match parse_decay_lines(lines, i + 1, pdg_id) {
                        Err(e) => Err(e),
                        Ok((decays, e)) => Ok((Segment::Decay { pdg_id, width, decays }, e)),
                    },
                }
            } else {
                Err(Error::new(ErrorKind::UnknownSegment(string_from_chars(k.as_slice()))))
            }
        },
    }
}

/// Reads the next segment, whose header is the first line at or after `i` that holds something
/// other than whitespace or a comment.
///
/// Gives `None` if there is no such line, else the segment (or the error it gives) and the index
/// of the first line after it.
pub fn parse_segment(lines: &Vec<Vec<char>>, i: usize) -> (r: Option<Result<(Segment, usize), Error>>)
    requires
        i <= lines.len(),
    ensures
        ({
            let ls = lines.deep_view();
            let j = skip_empty(ls, i as int);
            match r {
                None => j >= ls.len(),
                Some(Ok((seg, e))) => j < ls.len() && spec_parse_segment(ls, j) == Ok::<
                    (SegmentView, int),
                    ErrorView,
                >((seg@, e as int)),
                Some(Err(x)) => j < ls.len() && spec_parse_segment(ls, j) == Err::<
                    (SegmentView, int),
                    ErrorView,
                >(x@),
            }
        }),
{
    let j = skip_empty_lines(lines, i);
    proof {
        lemma_skip_empty(lines.deep_view(), i as int);
    }
    if j >= lines.len() {
        None
    } else {
        Some(parse_segment_at(lines, j))
    }
}

/// Reads a block of type `B` from its data lines and scale.
pub fn parse_block_from<B: SlhaBlock>(input: &[Line], scale: Option<Real>) -> (r: Result<B, Error>)
    ensures
        match r {
            Ok(b) => B::spec_parse(lines_view(input@), scale_view(scale)) == Ok::<
                <B as DeepView>::V,
                ErrorView,
            >(b.deep_view()),
            Err(e) => B::spec_parse(lines_view(input@), scale_view(scale)) == Err::<
                <B as DeepView>::V,
                ErrorView,
            >(e@),
        },
{
    B::parse(input, scale)
}

/// Skipping whitespace in a suffix of `s` is skipping it in `s`.
proof fn lemma_skip_ws_sub(s: Seq<char>, a: int, k: int)
    requires
        0 <= a <= s.len(),
        0 <= k <= s.len() - a,
    ensures
        skip_ws(s.subrange(a, s.len() as int), k) + a == skip_ws(s, a + k),
    decreases s.len() - a - k,
{
    let t = s.subrange(a, s.len() as int);
    if k < t.len() && is_ws(t[k]) {
        lemma_skip_ws_sub(s, a, k + 1);
    }
}

} // verus!
