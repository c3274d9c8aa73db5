//! Blocks: the lines of a BLOCK segment and the rust types they can be read into.
use vstd::prelude::*;
use crate::errors::{Error, ErrorKind, ErrorKindView, ErrorView, chain, chain_err, err};
use crate::parseable::{Parseable, Real, parse_all, spec_parse_all, words_view};
use crate::text::{chars_of, split_words, words};

verus! {

/// A data line read from an SLHA file.
#[derive(Clone, Debug, PartialEq, Eq, Hash)]
pub struct Line {
    /// The data contained in the line.
    pub data: String,
    /// The comment at the end of the line, if present.
    pub comment: Option<String>,
}

/// The mathematical value of a `Line`.
pub struct LineView {
    pub data: Seq<char>,
    pub comment: Option<Seq<char>>,
}

impl View for Line {
    type V = LineView;

    open spec fn view(&self) -> LineView {
        LineView { data: self.data@, comment: self.comment.deep_view() }
    }
}

/// The views of a sequence of lines.
pub open spec fn lines_view(ls: Seq<Line>) -> Seq<LineView> {
    ls.map_values(|l: Line| l@)
}

/// The view of an optional scale.
pub open spec fn scale_view(s: Option<Real>) -> Option<Seq<char>> {
    s.deep_view()
}

/// A copy of an optional scale.
pub fn clone_scale(s: &Option<Real>) -> (r: Option<Real>)
    ensures
        scale_view(r) == scale_view(*s),
{
    match s {
        Some(x) => Some(x.clone()),
        None => None,
    }
}

/// A type that can be read from the data lines of a block.
pub trait SlhaBlock: Sized + DeepView {
    /// The value read from the given data lines and scale, or the error that reading it gives.
    spec fn spec_parse(lines: Seq<LineView>, scale: Option<Seq<char>>) -> Result<
        <Self as DeepView>::V,
        ErrorView,
    >;

    /// The scale of a value.
    spec fn spec_scale(v: <Self as DeepView>::V) -> Option<Seq<char>>;

    /// Reads a block from its data lines and the scale given in its header.
    fn parse(lines: &[Line], scale: Option<Real>) -> (r: Result<Self, Error>)
        ensures
            match r {
                Ok(b) => Self::spec_parse(lines_view(lines@), scale_view(scale)) == Ok::<
                    <Self as DeepView>::V,
                    ErrorView,
                >(b.deep_view()),
                Err(e) => Self::spec_parse(lines_view(lines@), scale_view(scale)) == Err::<
                    <Self as DeepView>::V,
                    ErrorView,
                >(e@),
            },
    ;

    /// Returns the scale at which the block contents are defined, if any.
    fn scale(&self) -> (r: Option<Real>)
        ensures
            scale_view(r) == Self::spec_scale(self.deep_view()),
    ;
}

/// The index of the first word of the value on a line whose key has no fixed length: the
/// longest run of words at the end of the line that reads as a value of type `V` starts there.
pub open spec fn value_start_from<V: Parseable>(ws: Seq<Seq<char>>, j: int) -> int
    decreases ws.len() - j,
{
    if j >= ws.len() {
        ws.len() as int
    } else if spec_parse_all::<V>(ws.subrange(j, ws.len() as int)) is Ok {
        j
    } else {
        value_start_from::<V>(ws, j + 1)
    }
}

/// The key and value read from the words of a data line.
///
/// A key of fixed length takes the first words and the value the rest. Otherwise the value
/// takes the longest run of words at the end of the line that it can be read from, and the key
/// the words before.
pub open spec fn spec_parse_line<K: Parseable, V: Parseable>(ws: Seq<Seq<char>>) -> Result<
    (<K as DeepView>::V, <V as DeepView>::V),
    ErrorView,
> {
    if K::spec_length() is Some {
        match K::spec_parse(ws, 0) {
            Err(k) => Err(chain(err(k), ErrorKindView::InvalidBlockKey)),
            Ok((key, e)) => match spec_parse_all::<V>(ws.subrange(e, ws.len() as int)) {
                Err(x) => Err(chain(x, ErrorKindView::InvalidBlockValue)),
                Ok(v) => Ok((key, v)),
            },
        }
    } else {
        let j = value_start_from::<V>(ws, 0);
        match spec_parse_all::<K>(ws.subrange(0, j)) {
            Err(x) => Err(chain(x, ErrorKindView::InvalidBlockKey)),
            Ok(key) => match spec_parse_all::<V>(ws.subrange(j, ws.len() as int)) {
                Err(x) => Err(chain(x, ErrorKindView::InvalidBlockValue)),
                Ok(v) => Ok((key, v)),
            },
        }
    }
}

/// `key` is the key of one of the entries.
pub open spec fn has_key<KV, VV>(entries: Seq<(KV, VV)>, key: KV) -> bool {
    exists|i: int| 0 <= i < entries.len() && #[trigger] entries[i].0 == key
}

/// The entries read from the first `n` data lines of a block, or the first error.
///
/// An error in line `n` (counted from 1) is reported as `InvalidBlockLine(n)`; a key that an
/// earlier line has as well is reported as `DuplicateKey(n)`.
pub open spec fn spec_block_entries<K: Parseable, V: Parseable>(
    lines: Seq<LineView>,
    n: int,
) -> Result<Seq<(<K as DeepView>::V, <V as DeepView>::V)>, ErrorView>
    decreases n,
{
    if n <= 0 {
        Ok(seq![])
    } else {
        match spec_block_entries::<K, V>(lines, n - 1) {
            Err(e) => Err(e),
            Ok(es) => match spec_parse_line::<K, V>(words(lines[n - 1].data)) {
                Err(e) => Err(chain(e, ErrorKindView::InvalidBlockLine(n as nat))),
                Ok(kv) => if has_key(es, kv.0) {
                    Err(err(ErrorKindView::DuplicateKey(n as nat)))
                } else {
                    Ok(es.push(kv))
                },
            },
        }
    }
}

pub proof fn lemma_block_entries_err<K: Parseable, V: Parseable>(
    lines: Seq<LineView>,
    n: int,
    m: int,
)
    requires
        0 <= n <= m,
        spec_block_entries::<K, V>(lines, n) is Err,
    ensures
        spec_block_entries::<K, V>(lines, m) == spec_block_entries::<K, V>(lines, n),
    decreases m - n,
{
    if m > n {
        lemma_block_entries_err::<K, V>(lines, n, m - 1);
    }
}

/// No key occurs twice among the entries read from the data lines of a block.
pub proof fn lemma_block_entries_distinct<K: Parseable, V: Parseable>(lines: Seq<LineView>, n: int)
    ensures
        spec_block_entries::<K, V>(lines, n) matches Ok(es) ==> forall|i: int, j: int|
            0 <= i < j < es.len() ==> #[trigger] es[i].0 != #[trigger] es[j].0,
    decreases n,
{
    if n > 0 {
        lemma_block_entries_distinct::<K, V>(lines, n - 1);
        if let Ok(es) = spec_block_entries::<K, V>(lines, n) {
            let prev = spec_block_entries::<K, V>(lines, n - 1)->Ok_0;
            assert forall|i: int, j: int| 0 <= i < j < es.len() implies #[trigger] es[i].0
                != #[trigger] es[j].0 by {
                if j == es.len() - 1 {
                    if es[i].0 == es[j].0 {
                        assert(prev[i].0 == es[j].0);
                    }
                } else {
                    assert(es[i] == prev[i] && es[j] == prev[j]);
                }
            }
        }
    }
}

/// A block read from data lines never holds the same key twice.
pub proof fn lemma_block_keys_distinct<K: Parseable, V: Parseable>(
    lines: Seq<LineView>,
    scale: Option<Seq<char>>,
)
    ensures
        Block::<K, V>::spec_parse(lines, scale) matches Ok(b) ==> forall|i: int, j: int|
            0 <= i < j < b.map.len() ==> #[trigger] b.map[i].0 != #[trigger] b.map[j].0,
{
    lemma_block_entries_distinct::<K, V>(lines, lines.len() as int);
}

/// A block read from data lines has one entry per line, in order: the key and value that the
/// line reads as.
pub proof fn lemma_block_entries_per_line<K: Parseable, V: Parseable>(lines: Seq<LineView>, n: int)
    ensures
        spec_block_entries::<K, V>(lines, n) matches Ok(es) ==> n <= 0 && es.len() == 0 || es.len()
            == n && forall|i: int|
            0 <= i < n ==> #[trigger] spec_parse_line::<K, V>(words(lines[i].data)) == Ok::<
                (<K as DeepView>::V, <V as DeepView>::V),
                ErrorView,
            >(es[i]),
    decreases n,
{
    if n > 0 {
        lemma_block_entries_per_line::<K, V>(lines, n - 1);
        if let Ok(es) = spec_block_entries::<K, V>(lines, n) {
            let prev = spec_block_entries::<K, V>(lines, n - 1)->Ok_0;
            assert forall|i: int| 0 <= i < n implies #[trigger] spec_parse_line::<K, V>(
                words(lines[i].data),
            ) == Ok::<(<K as DeepView>::V, <V as DeepView>::V), ErrorView>(es[i]) by {
                if i < n - 1 {
                    assert(es[i] == prev[i]);
                }
            }
        }
    }
}

/// Two data lines that read to the same key make reading the block an error; otherwise the block
/// has one entry per data line, holding what that line reads as.
pub proof fn lemma_block_reads_lines<K: Parseable, V: Parseable>(
    lines: Seq<LineView>,
    scale: Option<Seq<char>>,
)
    ensures
        Block::<K, V>::spec_parse(lines, scale) matches Ok(b) ==> b.map.len() == lines.len()
            && forall|i: int|
            0 <= i < lines.len() ==> #[trigger] spec_parse_line::<K, V>(words(lines[i].data))
                == Ok::<(<K as DeepView>::V, <V as DeepView>::V), ErrorView>(b.map[i]),
        (exists|a: int, b: int|
            0 <= a < b < lines.len() && #[trigger] spec_parse_line::<K, V>(words(lines[a].data)) is Ok
                && #[trigger] spec_parse_line::<K, V>(words(lines[b].data)) is Ok
                && spec_parse_line::<K, V>(words(lines[a].data))->Ok_0.0 == spec_parse_line::<
                K,
                V,
            >(words(lines[b].data))->Ok_0.0) ==> Block::<K, V>::spec_parse(lines, scale) is Err,
{
    let n = lines.len() as int;
    lemma_block_entries_per_line::<K, V>(lines, n);
    lemma_block_entries_distinct::<K, V>(lines, n);
    if exists|a: int, b: int|
        0 <= a < b < lines.len() && #[trigger] spec_parse_line::<K, V>(words(lines[a].data)) is Ok
            && #[trigger] spec_parse_line::<K, V>(words(lines[b].data)) is Ok
            && spec_parse_line::<K, V>(words(lines[a].data))->Ok_0.0 == spec_parse_line::<K, V>(
            words(lines[b].data),
        )->Ok_0.0 {
        let (a, b) = choose|a: int, b: int|
            0 <= a < b < lines.len() && #[trigger] spec_parse_line::<K, V>(words(lines[a].data)) is Ok
                && #[trigger] spec_parse_line::<K, V>(words(lines[b].data)) is Ok
                && spec_parse_line::<K, V>(words(lines[a].data))->Ok_0.0 == spec_parse_line::<
                K,
                V,
            >(words(lines[b].data))->Ok_0.0;
        if let Ok(es) = spec_block_entries::<K, V>(lines, n) {
            assert(es[a].0 == es[b].0);
        }
    }
}

/// Reads the key and value from the words of a data line.
pub fn parse_line<K: Parseable, V: Parseable>(ws: &[String]) -> (r: Result<(K, V), Error>)
    ensures
        match r {
            Ok((k, v)) => spec_parse_line::<K, V>(words_view(ws@)) == Ok::<
                (<K as DeepView>::V, <V as DeepView>::V),
                ErrorView,
            >((k.deep_view(), v.deep_view())),
            Err(e) => spec_parse_line::<K, V>(words_view(ws@)) == Err::<
                (<K as DeepView>::V, <V as DeepView>::V),
                ErrorView,
            >(e@),
        },
{
    let ghost wv = words_view(ws@);
    if K::length().is_some() {
        match K::parse(ws, 0) {
            Err(x) => {
                assert(x@.1 =~= seq![]);
                Err(x.chain(ErrorKind::InvalidBlockKey))
            },
            Ok((key, e)) => {
                let rest = &ws[e..ws.len()];
                assert(words_view(rest@) =~= wv.subrange(e as int, wv.len() as int));
                match parse_all::<V>(rest) {
                    Err(x) => Err(x.chain(ErrorKind::InvalidBlockValue)),
                    Ok(v) => Ok((key, v)),
                }
            },
        }
    } else {
        let mut j: usize = 0;
        let mut found = false;
        while j < ws.len() && !found
            invariant
                j <= ws@.len(),
                found ==> spec_parse_all::<V>(wv.subrange(j as int, wv.len() as int)) is Ok,
                found ==> value_start_from::<V>(wv, j as int) == j,
                found ==> value_start_from::<V>(wv, 0) == j,
                !found ==> value_start_from::<V>(wv, j as int) == value_start_from::<V>(wv, 0),
                wv == words_view(ws@),
            decreases ws.len() - j + (if found { 0int } else { 1int }),
        {
            let tail = &ws[j..ws.len()];
            assert(words_view(tail@) =~= wv.subrange(j as int, wv.len() as int));
            match parse_all::<V>(tail) {
                Ok(_) => {
                    found = true;
                },
                Err(_) => {
                    j += 1;
                },
            }
        }
        assert(value_start_from::<V>(wv, 0) == j);
        let head = &ws[0..j];
        assert(words_view(head@) =~= wv.subrange(0, j as int));
        let tail = &ws[j..ws.len()];
        assert(words_view(tail@) =~= wv.subrange(j as int, wv.len() as int));
        match parse_all::<K>(head) {
            Err(x) => Err(x.chain(ErrorKind::InvalidBlockKey)),
            Ok(key) => match parse_all::<V>(tail) {
                Err(x) => Err(x.chain(ErrorKind::InvalidBlockValue)),
                Ok(v) => Ok((key, v)),
            },
        }
    }
}

/// Reads the entries of a block from its data lines.
pub fn parse_block_body<K: Parseable, V: Parseable>(lines: &[Line]) -> (r: Result<Vec<(K, V)>, Error>)
    ensures
        match r {
            Ok(es) => spec_block_entries::<K, V>(lines_view(lines@), lines@.len() as int) == Ok::<
                Seq<(<K as DeepView>::V, <V as DeepView>::V)>,
                ErrorView,
            >(es.deep_view()),
            Err(e) => spec_block_entries::<K, V>(lines_view(lines@), lines@.len() as int) == Err::<
                Seq<(<K as DeepView>::V, <V as DeepView>::V)>,
                ErrorView,
            >(e@),
        },
{
    let ghost lv = lines_view(lines@);
    let mut es: Vec<(K, V)> = Vec::new();
    let mut n: usize = 0;
    assert(es.deep_view() =~= seq![]);
    while n < lines.len()
        invariant
            n <= lines@.len(),
            lv == lines_view(lines@),
            spec_block_entries::<K, V>(lv, n as int) == Ok::<
                Seq<(<K as DeepView>::V, <V as DeepView>::V)>,
                ErrorView,
            >(es.deep_view()),
        decreases lines.len() - n,
    {
        let cs = chars_of(lines[n].data.as_str());
        let ws = split_words(&cs);
        assert(words_view(ws@) =~= words(lv[n as int].data));
        match parse_line::<K, V>(ws.as_slice()) {
            Err(x) => {
                let e = x.chain(ErrorKind::InvalidBlockLine(n + 1));
                proof {
                    lemma_block_entries_err::<K, V>(lv, n + 1, lines@.len() as int);
                }
                return Err(e);
            },
            Ok((key, value)) => {
                let mut i: usize = 0;
                while i < es.len()
                    invariant
                        i <= es@.len(),
                        n < lines.len(),
                        lv == lines_view(lines@),
                        spec_block_entries::<K, V>(lv, n as int) == Ok::<
                            Seq<(<K as DeepView>::V, <V as DeepView>::V)>,
                            ErrorView,
                        >(es.deep_view()),
                        spec_parse_line::<K, V>(words(lv[n as int].data)) == Ok::<
                            (<K as DeepView>::V, <V as DeepView>::V),
                            ErrorView,
                        >((key.deep_view(), value.deep_view())),
                        forall|m: int| 0 <= m < i ==> es.deep_view()[m].0 != key.deep_view(),
                    decreases es.len() - i,
                {
                    if es[i].0.same(&key) {
                        proof {
                            assert(es.deep_view()[i as int].0 == key.deep_view());
                            assert(has_key(es.deep_view(), key.deep_view()));
                            lemma_block_entries_err::<K, V>(lv, n + 1, lines@.len() as int);
                        }
                        return Err(Error::new(ErrorKind::DuplicateKey(n + 1)));
                    }
                    i += 1;
                }
                let ghost old_es = es.deep_view();
                let ghost kv = (key.deep_view(), value.deep_view());
                es.push((key, value));
                assert(es.deep_view() =~= old_es.push(kv));
            },
        }
        n += 1;
    }
    Ok(es)
}

/// A block from an SLHA file treated as a map from keys to values.
///
/// The entries are kept in the order of the lines they were read from; no key occurs twice.
#[derive(Debug)]
pub struct Block<Key, Value> {
    /// The scale at which this block is defined, if any.
    pub scale: Option<Real>,
    /// The entries of the block, as pairs of key and value.
    pub map: Vec<(Key, Value)>,
}

/// A block that maps a list of words to a value: the value is read from the end of each line
/// and the words before it make up the key.
pub type BlockStr<Value> = Block<Vec<String>, Value>;

/// The mathematical value of a `Block`.
pub struct BlockView<KV, VV> {
    pub scale: Option<Seq<char>>,
    pub map: Seq<(KV, VV)>,
}

impl<K: DeepView, V: DeepView> DeepView for Block<K, V> {
    type V = BlockView<<K as DeepView>::V, <V as DeepView>::V>;

    open spec fn deep_view(&self) -> Self::V {
        BlockView { scale: scale_view(self.scale), map: self.map.deep_view() }
    }
}

impl<K: Parseable, V: Parseable> SlhaBlock for Block<K, V> {
    /// One entry per data line; an error in any line is an error of the block.
    open spec fn spec_parse(lines: Seq<LineView>, scale: Option<Seq<char>>) -> Result<
        BlockView<<K as DeepView>::V, <V as DeepView>::V>,
        ErrorView,
    > {
        match spec_block_entries::<K, V>(lines, lines.len() as int) {
            Ok(es) => Ok(BlockView { scale: scale, map: es }),
            Err(e) => Err(e),
        }
    }

    open spec fn spec_scale(v: BlockView<<K as DeepView>::V, <V as DeepView>::V>) -> Option<
        Seq<char>,
    > {
        v.scale
    }

    fn parse(lines: &[Line], scale: Option<Real>) -> (r: Result<Self, Error>) {
        match parse_block_body::<K, V>(lines) {
            Ok(map) => Ok(Block { scale, map }),
            Err(e) => Err(e),
        }
    }

    fn scale(&self) -> (r: Option<Real>) {
        clone_scale(&self.scale)
    }
}

impl<K: Parseable, V: Parseable> Block<K, V> {
    /// The value stored under `key`, if any (that of the first entry with that key).
    pub fn get(&self, key: &K) -> (r: Option<&V>)
        ensures
            r is None <==> !has_key(self.deep_view().map, key.deep_view()),
            r matches Some(v) ==> exists|i: int|
                0 <= i < self.map@.len() && self.map@[i].0.deep_view() == key.deep_view()
                    && self.map@[i].1 == *v && forall|m: int|
                    0 <= m < i ==> #[trigger] self.map@[m].0.deep_view() != key.deep_view(),
    {
        let mut i: usize = 0;
        while i < self.map.len()
            invariant
                i <= self.map@.len(),
                forall|m: int| 0 <= m < i ==> self.map@[m].0.deep_view() != key.deep_view(),
            decreases self.map.len() - i,
        {
            if self.map[i].0.same(key) {
                assert(self.deep_view().map[i as int].0 == self.map@[i as int].0.deep_view());
                return Some(&self.map[i].1);
            }
            i += 1;
        }
        assert forall|m: int| 0 <= m < self.deep_view().map.len() implies #[trigger] self.deep_view().map[m].0
            != key.deep_view() by {
            assert(self.deep_view().map[m].0 == self.map@[m].0.deep_view());
        }
        None
    }

    /// The number of entries.
    pub fn len(&self) -> (r: usize)
        ensures
            r == self.map@.len(),
    {
        self.map.len()
    }
}

/// A block that holds a single value.
#[derive(Debug)]
pub struct BlockSingle<Value> {
    /// The value of the block.
    pub value: Value,
    /// The scale at which this block is defined, if any.
    pub scale: Option<Real>,
}

/// The mathematical value of a `BlockSingle`.
pub struct BlockSingleView<VV> {
    pub value: VV,
    pub scale: Option<Seq<char>>,
}

impl<V: DeepView> DeepView for BlockSingle<V> {
    type V = BlockSingleView<<V as DeepView>::V>;

    open spec fn deep_view(&self) -> Self::V {
        BlockSingleView { value: self.value.deep_view(), scale: scale_view(self.scale) }
    }
}

impl<V: Parseable> SlhaBlock for BlockSingle<V> {
    /// Exactly one data line, read as a whole into the value.
    open spec fn spec_parse(lines: Seq<LineView>, scale: Option<Seq<char>>) -> Result<
        BlockSingleView<<V as DeepView>::V>,
        ErrorView,
    > {
        if lines.len() != 1 {
            Err(err(ErrorKindView::WrongNumberOfValues(lines.len())))
        } else {
            match spec_parse_all::<V>(words(lines[0].data)) {
                Ok(v) => Ok(BlockSingleView { value: v, scale: scale }),
                Err(e) => Err(e),
            }
        }
    }

    open spec fn spec_scale(v: BlockSingleView<<V as DeepView>::V>) -> Option<Seq<char>> {
        v.scale
    }

    fn parse(lines: &[Line], scale: Option<Real>) -> (r: Result<Self, Error>) {
        if lines.len() != 1 {
            return Err(Error::new(ErrorKind::WrongNumberOfValues(lines.len())));
        }
        assert(lines_view(lines@)[0] == lines@[0]@);
        let cs = chars_of(lines[0].data.as_str());
        let ws = split_words(&cs);
        assert(words_view(ws@) =~= ws.deep_view());
        match parse_all::<V>(ws.as_slice()) {
            Ok(value) => Ok(BlockSingle { value, scale }),
            Err(e) => Err(e),
        }
    }

    fn scale(&self) -> (r: Option<Real>) {
        clone_scale(&self.scale)
    }
}

/// An unparsed block from an SLHA file: its data lines and its scale.
#[derive(Clone, Debug, PartialEq)]
pub struct RawBlock {
    /// The scale given in the block header.
    pub scale: Option<Real>,
    /// The data lines that make up the block, in the order they appear in the SLHA file.
    pub lines: Vec<Line>,
}

/// The mathematical value of a `RawBlock`.
pub struct RawBlockView {
    pub scale: Option<Seq<char>>,
    pub lines: Seq<LineView>,
}

impl View for RawBlock {
    type V = RawBlockView;

    open spec fn view(&self) -> RawBlockView {
        RawBlockView { scale: scale_view(self.scale), lines: lines_view(self.lines@) }
    }
}

/// The block of type `B` read from a raw block; an error names the block.
pub open spec fn spec_to_block<B: SlhaBlock>(raw: RawBlockView, name: Seq<char>) -> Result<
    <B as DeepView>::V,
    ErrorView,
> {
    chain_err(B::spec_parse(raw.lines, raw.scale), ErrorKindView::InvalidBlock(name))
}

impl RawBlock {
    /// Converts a raw block into a rust object; errors are reported as errors of the block
    /// `name`.
    pub fn to_block<B: SlhaBlock>(&self, name: &str) -> (r: Result<B, Error>)
        ensures
            match r {
                Ok(b) => spec_to_block::<B>(self@, name@) == Ok::<<B as DeepView>::V, ErrorView>(
                    b.deep_view(),
                ),
                Err(e) => spec_to_block::<B>(self@, name@) == Err::<<B as DeepView>::V, ErrorView>(
                    e@,
                ),
            },
    {
        match B::parse(self.lines.as_slice(), clone_scale(&self.scale)) {
            Ok(b) => Ok(b),
            Err(e) => Err(e.chain(ErrorKind::InvalidBlock(name.to_owned()))),
        }
    }
}

} // verus!
