//! A partially parsed SLHA file and the functions that look up its blocks and decays.
use vstd::prelude::*;
use std::collections::HashMap;
use crate::block::{RawBlock, RawBlockView, SlhaBlock, scale_view, spec_to_block};
use crate::errors::{Error, ErrorKind, ErrorKindView, ErrorView, err};
use crate::internal::{
    Decay, DecayTable, DecayTableView, DecayView, Segment, SegmentView, decays_view,
    is_skippable, lemma_parse_segment, lemma_skip_empty, parse_segment_at, skip_empty,
    skip_empty_lines, spec_parse_segment,
};
use crate::modifier::raw_blocks_named;
use crate::parseable::Real;
use crate::text::{chars_of, lines, lowercase, split_lines, to_lowercase};

verus! {

/// The position of the first entry at or after `i` whose name is `name` (or the end).
pub open spec fn name_pos<T>(bs: Seq<(Seq<char>, T)>, name: Seq<char>, i: int) -> int
    decreases bs.len() - i,
{
    if 0 <= i < bs.len() && bs[i].0 != name {
        name_pos(bs, name, i + 1)
    } else {
        i
    }
}

pub proof fn lemma_name_pos<T>(bs: Seq<(Seq<char>, T)>, name: Seq<char>, i: int)
    requires
        0 <= i <= bs.len(),
    ensures
        i <= name_pos(bs, name, i) <= bs.len(),
        forall|k: int| i <= k < name_pos(bs, name, i) ==> #[trigger] bs[k].0 != name,
        name_pos(bs, name, i) < bs.len() ==> bs[name_pos(bs, name, i)].0 == name,
    decreases bs.len() - i,
{
    if i < bs.len() && bs[i].0 != name {
        lemma_name_pos(bs, name, i + 1);
    }
}

/// The mathematical value of an `Slha`: the blocks, grouped by name in the order in which each
/// name first appears, and the decay tables by the pdg id of their particle.
pub struct SlhaView {
    pub blocks: Seq<(Seq<char>, Seq<RawBlockView>)>,
    pub decays: Map<i64, DecayTableView>,
}

/// The blocks with the given name, in the order in which they appear.
pub open spec fn lookup_blocks(s: SlhaView, name: Seq<char>) -> Option<Seq<RawBlockView>> {
    let p = name_pos(s.blocks, name, 0);
    if p < s.blocks.len() {
        Some(s.blocks[p].1)
    } else {
        None
    }
}

/// The decay table of the particle with the given pdg id.
pub open spec fn lookup_decay(s: SlhaView, id: i64) -> Option<DecayTableView> {
    if s.decays.contains_key(id) {
        Some(s.decays[id])
    } else {
        None
    }
}

/// `s` with a block added to those with the same name.
pub open spec fn add_block(s: SlhaView, name: Seq<char>, b: RawBlockView) -> SlhaView {
    let p = name_pos(s.blocks, name, 0);
    if p < s.blocks.len() {
        SlhaView { blocks: s.blocks.update(p, (name, s.blocks[p].1.push(b))), decays: s.decays }
    } else {
        SlhaView { blocks: s.blocks.push((name, seq![b])), decays: s.decays }
    }
}

/// `s` with a decay table added; a second table for the same particle is an error.
pub open spec fn add_decay(s: SlhaView, id: i64, t: DecayTableView) -> Result<SlhaView, ErrorView> {
    if s.decays.contains_key(id) {
        Err(err(ErrorKindView::DuplicateDecay(id)))
    } else {
        Ok(SlhaView { blocks: s.blocks, decays: s.decays.insert(id, t) })
    }
}

/// `s` with a segment added.
pub open spec fn add_segment(s: SlhaView, seg: SegmentView) -> Result<SlhaView, ErrorView> {
    match seg {
        SegmentView::Block { name, block } => Ok(add_block(s, name, block)),
        SegmentView::Decay { pdg_id, width, decays } => add_decay(
            s,
            pdg_id,
            DecayTableView { width: width, decays: decays },
        ),
    }
}

/// The SLHA file made of `acc` and the segments from line `i` on, or the first error.
pub open spec fn parse_from(ls: Seq<Seq<char>>, i: int, acc: SlhaView) -> Result<
    SlhaView,
    ErrorView,
>
    decreases ls.len() - i,
{
    if 0 <= i <= ls.len() {
        let j = skip_empty(ls, i);
        proof {
            lemma_skip_empty(ls, i);
        }
        if j >= ls.len() {
            Ok(acc)
        } else {
            proof {
                lemma_parse_segment(ls, j);
            }
            match spec_parse_segment(ls, j) {
                Err(e) => Err(e),
                Ok((seg, e)) => match add_segment(acc, seg) {
                    Err(x) => Err(x),
                    Ok(a) => parse_from(ls, e, a),
                },
            }
        }
    } else {
        Ok(acc)
    }
}

/// An SLHA file with no segments.
pub open spec fn empty_slha() -> SlhaView {
    SlhaView { blocks: seq![], decays: Map::empty() }
}

/// The SLHA file that a text holds: its segments, read one after another from its lines.
pub open spec fn spec_parse_slha(input: Seq<char>) -> Result<SlhaView, ErrorView> {
    parse_from(lines(input), 0, empty_slha())
}

/// The blocks of type `B` read from the first `k` raw blocks named `name`, or the first error.
pub open spec fn blocks_in<B: SlhaBlock>(bs: Seq<RawBlockView>, name: Seq<char>, k: int) -> Result<
    Seq<<B as DeepView>::V>,
    ErrorView,
>
    decreases k,
{
    if k <= 0 {
        Ok(seq![])
    } else {
        match blocks_in::<B>(bs, name, k - 1) {
            Err(e) => Err(e),
            Ok(vs) => match spec_to_block::<B>(bs[k - 1], name) {
                Ok(v) => Ok(vs.push(v)),
                Err(e) => Err(e),
            },
        }
    }
}

pub proof fn lemma_blocks_in_err<B: SlhaBlock>(bs: Seq<RawBlockView>, name: Seq<char>, k: int, m: int)
    requires
        0 <= k <= m,
        blocks_in::<B>(bs, name, k) is Err,
    ensures
        blocks_in::<B>(bs, name, m) == blocks_in::<B>(bs, name, k),
    decreases m - k,
{
    if m > k {
        lemma_blocks_in_err::<B>(bs, name, k, m - 1);
    }
}

/// What `get_block` gives: nothing if there is no block with the (lower case) name, an error if
/// there is more than one, else the block read into type `B`.
pub open spec fn spec_get_block<B: SlhaBlock>(s: SlhaView, name: Seq<char>) -> Option<
    Result<<B as DeepView>::V, ErrorView>,
> {
    let n = lowercase(name);
    match lookup_blocks(s, n) {
        None => None,
        Some(bs) => if bs.len() > 1 {
            Some(Err(err(ErrorKindView::DuplicateBlock(n))))
        } else {
            Some(spec_to_block::<B>(bs[0], n))
        },
    }
}

/// What `get_blocks_unchecked` gives: all blocks with the (lower case) name read into type
/// `B`, in order, or the first error.
pub open spec fn spec_get_blocks_unchecked<B: SlhaBlock>(s: SlhaView, name: Seq<char>) -> Result<
    Seq<<B as DeepView>::V>,
    ErrorView,
> {
    let n = lowercase(name);
    match lookup_blocks(s, n) {
        None => Ok(seq![]),
        Some(bs) => blocks_in::<B>(bs, n, bs.len() as int),
    }
}

/// A type that can be read from an SLHA file.
///
/// Meant to be implemented for structs whose fields are blocks (see `WrappedBlock`).
pub trait SlhaDeserialize: Sized {
    /// Reads a value from the text of an SLHA file.
    fn deserialize(input: &str) -> Result<Self, Error>;
}

/// The views of the raw blocks of one name.
pub open spec fn raw_blocks_view(v: Seq<RawBlock>) -> Seq<RawBlockView> {
    v.map_values(|b: RawBlock| b@)
}

/// The views of the named groups of raw blocks.
pub open spec fn named_blocks_view(bs: Seq<(String, Vec<RawBlock>)>) -> Seq<
    (Seq<char>, Seq<RawBlockView>),
> {
    bs.map_values(|e: (String, Vec<RawBlock>)| (e.0@, raw_blocks_view(e.1@)))
}

/// The views of the decay tables, by the pdg id of their particle.
pub open spec fn decay_tables_view(ds: Map<i64, DecayTable>) -> Map<i64, DecayTableView> {
    ds.map_values(|t: DecayTable| t@)
}

/// No name occurs twice and each name has at least one block.
pub open spec fn slha_wf(s: SlhaView) -> bool {
    &&& forall|i: int, j: int|
        0 <= i < s.blocks.len() && 0 <= j < s.blocks.len() && i != j ==> #[trigger] s.blocks[i].0
            != #[trigger] s.blocks[j].0
    &&& forall|i: int| 0 <= i < s.blocks.len() ==> #[trigger] s.blocks[i].1.len() > 0
}

/// Adding a block keeps an SLHA file well formed.
pub proof fn lemma_add_block_wf(s: SlhaView, name: Seq<char>, b: RawBlockView)
    requires
        slha_wf(s),
    ensures
        slha_wf(add_block(s, name, b)),
{
    lemma_name_pos(s.blocks, name, 0);
}

/// Adding a decay table keeps an SLHA file well formed.
pub proof fn lemma_add_decay_wf(s: SlhaView, id: i64, t: DecayTableView)
    requires
        slha_wf(s),
    ensures
        add_decay(s, id, t) matches Ok(s2) ==> slha_wf(s2),
{
}

/// The key that `f` gives an optional scale.
fn scale_key_of<F: Fn(&Real) -> u64>(f: &F, sc: &Option<Real>) -> (k: Option<u64>)
    requires
        forall|x: &Real| #[trigger] f.requires((x,)),
    ensures
        match scale_view(*sc) {
            None => k is None,
            Some(s) => k is Some && exists|x: &Real| x@ == s && #[trigger] f.ensures((x,), k->0),
        },
{
    match sc {
        None => None,
        Some(x) => {
            let k = Some(f(x));
            assert(scale_view(*sc) == Some(x@));
            assert(f.ensures((x,), k->0));
            k
        },
    }
}

/// The keys that `scale_key` gives the scales of the blocks, in order (`None` for a block
/// without scale).
pub(crate) fn block_scale_keys<B: SlhaBlock, F: Fn(&Real) -> u64>(blocks: &Vec<B>, scale_key: &F) -> (keys: Vec<Option<u64>>)
    requires
        forall|x: &Real| #[trigger] scale_key.requires((x,)),
    ensures
        keys@.len() == blocks@.len(),
        forall|m: int|
            0 <= m < blocks@.len() ==> match B::spec_scale(#[trigger] blocks.deep_view()[m]) {
                None => keys@[m] is None,
                Some(sc) => keys@[m] is Some && exists|x: &Real|
                    x@ == sc && #[trigger] scale_key.ensures((x,), keys@[m]->0),
            },
{
    let ghost vs = blocks.deep_view();
    let mut keys: Vec<Option<u64>> = Vec::new();
    let mut i: usize = 0;
    while i < blocks.len()
        invariant
            i <= blocks@.len(),
            vs == blocks.deep_view(),
            keys@.len() == i,
            forall|x: &Real| #[trigger] scale_key.requires((x,)),
            forall|m: int|
                0 <= m < i ==> match B::spec_scale(#[trigger] vs[m]) {
                    None => keys@[m] is None,
                    Some(sc) => keys@[m] is Some && exists|x: &Real|
                        x@ == sc && #[trigger] scale_key.ensures((x,), keys@[m]->0),
                },
        decreases blocks.len() - i,
    {
        assert(vs[i as int] == blocks@[i as int].deep_view());
        let sc = blocks[i].scale();
        assert(scale_view(sc) == B::spec_scale(vs[i as int]));
        let k = scale_key_of(scale_key, &sc);
        let ghost old_keys = keys@;
        keys.push(k);
        assert(forall|m: int| 0 <= m < i ==> keys@[m] == old_keys[m]);
        i += 1;
    }
    keys
}

/// A partially parsed SLHA file.
///
/// Decay tables are read completely. Of blocks only the name, the scale and the data lines are
/// kept; the getters read them into the desired type on demand.
#[derive(Debug)]
pub struct Slha {
    blocks: Vec<(String, Vec<RawBlock>)>,
    decays: HashMap<i64, DecayTable>,
}

impl View for Slha {
    type V = SlhaView;

    closed spec fn view(&self) -> SlhaView {
        SlhaView {
            blocks: named_blocks_view(self.blocks@),
            decays: decay_tables_view(self.decays@),
        }
    }
}

impl Slha {
    #[verifier::type_invariant]
    closed spec fn inv(&self) -> bool {
        slha_wf(self@)
    }

    /// The view of every `Slha` is well formed.
    pub fn lemma_wf(&self)
        ensures
            slha_wf(self@),
    {
        proof {
            use_type_invariant(self);
        }
    }

    /// An SLHA file without blocks and decays.
    fn empty() -> (r: Slha)
        ensures
            r@ == empty_slha(),
    {
        let r = Slha { blocks: Vec::new(), decays: HashMap::new() };
        assert(r@.blocks =~= seq![]);
        assert(r@.decays =~= Map::empty());
        r
    }

    /// Adds a block to those with the same name.
    fn with_block(self, name: String, block: RawBlock) -> (r: Slha)
        ensures
            r@ == add_block(self@, name@, block@),
    {
        proof {
            use_type_invariant(&self);
        }
        let ghost s = self@;
        let Slha { blocks: mut blocks, decays } = self;
        let ghost bv = named_blocks_view(blocks@);
        let mut p: usize = 0;
        while p < blocks.len() && !(blocks[p].0 == name)
            invariant
                p <= blocks@.len(),
                bv == named_blocks_view(blocks@),
                name_pos(bv, name@, p as int) == name_pos(bv, name@, 0),
            decreases blocks.len() - p,
        {
            p += 1;
        }
        proof {
            lemma_name_pos(bv, name@, 0);
            lemma_add_block_wf(s, name@, block@);
        }
        let ghost b = block@;
        if p < blocks.len() {
            let (n, mut v) = blocks.remove(p);
            let ghost old_v = raw_blocks_view(v@);
            v.push(block);
            assert(raw_blocks_view(v@) =~= old_v.push(b));
            blocks.insert(p, (n, v));
            assert(named_blocks_view(blocks@) =~= bv.update(p as int, (name@, bv[p as int].1.push(b))));
        } else {
            let mut v: Vec<RawBlock> = Vec::new();
            v.push(block);
            assert(raw_blocks_view(v@) =~= seq![b]);
            blocks.push((name, v));
            assert(named_blocks_view(blocks@) =~= bv.push((name@, seq![b])));
        }
        Slha { blocks, decays }
    }

    /// Adds the decay table of a particle; a second table for the same particle is an error.
    fn with_decay(self, pdg_id: i64, width: Real, decays: Vec<Decay>) -> (r: Result<Slha, Error>)
        ensures
            match add_decay(
                self@,
                pdg_id,
                DecayTableView { width: width@, decays: decays_view(decays@) },
            ) {
                Ok(s) => r matches Ok(x) && x@ == s,
                Err(e) => r matches Err(x) && x@ == e,
            },
    {
        proof {
            use_type_invariant(&self);
        }
        let ghost s = self@;
        let ghost tv = DecayTableView { width: width@, decays: decays_view(decays@) };
        let Slha { blocks, decays: mut ds } = self;
        let ghost dv = decay_tables_view(ds@);
        proof {
            broadcast use vstd::std_specs::hash::group_hash_axioms;

            lemma_add_decay_wf(s, pdg_id, tv);
        }
        if ds.contains_key(&pdg_id) {
            return Err(Error::new(ErrorKind::DuplicateDecay(pdg_id)));
        }
        let t = DecayTable { width, decays };
        assert(t@ == tv);
        ds.insert(pdg_id, t);
        assert(decay_tables_view(ds@) =~= dv.insert(pdg_id, tv));
        Ok(Slha { blocks, decays: ds })
    }
}

impl Slha {
    /// Reads an SLHA file: decay tables completely, blocks as raw blocks.
    ///
    /// The errors are those of malformed segments, malformed block headers and decay tables,
    /// and a second decay table for the same particle.
    pub fn parse(input: &str) -> (r: Result<Slha, Error>)
        ensures
            match spec_parse_slha(input@) {
                Ok(s) => r matches Ok(x) && x@ == s,
                Err(e) => r matches Err(x) && x@ == e,
            },
    {
        let chars = chars_of(input);
        let text_lines = split_lines(&chars);
        let ghost ls = text_lines.deep_view();
        let mut slha = Slha::empty();
        let mut i: usize = 0;
        loop
            invariant
                i <= text_lines.len(),
                ls == text_lines.deep_view(),
                ls == lines(input@),
                parse_from(ls, i as int, slha@) == spec_parse_slha(input@),
            decreases text_lines.len() - i,
        {
            let j = skip_empty_lines(&text_lines, i);
            proof {
                lemma_skip_empty(ls, i as int);
            }
            if j >= text_lines.len() {
                return Ok(slha);
            }
            proof {
                lemma_parse_segment(ls, j as int);
            }
            match parse_segment_at(&text_lines, j) {
                Err(e) => {
                    return Err(e);
                },
                Ok((seg, e)) => {
                    match seg {
                        Segment::Block { name, block } => {
                            slha = slha.with_block(name, block);
                        },
                        Segment::Decay { pdg_id, width, decays } => {
                            match slha.with_decay(pdg_id, width, decays) {
                                Ok(s2) => {
                                    slha = s2;
                                },
                                Err(x) => {
                                    return Err(x);
                                },
                            }
                        },
                    }
                    i = e;
                },
            }
        }
    }

    /// The raw blocks with the given (exact) name.
    fn find_blocks(&self, name: &String) -> (r: Option<&Vec<RawBlock>>)
        ensures
            match lookup_blocks(self@, name@) {
                None => r is None,
                Some(bs) => r matches Some(v) && raw_blocks_view(v@) == bs && v@.len() > 0,
            },
    {
        proof {
            use_type_invariant(self);
        }
        let ghost bv = self@.blocks;
        let mut p: usize = 0;
        while p < self.blocks.len() && !(self.blocks[p].0 == *name)
            invariant
                p <= self.blocks@.len(),
                bv == named_blocks_view(self.blocks@),
                name_pos(bv, name@, p as int) == name_pos(bv, name@, 0),
            decreases self.blocks.len() - p,
        {
            p += 1;
        }
        proof {
            lemma_name_pos(bv, name@, 0);
        }
        if p < self.blocks.len() {
            assert(bv[p as int].1 == raw_blocks_view(self.blocks@[p as int].1@));
            Some(&self.blocks[p].1)
        } else {
            None
        }
    }

    /// Looks up a single block by (case-insensitive) name and reads it into type `B`.
    ///
    /// Gives `None` if there is no block with that name, an error if there is more than one or
    /// if the block cannot be read into `B`.
    pub fn get_block<B: SlhaBlock>(&self, name: &str) -> (r: Option<Result<B, Error>>)
        ensures
            match spec_get_block::<B>(self@, name@) {
                None => r is None,
                Some(Ok(v)) => r matches Some(Ok(b)) && b.deep_view() == v,
                Some(Err(e)) => r matches Some(Err(x)) && x@ == e,
            },
    {
        let lname = to_lowercase(name);
        match self.find_blocks(&lname) {
            None => None,
            Some(blocks) => {
                if blocks.len() > 1 {
                    Some(Err(Error::new(ErrorKind::DuplicateBlock(lname))))
                } else {
                    let raw = &blocks[0];
                    assert(raw@ == raw_blocks_view(blocks@)[0]);
                    match raw.to_block::<B>(lname.as_str()) {
                        Ok(b) => Some(Ok(b)),
                        Err(e) => Some(Err(e)),
                    }
                }
            },
        }
    }

    /// All blocks with the given (case-insensitive) name, read into type `B`, in the order in
    /// which they appear; no check is made of their scales.
    ///
    /// Gives an empty vector if there is no such block, and the first error that reading one
    /// gives.
    pub fn get_blocks_unchecked<B: SlhaBlock>(&self, name: &str) -> (r: Result<Vec<B>, Error>)
        ensures
            match spec_get_blocks_unchecked::<B>(self@, name@) {
                Ok(vs) => r matches Ok(v) && v.deep_view() == vs,
                Err(e) => r matches Err(x) && x@ == e,
            },
    {
        let lname = to_lowercase(name);
        let mut out: Vec<B> = Vec::new();
        match self.find_blocks(&lname) {
            None => {
                assert(out.deep_view() =~= seq![]);
                Ok(out)
            },
            Some(blocks) => {
                let ghost bs = raw_blocks_view(blocks@);
                assert(out.deep_view() =~= seq![]);
                let mut k: usize = 0;
                while k < blocks.len()
                    invariant
                        k <= blocks@.len(),
                        bs == raw_blocks_view(blocks@),
                        lname@ == lowercase(name@),
                        lookup_blocks(self@, lname@) == Some(bs),
                        blocks_in::<B>(bs, lname@, k as int) == Ok::<
                            Seq<<B as DeepView>::V>,
                            ErrorView,
                        >(out.deep_view()),
                    decreases blocks.len() - k,
                {
                    assert(blocks@[k as int]@ == bs[k as int]);
                    match blocks[k].to_block::<B>(lname.as_str()) {
                        Ok(b) => {
                            let ghost old_out = out.deep_view();
                            out.push(b);
                            assert(out.deep_view() =~= old_out.push(b.deep_view()));
                        },
                        Err(e) => {
                            assert(blocks_in::<B>(bs, lname@, k as int + 1) == Err::<
                                Seq<<B as DeepView>::V>,
                                ErrorView,
                            >(e@));
                            proof {
                                lemma_blocks_in_err::<B>(bs, lname@, k as int + 1, bs.len() as int);
                            }
                            return Err(e);
                        },
                    }
                    k += 1;
                }
                Ok(out)
            },
        }
    }

    /// All blocks with the given (case-insensitive) name, read into type `B`, in the order in
    /// which they appear, provided that their scales differ.
    ///
    /// Scales are compared by the keys that `scale_key` gives them (see
    /// `spec_check_block_scales`): equal keys for equal numbers, ordered as the numbers are.
    /// Gives an empty vector if there is no such block; the errors are those of
    /// `get_blocks_unchecked`, then those of the scale check.
    pub fn get_blocks<B: SlhaBlock, F: Fn(&Real) -> u64>(&self, name: &str, scale_key: F) -> (r:
        Result<Vec<B>, Error>)
        requires
            forall|x: &Real| #[trigger] scale_key.requires((x,)),
        ensures
            match spec_get_blocks_unchecked::<B>(self@, name@) {
                Err(e) => r matches Err(x) && x@ == e,
                Ok(vs) => exists|ks: Seq<Option<u64>>|
                    {
                        &&& #[trigger] ks.len() == vs.len()
                        &&& forall|m: int|
                            0 <= m < vs.len() ==> match B::spec_scale(#[trigger] vs[m]) {
                                None => ks[m] is None,
                                Some(sc) => ks[m] is Some && exists|x: &Real|
                                    x@ == sc && #[trigger] scale_key.ensures((x,), ks[m]->0),
                            }
                        &&& match spec_check_block_scales(name@, ks) {
                            Ok(_) => r matches Ok(x) && x.deep_view() == vs,
                            Err(e) => r matches Err(x) && x@ == e,
                        }
                    },
            },
    {
        let blocks: Vec<B> = match self.get_blocks_unchecked(name) {
            Ok(b) => b,
            Err(e) => {
                return Err(e);
            },
        };
        let keys = block_scale_keys(&blocks, &scale_key);
        match check_block_scales(name, keys.as_slice()) {
            Ok(()) => Ok(blocks),
            Err(e) => Err(e),
        }
    }

    /// The raw blocks with the given (case-insensitive) name, in the order in which they appear;
    /// empty if there is none.
    pub fn get_raw_blocks(&self, name: &str) -> (r: &[RawBlock])
        ensures
            raw_blocks_view(r@) == match lookup_blocks(self@, lowercase(name@)) {
                None => Seq::<RawBlockView>::empty(),
                Some(bs) => bs,
            },
    {
        let lname = to_lowercase(name);
        match self.find_blocks(&lname) {
            None => {
                let r: &[RawBlock] = &[];
                assert(raw_blocks_view(r@) =~= Seq::<RawBlockView>::empty());
                r
            },
            Some(blocks) => blocks.as_slice(),
        }
    }

    /// The decay table of the particle with the given pdg id, if there is one.
    pub fn get_decay(&self, pdg_id: i64) -> (r: Option<&DecayTable>)
        ensures
            match lookup_decay(self@, pdg_id) {
                None => r is None,
                Some(t) => r matches Some(x) && x@ == t,
            },
    {
        proof {
            broadcast use vstd::std_specs::hash::group_hash_axioms;

        }
        let r = self.decays.get(&pdg_id);
        proof {
            if let Some(t) = r {
                assert(self.decays@[pdg_id] == *t);
            }
        }
        r
    }
}

/// `x` occurs at least twice in `s`.
pub open spec fn is_dup(s: Seq<u64>, x: u64) -> bool {
    exists|a: int, b: int| 0 <= a < b < s.len() && #[trigger] s[a] == x && #[trigger] s[b] == x
}

/// `x` is the smallest value that occurs at least twice in `s`.
pub open spec fn is_smallest_dup(s: Seq<u64>, x: u64) -> bool {
    is_dup(s, x) && forall|y: u64| #[trigger] is_dup(s, y) ==> x <= y
}

/// The smallest value that occurs at least twice in `s`, if there is one.
pub open spec fn smallest_dup(s: Seq<u64>) -> Option<u64> {
    if exists|x: u64| is_smallest_dup(s, x) {
        Some(choose|x: u64| is_smallest_dup(s, x))
    } else {
        None
    }
}

/// The smallest value that occurs more than once in the list, if there is one.
pub fn find_duplicates(list: Vec<u64>) -> (r: Option<u64>)
    ensures
        r == smallest_dup(list@),
        r matches Some(x) ==> is_smallest_dup(list@, x),
        r is None ==> forall|y: u64| !is_dup(list@, y),
{
    let n = list.len();
    let ghost s = list@;
    let mut best: Option<u64> = None;
    let mut i: usize = 0;
    while i < n
        invariant
            n == s.len(),
            s == list@,
            i <= n,
            best matches Some(x) ==> is_dup(s, x),
            forall|a: int, b: int|
                0 <= a < i && a < b < n && #[trigger] s[a] == #[trigger] s[b] ==> (best matches Some(
                    x,
                ) && x <= s[a]),
        decreases n - i,
    {
        let mut j: usize = i + 1;
        while j < n
            invariant
                n == s.len(),
                s == list@,
                i < n,
                i + 1 <= j <= n,
                best matches Some(x) ==> is_dup(s, x),
                forall|a: int, b: int|
                    0 <= a < i && a < b < n && #[trigger] s[a] == #[trigger] s[b] ==> (
                    best matches Some(x) && x <= s[a]),
                forall|b: int|
                    i < b < j && s[i as int] == #[trigger] s[b] ==> (best matches Some(x) && x
                        <= s[i as int]),
            decreases n - j,
        {
            if list[i] == list[j] {
                let better = match best {
                    None => true,
                    Some(x) => list[i] < x,
                };
                if better {
                    best = Some(list[i]);
                }
            }
            j += 1;
        }
        i += 1;
    }
    proof {
        if let Some(x) = best {
            assert forall|y: u64| #[trigger] is_dup(s, y) implies x <= y by {
                let (a, b) = choose|a: int, b: int|
                    0 <= a < b < s.len() && #[trigger] s[a] == y && #[trigger] s[b] == y;
                assert(s[a] == s[b]);
            }
            assert(is_smallest_dup(s, x));
            let c = choose|x: u64| is_smallest_dup(s, x);
            assert(is_smallest_dup(s, c));
            assert(x <= c && c <= x);
        } else {
            assert forall|y: u64| !is_dup(s, y) by {
                if is_dup(s, y) {
                    let (a, b) = choose|a: int, b: int|
                        0 <= a < b < s.len() && #[trigger] s[a] == y && #[trigger] s[b] == y;
                    assert(s[a] == s[b]);
                }
            }
        }
    }
    best
}

/// The number of blocks without scale.
pub open spec fn count_unscaled(s: Seq<Option<u64>>) -> nat
    decreases s.len(),
{
    if s.len() == 0 {
        0
    } else {
        count_unscaled(s.drop_last()) + if s.last() is None {
            1nat
        } else {
            0nat
        }
    }
}

/// The keys of the blocks with a scale, in order.
pub open spec fn scale_keys(s: Seq<Option<u64>>) -> Seq<u64>
    decreases s.len(),
{
    if s.len() == 0 {
        seq![]
    } else {
        match s.last() {
            Some(k) => scale_keys(s.drop_last()).push(k),
            None => scale_keys(s.drop_last()),
        }
    }
}

/// The check made of the scales of all blocks with a given name.
///
/// Each block is given by the order key of its scale, if it has one: two scales have equal keys
/// exactly when they are equal numbers, and the order of keys is the order of the numbers.
/// There may be at most one block without scale, and not together with blocks with scale; no
/// two blocks may have equal scales (the error names the smallest such scale).
pub open spec fn spec_check_block_scales(name: Seq<char>, s: Seq<Option<u64>>) -> Result<
    (),
    ErrorView,
> {
    let n = lowercase(name);
    if count_unscaled(s) >= 2 {
        Err(err(ErrorKindView::DuplicateBlock(n)))
    } else if count_unscaled(s) == 1 && scale_keys(s).len() > 0 {
        Err(err(ErrorKindView::RedefinedBlockWithQ(n)))
    } else {
        match smallest_dup(scale_keys(s)) {
            Some(x) => Err(err(ErrorKindView::DuplicateBlockScale(n, x))),
            None => Ok(()),
        }
    }
}

/// Checks the scales of all the blocks with a given name, given by the order keys of their
/// scales in the order in which the blocks appear (see `spec_check_block_scales`).
pub fn check_block_scales(name: &str, scales: &[Option<u64>]) -> (r: Result<(), Error>)
    ensures
        match spec_check_block_scales(name@, scales@) {
            Ok(_) => r is Ok,
            Err(e) => r matches Err(x) && x@ == e,
        },
{
    let ghost s = scales@;
    let mut unscaled: usize = 0;
    let mut keys: Vec<u64> = Vec::new();
    let mut i: usize = 0;
    while i < scales.len()
        invariant
            s == scales@,
            i <= s.len(),
            unscaled <= 1,
            unscaled == count_unscaled(s.take(i as int)),
            keys@ == scale_keys(s.take(i as int)),
        decreases scales.len() - i,
    {
        assert(s.take(i as int + 1).drop_last() =~= s.take(i as int));
        match scales[i] {
            Some(k) => {
                keys.push(k);
            },
            None => {
                if unscaled == 1 {
                    proof {
                        lemma_count_unscaled_prefix(s, i as int + 1);
                    }
                    return Err(Error::new(ErrorKind::DuplicateBlock(to_lowercase(name))));
                }
                unscaled = 1;
            },
        }
        i += 1;
    }
    assert(s.take(s.len() as int) =~= s);
    if unscaled == 1 && keys.len() > 0 {
        return Err(Error::new(ErrorKind::RedefinedBlockWithQ(to_lowercase(name))));
    }
    match find_duplicates(keys) {
        Some(x) => Err(Error::new(ErrorKind::DuplicateBlockScale(to_lowercase(name), x))),
        None => Ok(()),
    }
}

/// The blocks without scale in a prefix are no more than in the whole.
proof fn lemma_count_unscaled_prefix(s: Seq<Option<u64>>, k: int)
    requires
        0 <= k <= s.len(),
    ensures
        count_unscaled(s.take(k)) <= count_unscaled(s),
    decreases s.len() - k,
{
    if k < s.len() {
        lemma_count_unscaled_prefix(s, k + 1);
        assert(s.take(k + 1).drop_last() =~= s.take(k));
    } else {
        assert(s.take(k) =~= s);
    }
}

proof fn lemma_one_unscaled(s: Seq<Option<u64>>, i: int)
    requires
        0 <= i < s.len(),
        s[i] is None,
    ensures
        count_unscaled(s) >= 1,
    decreases s.len(),
{
    if i < s.len() - 1 {
        lemma_one_unscaled(s.drop_last(), i);
    }
}

proof fn lemma_two_unscaled(s: Seq<Option<u64>>, i: int, j: int)
    requires
        0 <= i < j < s.len(),
        s[i] is None,
        s[j] is None,
    ensures
        count_unscaled(s) >= 2,
    decreases s.len(),
{
    if j < s.len() - 1 {
        lemma_two_unscaled(s.drop_last(), i, j);
    } else {
        lemma_one_unscaled(s.drop_last(), i);
    }
}

proof fn lemma_scale_keys_contains(s: Seq<Option<u64>>, i: int)
    requires
        0 <= i < s.len(),
        s[i] is Some,
    ensures
        exists|a: int| 0 <= a < scale_keys(s).len() && #[trigger] scale_keys(s)[a] == s[i]->0,
    decreases s.len(),
{
    let t = s.drop_last();
    if i < s.len() - 1 {
        lemma_scale_keys_contains(t, i);
        let a = choose|a: int| 0 <= a < scale_keys(t).len() && #[trigger] scale_keys(t)[a] == t[i]->0;
        assert(scale_keys(s)[a] == scale_keys(t)[a]);
    } else {
        assert(scale_keys(s)[scale_keys(t).len() as int] == s[i]->0);
    }
}

proof fn lemma_scale_keys_dup(s: Seq<Option<u64>>, i: int, j: int)
    requires
        0 <= i < j < s.len(),
        s[i] is Some,
        s[i] == s[j],
    ensures
        is_dup(scale_keys(s), s[i]->0),
    decreases s.len(),
{
    let t = s.drop_last();
    let x = s[i]->0;
    if j < s.len() - 1 {
        lemma_scale_keys_dup(t, i, j);
        let (a, b) = choose|a: int, b: int|
            0 <= a < b < scale_keys(t).len() && #[trigger] scale_keys(t)[a] == x
                && #[trigger] scale_keys(t)[b] == x;
        assert(scale_keys(s)[a] == scale_keys(t)[a] && scale_keys(s)[b] == scale_keys(t)[b]);
    } else {
        lemma_scale_keys_contains(t, i);
        let a = choose|a: int| 0 <= a < scale_keys(t).len() && #[trigger] scale_keys(t)[a] == x;
        let b = scale_keys(t).len() as int;
        assert(scale_keys(s)[a] == x && scale_keys(s)[b] == x);
    }
}

/// Blocks that pass the scale check have pairwise different scales: no two share a scale and
/// no two lack one; and a block without scale is the only block of its name.
pub proof fn lemma_checked_scales_distinct(name: Seq<char>, s: Seq<Option<u64>>)
    requires
        spec_check_block_scales(name, s) is Ok,
    ensures
        forall|i: int, j: int| 0 <= i < j < s.len() ==> #[trigger] s[i] != #[trigger] s[j],
        forall|i: int| 0 <= i < s.len() && #[trigger] s[i] is None ==> s.len() == 1,
{
    assert forall|i: int, j: int| 0 <= i < j < s.len() implies #[trigger] s[i] != #[trigger] s[j] by {
        if s[i] == s[j] {
            if s[i] is None {
                lemma_two_unscaled(s, i, j);
            } else {
                lemma_scale_keys_dup(s, i, j);
                let x = s[i]->0;
                let c = choose|c: u64| is_smallest_dup(scale_keys(s), c);
                if !(exists|c: u64| is_smallest_dup(scale_keys(s), c)) {
                    lemma_smallest_dup_exists(scale_keys(s), x);
                }
            }
        }
    }
    assert forall|i: int| 0 <= i < s.len() && #[trigger] s[i] is None implies s.len() == 1 by {
        lemma_one_unscaled(s, i);
        if s.len() > 1 {
            let j = if i == 0 {
                1int
            } else {
                0int
            };
            if s[j] is None {
                if i < j {
                    lemma_two_unscaled(s, i, j);
                } else {
                    lemma_two_unscaled(s, j, i);
                }
            } else {
                lemma_scale_keys_contains(s, j);
            }
        }
    }
}

/// A sequence with a value that occurs twice has a smallest such value.
proof fn lemma_smallest_dup_exists(s: Seq<u64>, x: u64)
    requires
        is_dup(s, x),
    ensures
        exists|c: u64| is_smallest_dup(s, c),
    decreases x,
{
    if !is_smallest_dup(s, x) {
        let y = choose|y: u64| #[trigger] is_dup(s, y) && !(x <= y);
        lemma_smallest_dup_exists(s, y);
    }
}

/// The blocks of a name, after a block of that name was added, are those before it followed
/// by the new block; the blocks of other names stay as they were.
pub proof fn lemma_add_block_lookup(s: SlhaView, name: Seq<char>, b: RawBlockView, other: Seq<char>)
    requires
        slha_wf(s),
    ensures
        lookup_blocks(add_block(s, name, b), name) == Some(
            match lookup_blocks(s, name) {
                None => seq![b],
                Some(bs) => bs.push(b),
            },
        ),
        other != name ==> lookup_blocks(add_block(s, name, b), other) == lookup_blocks(s, other),
        add_block(s, name, b).decays == s.decays,
{
    let t = add_block(s, name, b);
    lemma_name_pos(s.blocks, name, 0);
    lemma_name_pos(s.blocks, other, 0);
    lemma_name_pos(t.blocks, name, 0);
    lemma_name_pos(t.blocks, other, 0);
    let p = name_pos(s.blocks, name, 0);
    let q = name_pos(t.blocks, name, 0);
    assert(t.blocks[p].0 == name);
    if q < p {
        assert(t.blocks[q] == s.blocks[q]);
    }
    assert(q == p);
    if other != name {
        let po = name_pos(s.blocks, other, 0);
        let qo = name_pos(t.blocks, other, 0);
        if po < s.blocks.len() {
            assert(po != p);
            assert(t.blocks[po] == s.blocks[po]);
            if qo < po {
                assert(qo != p ==> t.blocks[qo] == s.blocks[qo]);
            }
            assert(qo == po);
        } else {
            if qo < t.blocks.len() {
                assert(qo != p ==> t.blocks[qo] == s.blocks[qo]);
            }
        }
    }
}

/// After a decay table was added, it is the decay table of its particle; the tables of other
/// particles stay as they were, and so do the blocks.
pub proof fn lemma_add_decay_lookup(s: SlhaView, id: i64, d: DecayTableView, other: i64)
    requires
        slha_wf(s),
    ensures
        add_decay(s, id, d) matches Ok(t) ==> {
            &&& lookup_decay(t, id) == Some(d)
            &&& other != id ==> lookup_decay(t, other) == lookup_decay(s, other)
            &&& t.blocks == s.blocks
        },
        add_decay(s, id, d) is Err <==> lookup_decay(s, id) is Some,
{
}

/// Names of blocks are case-insensitive: two names with the same lower case give the same
/// blocks.
pub proof fn lemma_names_case_insensitive<B: SlhaBlock>(s: SlhaView, a: Seq<char>, b: Seq<char>)
    requires
        lowercase(a) == lowercase(b),
    ensures
        spec_get_block::<B>(s, a) == spec_get_block::<B>(s, b),
        spec_get_blocks_unchecked::<B>(s, a) == spec_get_blocks_unchecked::<B>(s, b),
{
}

/// The check made of the scales of the blocks collected in a `Vec` field, one block after
/// another in file order (blocks given by the order keys of their scales, as in
/// `spec_check_block_scales`): a block with scale after one without, or one without scale after
/// one with, is `RedefinedBlockWithQ`; a scale that an earlier block has is
/// `DuplicateBlockScale`; a second block without scale is `DuplicateBlock`.
pub open spec fn vec_scales_from(
    name: Seq<char>,
    s: Seq<Option<u64>>,
    i: int,
    no_scale: bool,
    seen: Seq<u64>,
) -> Result<(), ErrorView>
    decreases s.len() - i,
{
    if i < 0 || i >= s.len() {
        Ok(())
    } else {
        match s[i] {
            Some(k) => if no_scale {
                Err(err(ErrorKindView::RedefinedBlockWithQ(name)))
            } else if seen.contains(k) {
                Err(err(ErrorKindView::DuplicateBlockScale(name, k)))
            } else {
                vec_scales_from(name, s, i + 1, false, seen.push(k))
            },
            None => if no_scale {
                Err(err(ErrorKindView::DuplicateBlock(name)))
            } else if seen.len() > 0 {
                Err(err(ErrorKindView::RedefinedBlockWithQ(name)))
            } else {
                vec_scales_from(name, s, i + 1, true, seen)
            },
        }
    }
}

/// The check of the scales of the blocks of a `Vec` field named `name`.
pub open spec fn spec_check_vec_scales(name: Seq<char>, s: Seq<Option<u64>>) -> Result<(), ErrorView> {
    vec_scales_from(name, s, 0, false, seq![])
}

/// Checks the scales of the blocks collected in a `Vec` field named `name`, given by the order
/// keys of their scales in file order (see `vec_scales_from`).
pub fn check_vec_scales(name: &str, scales: &[Option<u64>]) -> (r: Result<(), Error>)
    ensures
        match spec_check_vec_scales(name@, scales@) {
            Ok(_) => r is Ok,
            Err(e) => r matches Err(x) && x@ == e,
        },
{
    let ghost s = scales@;
    let mut no_scale = false;
    let mut seen: Vec<u64> = Vec::new();
    let mut i: usize = 0;
    while i < scales.len()
        invariant
            s == scales@,
            i <= s.len(),
            spec_check_vec_scales(name@, s) == vec_scales_from(name@, s, i as int, no_scale, seen@),
        decreases scales.len() - i,
    {
        match scales[i] {
            Some(k) => {
                if no_scale {
                    return Err(Error::new(ErrorKind::RedefinedBlockWithQ(name.to_owned())));
                }
                let mut j: usize = 0;
                while j < seen.len()
                    invariant
                        j <= seen@.len(),
                        forall|m: int| 0 <= m < j ==> seen@[m] != k,
                        s == scales@,
                        i < s.len(),
                        s[i as int] == Some(k),
                        !no_scale,
                        spec_check_vec_scales(name@, s) == vec_scales_from(
                            name@,
                            s,
                            i as int,
                            no_scale,
                            seen@,
                        ),
                    decreases seen.len() - j,
                {
                    if seen[j] == k {
                        assert(seen@.contains(k));
                        return Err(Error::new(ErrorKind::DuplicateBlockScale(name.to_owned(), k)));
                    }
                    j += 1;
                }
                assert(!seen@.contains(k));
                seen.push(k);
            },
            None => {
                if no_scale {
                    return Err(Error::new(ErrorKind::DuplicateBlock(name.to_owned())));
                }
                if seen.len() > 0 {
                    return Err(Error::new(ErrorKind::RedefinedBlockWithQ(name.to_owned())));
                }
                no_scale = true;
            },
        }
        i += 1;
    }
    Ok(())
}

/// Reading the first `k` blocks succeeds exactly when each of them reads, and then gives the
/// blocks read, in order; otherwise it gives the error of the first block that does not read.
pub proof fn lemma_blocks_in_outcome<B: SlhaBlock>(bs: Seq<RawBlockView>, name: Seq<char>, k: int)
    requires
        0 <= k <= bs.len(),
    ensures
        blocks_in::<B>(bs, name, k) is Ok <==> forall|i: int|
            0 <= i < k ==> #[trigger] spec_to_block::<B>(bs[i], name) is Ok,
        blocks_in::<B>(bs, name, k) matches Ok(vs) ==> vs.len() == k && forall|i: int|
            0 <= i < k ==> vs[i] == #[trigger] spec_to_block::<B>(bs[i], name)->Ok_0,
        blocks_in::<B>(bs, name, k) matches Err(e) ==> exists|i: int|
            0 <= i < k && #[trigger] spec_to_block::<B>(bs[i], name) == Err::<
                <B as DeepView>::V,
                ErrorView,
            >(e) && forall|m: int| 0 <= m < i ==> spec_to_block::<B>(bs[m], name) is Ok,
    decreases k,
{
    if k > 0 {
        lemma_blocks_in_outcome::<B>(bs, name, k - 1);
        match blocks_in::<B>(bs, name, k - 1) {
            Ok(vs) => {
                if let Ok(v) = spec_to_block::<B>(bs[k - 1], name) {
                    assert forall|i: int| 0 <= i < k implies #[trigger] spec_to_block::<B>(
                        bs[i],
                        name,
                    ) is Ok by {
                        if i < k - 1 {
                            assert(spec_to_block::<B>(bs[i], name) is Ok);
                        }
                    }
                } else {
                    assert(spec_to_block::<B>(bs[k - 1], name) is Err);
                }
            },
            Err(e) => {
                let i = choose|i: int|
                    0 <= i < k - 1 && #[trigger] spec_to_block::<B>(bs[i], name) == Err::<
                        <B as DeepView>::V,
                        ErrorView,
                    >(e) && forall|m: int| 0 <= m < i ==> spec_to_block::<B>(bs[m], name) is Ok;
                assert(spec_to_block::<B>(bs[i], name) is Err);
            },
        }
    }
}

proof fn lemma_unscaled_exists(s: Seq<Option<u64>>)
    ensures
        count_unscaled(s) >= 1 ==> exists|i: int| 0 <= i < s.len() && #[trigger] s[i] is None,
        count_unscaled(s) >= 2 ==> exists|i: int, j: int|
            0 <= i < j < s.len() && #[trigger] s[i] is None && #[trigger] s[j] is None,
    decreases s.len(),
{
    if s.len() > 0 {
        let t = s.drop_last();
        lemma_unscaled_exists(t);
        let n = s.len() - 1;
        if count_unscaled(t) >= 1 {
            let i = choose|i: int| 0 <= i < t.len() && #[trigger] t[i] is None;
            assert(s[i] is None);
        }
        if count_unscaled(t) >= 2 {
            let (i, j) = choose|i: int, j: int|
                0 <= i < j < t.len() && #[trigger] t[i] is None && #[trigger] t[j] is None;
            assert(s[i] is None && s[j] is None);
        }
        if s[n] is None && count_unscaled(t) >= 1 {
            let i = choose|i: int| 0 <= i < t.len() && #[trigger] t[i] is None;
            assert(s[i] is None && s[n] is None);
        }
    }
}

proof fn lemma_scale_key_source(s: Seq<Option<u64>>, a: int)
    requires
        0 <= a < scale_keys(s).len(),
    ensures
        exists|i: int| 0 <= i < s.len() && #[trigger] s[i] == Some(scale_keys(s)[a]),
    decreases s.len(),
{
    let t = s.drop_last();
    if a < scale_keys(t).len() {
        lemma_scale_key_source(t, a);
        let i = choose|i: int| 0 <= i < t.len() && #[trigger] t[i] == Some(scale_keys(t)[a]);
        assert(s[i] == t[i]);
        if s.last() is Some {
            assert(scale_keys(s)[a] == scale_keys(t)[a]);
        }
    } else {
        assert(s[s.len() - 1] == Some(scale_keys(s)[a]));
    }
}

proof fn lemma_scale_keys_dup_source(s: Seq<Option<u64>>, x: u64)
    requires
        is_dup(scale_keys(s), x),
    ensures
        exists|i: int, j: int|
            0 <= i < j < s.len() && #[trigger] s[i] == Some(x) && #[trigger] s[j] == Some(x),
    decreases s.len(),
{
    let t = s.drop_last();
    let ks = scale_keys(s);
    let (a, b) = choose|a: int, b: int|
        0 <= a < b < ks.len() && #[trigger] ks[a] == x && #[trigger] ks[b] == x;
    if s.last() is None {
        assert(ks == scale_keys(t));
        lemma_scale_keys_dup_source(t, x);
        let (i, j) = choose|i: int, j: int|
            0 <= i < j < t.len() && #[trigger] t[i] == Some(x) && #[trigger] t[j] == Some(x);
        assert(s[i] == t[i] && s[j] == t[j]);
    } else if b < scale_keys(t).len() {
        assert(ks[a] == scale_keys(t)[a] && ks[b] == scale_keys(t)[b]);
        lemma_scale_keys_dup_source(t, x);
        let (i, j) = choose|i: int, j: int|
            0 <= i < j < t.len() && #[trigger] t[i] == Some(x) && #[trigger] t[j] == Some(x);
        assert(s[i] == t[i] && s[j] == t[j]);
    } else {
        assert(ks[a] == scale_keys(t)[a]);
        lemma_scale_key_source(t, a);
        let i = choose|i: int| 0 <= i < t.len() && #[trigger] t[i] == Some(scale_keys(t)[a]);
        assert(s[i] == t[i]);
        assert(s[s.len() - 1] == Some(x));
    }
}

/// The scale check passes exactly when no two blocks share a scale key, no two blocks lack a
/// scale, and a block without scale is the only block.
pub proof fn lemma_check_block_scales_iff(name: Seq<char>, s: Seq<Option<u64>>)
    ensures
        spec_check_block_scales(name, s) is Ok <==> {
            &&& forall|i: int, j: int| 0 <= i < j < s.len() ==> #[trigger] s[i] != #[trigger] s[j]
            &&& forall|i: int| 0 <= i < s.len() && #[trigger] s[i] is None ==> s.len() == 1
        },
{
    if spec_check_block_scales(name, s) is Ok {
        lemma_checked_scales_distinct(name, s);
    } else {
        lemma_unscaled_exists(s);
        if count_unscaled(s) >= 2 {
            let (i, j) = choose|i: int, j: int|
                0 <= i < j < s.len() && #[trigger] s[i] is None && #[trigger] s[j] is None;
            assert(s[i] == s[j]);
        } else if count_unscaled(s) == 1 && scale_keys(s).len() > 0 {
            let i = choose|i: int| 0 <= i < s.len() && #[trigger] s[i] is None;
            lemma_scale_key_source(s, 0);
            let j = choose|j: int| 0 <= j < s.len() && #[trigger] s[j] == Some(scale_keys(s)[0]);
            assert(s.len() != 1);
        } else {
            let x = choose|x: u64| is_smallest_dup(scale_keys(s), x);
            lemma_scale_keys_dup_source(s, x);
            let (i, j) = choose|i: int, j: int|
                0 <= i < j < s.len() && #[trigger] s[i] == Some(x) && #[trigger] s[j] == Some(x);
            assert(s[i] == s[j]);
        }
    }
}

/// What `get_blocks` rests on, stated over the raw blocks with the (lower case) name: reading them
/// succeeds exactly when each of them reads, and then gives the blocks read in file order; the
/// scale check on the keys of their scales then passes exactly when no two share a key, no two
/// lack a scale, and a block without scale is the only one.
pub proof fn lemma_get_blocks_outcome<B: SlhaBlock>(
    s: SlhaView,
    name: Seq<char>,
    ks: Seq<Option<u64>>,
)
    ensures
        ({
            let n = lowercase(name);
            let raws = raw_blocks_named(s, n);
            &&& spec_get_blocks_unchecked::<B>(s, name) is Ok <==> forall|i: int|
                0 <= i < raws.len() ==> #[trigger] spec_to_block::<B>(raws[i], n) is Ok
            &&& spec_get_blocks_unchecked::<B>(s, name) matches Ok(vs) ==> vs.len() == raws.len()
                && forall|i: int|
                0 <= i < raws.len() ==> vs[i] == #[trigger] spec_to_block::<B>(raws[i], n)->Ok_0
            &&& spec_check_block_scales(name, ks) is Ok <==> {
                &&& forall|i: int, j: int|
                    0 <= i < j < ks.len() ==> #[trigger] ks[i] != #[trigger] ks[j]
                &&& forall|i: int| 0 <= i < ks.len() && #[trigger] ks[i] is None ==> ks.len() == 1
            }
        }),
{
    let n = lowercase(name);
    let raws = raw_blocks_named(s, n);
    lemma_blocks_in_outcome::<B>(raws, n, raws.len() as int);
    assert(blocks_in::<B>(Seq::<RawBlockView>::empty(), n, 0) == Ok::<
        Seq<<B as DeepView>::V>,
        ErrorView,
    >(seq![]));
    lemma_check_block_scales_iff(name, ks);
}

/// The scales of a list of blocks are pairwise different: no two blocks share a scale key, no
/// two lack a scale, and a block without scale is the only one.
pub open spec fn scales_all_different(s: Seq<Option<u64>>) -> bool {
    &&& forall|i: int, j: int| 0 <= i < j < s.len() ==> #[trigger] s[i] != #[trigger] s[j]
    &&& forall|i: int| 0 <= i < s.len() && #[trigger] s[i] is None ==> s.len() == 1
}

proof fn lemma_vec_scales_state(
    name: Seq<char>,
    s: Seq<Option<u64>>,
    i: int,
    no_scale: bool,
    seen: Seq<u64>,
)
    requires
        0 <= i <= s.len(),
        scales_all_different(s.take(i)),
        no_scale == (exists|m: int| 0 <= m < i && #[trigger] s[m] is None),
        seen == scale_keys(s.take(i)),
    ensures
        vec_scales_from(name, s, i, no_scale, seen) is Ok <==> scales_all_different(s),
        vec_scales_from(name, s, i, no_scale, seen) matches Err(e) ==> (e.0 matches ErrorKindView::DuplicateBlockScale(
            _,
            x,
        ) ==> exists|a: int, b: int|
            0 <= a < b < s.len() && #[trigger] s[a] == Some(x) && #[trigger] s[b] == Some(x)),
    decreases s.len() - i,
{
    let t = s.take(i);
    if i == s.len() {
        assert(t =~= s);
    } else {
        let t2 = s.take(i + 1);
        assert(t2.drop_last() =~= t);
        assert(forall|m: int| 0 <= m < i ==> t[m] == s[m]);
        assert(forall|m: int| 0 <= m <= i ==> t2[m] == s[m]);
        match s[i] {
            Some(k) => {
                if no_scale {
                    let m = choose|m: int| 0 <= m < i && #[trigger] s[m] is None;
                    assert(!scales_all_different(s)) by {
                        assert(s[m] is None && s.len() != 1);
                    }
                } else if seen.contains(k) {
                    let a = choose|a: int| 0 <= a < seen.len() && seen[a] == k;
                    lemma_scale_key_source(t, a);
                    let m = choose|m: int| 0 <= m < t.len() && #[trigger] t[m] == Some(scale_keys(t)[a]);
                    assert(s[m] == s[i]);
                    assert(!scales_all_different(s)) by {
                        assert(s[m] == s[i]);
                    }
                } else {
                    assert(scales_all_different(t2)) by {
                        assert forall|a: int, b: int| 0 <= a < b < t2.len() implies #[trigger] t2[a]
                            != #[trigger] t2[b] by {
                            if b == i {
                                if t2[a] == t2[b] {
                                    lemma_scale_keys_contains(t, a);
                                    let c = choose|c: int|
                                        0 <= c < scale_keys(t).len() && #[trigger] scale_keys(t)[c]
                                            == t[a]->0;
                                    assert(seen[c] == k);
                                }
                            } else {
                                assert(t2[a] == t[a] && t2[b] == t[b]);
                            }
                        }
                        assert forall|a: int| 0 <= a < t2.len() && #[trigger] t2[a] is None implies t2.len()
                            == 1 by {
                            assert(s[a] is None);
                        }
                    }
                    assert(scale_keys(t2) == seen.push(k));
                    assert(!(exists|m: int| 0 <= m < i + 1 && #[trigger] s[m] is None));
                    lemma_vec_scales_state(name, s, i + 1, false, seen.push(k));
                }
            },
            None => {
                if no_scale {
                    let m = choose|m: int| 0 <= m < i && #[trigger] s[m] is None;
                    assert(!scales_all_different(s)) by {
                        assert(s[m] == s[i]);
                    }
                } else if seen.len() > 0 {
                    lemma_scale_key_source(t, 0);
                    let m = choose|m: int| 0 <= m < t.len() && #[trigger] t[m] == Some(scale_keys(t)[0]);
                    assert(!scales_all_different(s)) by {
                        assert(s[i] is None && s.len() != 1);
                    }
                } else {
                    if i > 0 {
                        if t[0] is Some {
                            lemma_scale_keys_contains(t, 0);
                        } else {
                            assert(s[0] is None);
                        }
                    }
                    assert(i == 0);
                    assert(scales_all_different(t2));
                    assert(scale_keys(t2) =~= seen) by {
                        assert(scale_keys(t2.drop_last()) == seen);
                    }
                    assert(exists|m: int| 0 <= m < i + 1 && #[trigger] s[m] is None) by {
                        assert(s[i] is None);
                    }
                    lemma_vec_scales_state(name, s, i + 1, true, seen);
                }
            },
        }
    }
}

/// The scale check of a `Vec` field passes exactly when the scales of its blocks are pairwise
/// different (as for `Slha::get_blocks`), and a reported duplicate scale is one that two blocks
/// share.
pub proof fn lemma_check_vec_scales_iff(name: Seq<char>, s: Seq<Option<u64>>)
    ensures
        spec_check_vec_scales(name, s) is Ok <==> scales_all_different(s),
        spec_check_vec_scales(name, s) is Ok <==> spec_check_block_scales(name, s) is Ok,
        spec_check_vec_scales(name, s) matches Err(e) ==> (e.0 matches ErrorKindView::DuplicateBlockScale(
            _,
            x,
        ) ==> exists|a: int, b: int|
            0 <= a < b < s.len() && #[trigger] s[a] == Some(x) && #[trigger] s[b] == Some(x)),
{
    assert(s.take(0) =~= seq![]);
    assert(scale_keys(s.take(0)) == Seq::<u64>::empty());
    lemma_vec_scales_state(name, s, 0, false, seq![]);
    lemma_check_block_scales_iff(name, s);
}

} // verus!
