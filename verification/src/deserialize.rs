//! Reading the fields of a struct directly from the segments of an SLHA file, as an
//! implementation of `SlhaDeserialize` does: each BLOCK whose name is that of a field goes into
//! the field's wrapper, and DECAY tables go into the `decays` field.
use vstd::prelude::*;
use std::collections::HashMap;
use crate::errors::{Error, ErrorKind, ErrorKindView, ErrorView, err};
use crate::internal::{
    block_body, decay_body, is_skippable, spec_parse_decay_header,
    DecayTable, DecayTableView, Segment, SegmentView, decays_view, lemma_parse_segment,
    lemma_skip_empty, parse_segment_at, skip_empty, skip_empty_lines, spec_parse_segment,
};
use crate::block::RawBlockView;
use crate::block::SlhaBlock;
use crate::modifier::{VecUnchecked, WrappedBlock, collect_wrapped, raw_blocks_named, spec_collect};
use crate::parseable::Real;
use crate::slha::{
    add_block, add_decay, decay_tables_view, empty_slha, lemma_add_block_lookup,
    lemma_add_block_wf, lemma_add_decay_lookup, lemma_add_decay_wf, parse_from,
    slha_wf, spec_parse_slha, SlhaView, block_scale_keys, check_vec_scales, spec_check_vec_scales,
};
use crate::text::{chars_of, lemma_lines_concat, lines, spec_next_word, split_lines, starts_with_ws};

verus! {

/// The wrapper `w` after the blocks named `name` among the segments from line `i` on, or the
/// first error; the other segments are read and then passed over.
pub open spec fn collect_from<W: WrappedBlock>(
    ls: Seq<Seq<char>>,
    i: int,
    w: <W::Wrapper as DeepView>::V,
    name: Seq<char>,
) -> Result<<W::Wrapper as DeepView>::V, ErrorView>
    decreases ls.len() - i,
{
    if 0 <= i <= ls.len() {
        let j = skip_empty(ls, i);
        proof {
            lemma_skip_empty(ls, i);
        }
        if j >= ls.len() {
            Ok(w)
        } else {
            proof {
                lemma_parse_segment(ls, j);
            }
            match spec_parse_segment(ls, j) {
                Err(e) => Err(e),
                Ok((seg, e)) => match seg {
                    SegmentView::Block { name: n, block } => if n == name {
                        match W::spec_parse_into(block, w, name) {
                            Err(x) => Err(x),
                            Ok(w2) => collect_from::<W>(ls, e, w2, name),
                        }
                    } else {
                        collect_from::<W>(ls, e, w, name)
                    },
                    SegmentView::Decay { .. } => collect_from::<W>(ls, e, w, name),
                },
            }
        }
    } else {
        Ok(w)
    }
}

/// The field of type `W` read from the blocks named `name` of an SLHA file.
pub open spec fn spec_deserialize_block<W: WrappedBlock>(input: Seq<char>, name: Seq<char>) -> Result<
    <W as DeepView>::V,
    ErrorView,
> {
    match collect_from::<W>(lines(input), 0, W::spec_empty(), name) {
        Err(e) => Err(e),
        Ok(w) => W::spec_unwrap(name, w),
    }
}

/// Reads the field of type `W` from the blocks named `name` (in lower case) of an SLHA file, as
/// an implementation of `SlhaDeserialize` for a struct with that one field does.
pub fn deserialize_block<W: WrappedBlock>(input: &str, name: &str) -> (r: Result<W, Error>)
    ensures
        match spec_deserialize_block::<W>(input@, name@) {
            Ok(v) => r matches Ok(x) && x.deep_view() == v,
            Err(e) => r matches Err(x) && x@ == e,
        },
{
    let chars = chars_of(input);
    let text_lines = split_lines(&chars);
    let ghost ls = text_lines.deep_view();
    let target = name.to_owned();
    let mut wrapped = W::new_wrapper();
    let mut i: usize = 0;
    loop
        invariant
            i <= text_lines.len(),
            ls == text_lines.deep_view(),
            ls == lines(input@),
            target@ == name@,
            collect_from::<W>(ls, 0, W::spec_empty(), name@) == collect_from::<W>(
                ls,
                i as int,
                wrapped.deep_view(),
                name@,
            ),
        decreases text_lines.len() - i,
    {
        let j = skip_empty_lines(&text_lines, i);
        proof {
            lemma_skip_empty(ls, i as int);
        }
        if j >= text_lines.len() {
            return W::unwrap(name, wrapped);
        }
        proof {
            lemma_parse_segment(ls, j as int);
        }
        match parse_segment_at(&text_lines, j) {
            Err(e) => {
                return Err(e);
            },
            Ok((seg, e)) => {
                match seg {
                    Segment::Block { name: n, block } => {
                        if n == target {
                            match W::parse_into(&block, &mut wrapped, name) {
                                Ok(()) => {},
                                Err(x) => {
                                    return Err(x);
                                },
                            }
                        }
                    },
                    Segment::Decay { .. } => {},
                }
                i = e;
            },
        }
    }
}

/// Reads a `Vec` field: all blocks named `name` (in lower case), read into type `B` in file
/// order, provided that their scales pass the check of `spec_check_vec_scales`.
///
/// Scales are compared by the keys that `scale_key` gives them: equal keys for equal numbers.
/// The errors are those of reading the blocks (as for `VecUnchecked`), then those of the check.
pub fn deserialize_vec_block<B: SlhaBlock, F: Fn(&Real) -> u64>(
    input: &str,
    name: &str,
    scale_key: F,
) -> (r: Result<Vec<B>, Error>)
    requires
        forall|x: &Real| #[trigger] scale_key.requires((x,)),
    ensures
        match spec_deserialize_block::<VecUnchecked<B>>(input@, name@) {
            Err(e) => r matches Err(x) && x@ == e,
            Ok(vs) => exists|ks: Seq<Option<u64>>|
                {
                    &&& #[trigger] ks.len() == vs.len()
                    &&& forall|m: int|
                        0 <= m < vs.len() ==> match B::spec_scale(#[trigger] vs[m]) {
                            None => ks[m] is None,
                            Some(sc) => ks[m] is Some && exists|x: &Real|
                                x@ == sc && #[trigger] scale_key.ensures((x,), ks[m]->0),
                        }
                    &&& match spec_check_vec_scales(name@, ks) {
                        Ok(_) => r matches Ok(x) && x.deep_view() == vs,
                        Err(e) => r matches Err(x) && x@ == e,
                    }
                },
        },
{
    let all: VecUnchecked<B> = match deserialize_block::<VecUnchecked<B>>(input, name) {
        Ok(v) => v,
        Err(e) => {
            return Err(e);
        },
    };
    let blocks = all.0;
    let keys = block_scale_keys(&blocks, &scale_key);
    match check_vec_scales(name, keys.as_slice()) {
        Ok(()) => Ok(blocks),
        Err(e) => Err(e),
    }
}

/// The decay tables `acc` together with those among the segments from line `i` on, by the pdg
/// id of their particle, or the first error; a second table for the same particle is an error.
pub open spec fn decays_from(ls: Seq<Seq<char>>, i: int, acc: Map<i64, DecayTableView>) -> Result<
    Map<i64, DecayTableView>,
    ErrorView,
>
    decreases ls.len() - i,
{
    if 0 <= i <= ls.len() {
        let j = skip_empty(ls, i);
        proof {
            lemma_skip_empty(ls, i);
        }
        if j >= ls.len() {
            Ok(acc)
        } else {
            proof {
                lemma_parse_segment(ls, j);
            }
            match spec_parse_segment(ls, j) {
                Err(e) => Err(e),
                Ok((seg, e)) => match seg {
                    SegmentView::Block { .. } => decays_from(ls, e, acc),
                    SegmentView::Decay { pdg_id, width, decays } => if acc.contains_key(pdg_id) {
                        Err(err(ErrorKindView::DuplicateDecay(pdg_id)))
                    } else {
                        decays_from(
                            ls,
                            e,
                            acc.insert(pdg_id, DecayTableView { width: width, decays: decays }),
                        )
                    },
                },
            }
        }
    } else {
        Ok(acc)
    }
}

/// Reads the decay tables of an SLHA file, by the pdg id of their particle, as an implementation
/// of `SlhaDeserialize` does for a `decays` field.
pub fn deserialize_decays(input: &str) -> (r: Result<HashMap<i64, DecayTable>, Error>)
    ensures
        match decays_from(lines(input@), 0, Map::empty()) {
            Ok(ds) => r matches Ok(x) && decay_tables_view(x@) == ds,
            Err(e) => r matches Err(x) && x@ == e,
        },
{
    let chars = chars_of(input);
    let text_lines = split_lines(&chars);
    let ghost ls = text_lines.deep_view();
    let mut out: HashMap<i64, DecayTable> = HashMap::new();
    assert(decay_tables_view(out@) =~= Map::empty());
    let mut i: usize = 0;
    loop
        invariant
            i <= text_lines.len(),
            ls == text_lines.deep_view(),
            ls == lines(input@),
            decays_from(ls, 0, Map::empty()) == decays_from(ls, i as int, decay_tables_view(out@)),
        decreases text_lines.len() - i,
    {
        let j = skip_empty_lines(&text_lines, i);
        proof {
            lemma_skip_empty(ls, i as int);
        }
        if j >= text_lines.len() {
            return Ok(out);
        }
        proof {
            lemma_parse_segment(ls, j as int);
        }
        match parse_segment_at(&text_lines, j) {
            Err(e) => {
                return Err(e);
            },
            Ok((seg, e)) => {
                match seg {
                    Segment::Block { .. } => {},
                    Segment::Decay { pdg_id, width, decays } => {
                        let ghost dv = decay_tables_view(out@);
                        proof {
                            broadcast use vstd::std_specs::hash::group_hash_axioms;

                        }
                        if out.contains_key(&pdg_id) {
                            return Err(Error::new(ErrorKind::DuplicateDecay(pdg_id)));
                        }
                        let ghost tv = DecayTableView { width: width@, decays: decays_view(decays@) };
                        let t = DecayTable { width, decays };
                        assert(t@ == tv);
                        out.insert(pdg_id, t);
                        assert(decay_tables_view(out@) =~= dv.insert(pdg_id, tv));
                    },
                }
                i = e;
            },
        }
    }
}

/// The wrapper `w` after the blocks `bs` from index `i` on, one after another, or the first
/// error.
pub open spec fn fold_blocks<W: WrappedBlock>(
    bs: Seq<RawBlockView>,
    i: int,
    w: <W::Wrapper as DeepView>::V,
    name: Seq<char>,
) -> Result<<W::Wrapper as DeepView>::V, ErrorView>
    decreases bs.len() - i,
{
    if 0 <= i < bs.len() {
        match W::spec_parse_into(bs[i], w, name) {
            Err(e) => Err(e),
            Ok(w2) => fold_blocks::<W>(bs, i + 1, w2, name),
        }
    } else {
        Ok(w)
    }
}

proof fn lemma_fold_collect<W: WrappedBlock>(bs: Seq<RawBlockView>, name: Seq<char>, k: int)
    requires
        0 <= k <= bs.len(),
    ensures
        match collect_wrapped::<W>(bs, name, k) {
            Err(e) => fold_blocks::<W>(bs, 0, W::spec_empty(), name) == Err::<
                <W::Wrapper as DeepView>::V,
                ErrorView,
            >(e),
            Ok(w) => fold_blocks::<W>(bs, 0, W::spec_empty(), name) == fold_blocks::<W>(
                bs,
                k,
                w,
                name,
            ),
        },
    decreases k,
{
    if k > 0 {
        lemma_fold_collect::<W>(bs, name, k - 1);
    }
}

/// Folding all blocks from the empty wrapper is collecting them.
proof fn lemma_fold_is_collect<W: WrappedBlock>(bs: Seq<RawBlockView>, name: Seq<char>)
    ensures
        fold_blocks::<W>(bs, 0, W::spec_empty(), name) == collect_wrapped::<W>(
            bs,
            name,
            bs.len() as int,
        ),
{
    lemma_fold_collect::<W>(bs, name, bs.len() as int);
}

/// Reading the segments from line `i` on into `acc` adds blocks named `name` only at the end,
/// and collecting these segments' blocks named `name` into `w` is folding the added ones.
proof fn lemma_collect_from_parse<W: WrappedBlock>(
    ls: Seq<Seq<char>>,
    i: int,
    acc: SlhaView,
    w: <W::Wrapper as DeepView>::V,
    name: Seq<char>,
)
    requires
        slha_wf(acc),
        0 <= i <= ls.len(),
        parse_from(ls, i, acc) is Ok,
    ensures
        ({
            let ba = raw_blocks_named(acc, name);
            let bs = raw_blocks_named(parse_from(ls, i, acc)->Ok_0, name);
            &&& ba.len() <= bs.len()
            &&& ba == bs.take(ba.len() as int)
            &&& collect_from::<W>(ls, i, w, name) == fold_blocks::<W>(bs, ba.len() as int, w, name)
        }),
    decreases ls.len() - i,
{
    lemma_skip_empty(ls, i);
    let j = skip_empty(ls, i);
    let ba = raw_blocks_named(acc, name);
    if j >= ls.len() {
        assert(ba == ba.take(ba.len() as int));
    } else {
        lemma_parse_segment(ls, j);
        let (seg, e) = spec_parse_segment(ls, j)->Ok_0;
        let bs = raw_blocks_named(parse_from(ls, i, acc)->Ok_0, name);
        match seg {
            SegmentView::Block { name: m, block } => {
                let acc2 = add_block(acc, m, block);
                lemma_add_block_wf(acc, m, block);
                lemma_add_block_lookup(acc, m, block, name);
                lemma_collect_from_parse::<W>(ls, e, acc2, w, name);
                let ba2 = raw_blocks_named(acc2, name);
                if m == name {
                    assert(ba2 == ba.push(block));
                    assert(bs[ba.len() as int] == ba2[ba.len() as int]);
                    assert(ba == bs.take(ba.len() as int)) by {
                        assert(ba =~= ba2.take(ba.len() as int));
                    }
                    if let Ok(w2) = W::spec_parse_into(block, w, name) {
                        lemma_collect_from_parse::<W>(ls, e, acc2, w2, name);
                    }
                } else {
                    assert(ba2 == ba);
                }
            },
            SegmentView::Decay { pdg_id, width, decays } => {
                let t = DecayTableView { width: width, decays: decays };
                lemma_add_decay_wf(acc, pdg_id, t);
                lemma_add_decay_lookup(acc, pdg_id, t, pdg_id);
                let acc2 = add_decay(acc, pdg_id, t)->Ok_0;
                assert(raw_blocks_named(acc2, name) == ba);
                lemma_collect_from_parse::<W>(ls, e, acc2, w, name);
            },
        }
    }
}

/// The two ways of reading a block agree: on a file that reads as an `Slha`, reading a field
/// of type `W` directly from the file (as an implementation of `SlhaDeserialize` does) gives what
/// collecting the blocks of that name from the `Slha` gives.
pub proof fn lemma_deserialize_block_agrees<W: WrappedBlock>(input: Seq<char>, name: Seq<char>)
    requires
        spec_parse_slha(input) is Ok,
    ensures
        spec_deserialize_block::<W>(input, name) == spec_collect::<W>(
            raw_blocks_named(spec_parse_slha(input)->Ok_0, name),
            name,
        ),
{
    let ls = lines(input);
    let s = spec_parse_slha(input)->Ok_0;
    let bs = raw_blocks_named(s, name);
    assert(raw_blocks_named(empty_slha(), name) == Seq::<RawBlockView>::empty());
    lemma_collect_from_parse::<W>(ls, 0, empty_slha(), W::spec_empty(), name);
    lemma_fold_is_collect::<W>(bs, name);
}

proof fn lemma_decays_from_parse(ls: Seq<Seq<char>>, i: int, acc: SlhaView)
    requires
        0 <= i <= ls.len(),
    ensures
        decays_from(ls, i, acc.decays) == match parse_from(ls, i, acc) {
            Ok(s) => Ok::<Map<i64, DecayTableView>, ErrorView>(s.decays),
            Err(e) => Err(e),
        },
    decreases ls.len() - i,
{
    lemma_skip_empty(ls, i);
    let j = skip_empty(ls, i);
    if j < ls.len() {
        lemma_parse_segment(ls, j);
        if let Ok((seg, e)) = spec_parse_segment(ls, j) {
            match seg {
                SegmentView::Block { name: m, block } => {
                    lemma_decays_from_parse(ls, e, add_block(acc, m, block));
                },
                SegmentView::Decay { pdg_id, width, decays } => {
                    let t = DecayTableView { width: width, decays: decays };
                    if let Ok(acc2) = add_decay(acc, pdg_id, t) {
                        lemma_decays_from_parse(ls, e, acc2);
                    }
                },
            }
        }
    }
}

/// The two ways of reading decay tables agree: reading them directly from a file (as an
/// implementation of `SlhaDeserialize` does for a `decays` field) gives the decay tables of the
/// `Slha` read from the same file, or the same error.
pub proof fn lemma_deserialize_decays_agrees(input: Seq<char>)
    ensures
        decays_from(lines(input), 0, Map::empty()) == match spec_parse_slha(input) {
            Ok(s) => Ok::<Map<i64, DecayTableView>, ErrorView>(s.decays),
            Err(e) => Err(e),
        },
{
    lemma_decays_from_parse(lines(input), 0, empty_slha());
}

/// `extra` is a single BLOCK segment, with a header that reads, whose name is not `name`.
pub open spec fn is_other_block(extra: Seq<Seq<char>>, name: Seq<char>) -> bool {
    &&& extra.len() > 0
    &&& !is_skippable(extra[0])
    &&& spec_parse_segment(extra, 0) matches Ok((SegmentView::Block { name: m, .. }, e))
    &&& m != name
    &&& e == extra.len()
}

proof fn lemma_skip_empty_prefix(ls1: Seq<Seq<char>>, ls2: Seq<Seq<char>>, i: int)
    requires
        0 <= i <= ls1.len(),
        ls2.len() > 0,
        !is_skippable(ls2[0]),
    ensures
        skip_empty(ls1 + ls2, i) == skip_empty(ls1, i),
    decreases ls1.len() - i,
{
    let ls = ls1 + ls2;
    if i < ls1.len() {
        assert(ls[i] == ls1[i]);
        if is_skippable(ls1[i]) {
            lemma_skip_empty_prefix(ls1, ls2, i + 1);
        }
    } else {
        assert(ls[i] == ls2[0]);
    }
}

proof fn lemma_block_body_prefix(ls1: Seq<Seq<char>>, ls2: Seq<Seq<char>>, j: int)
    requires
        0 <= j <= ls1.len(),
        ls2.len() > 0,
        !is_skippable(ls2[0]),
        !starts_with_ws(ls2[0]),
    ensures
        block_body(ls1 + ls2, j) == block_body(ls1, j),
    decreases ls1.len() - j,
{
    let ls = ls1 + ls2;
    lemma_skip_empty_prefix(ls1, ls2, j);
    lemma_skip_empty(ls1, j);
    let k = skip_empty(ls1, j);
    if k < ls1.len() {
        assert(ls[k] == ls1[k]);
        if starts_with_ws(ls1[k]) {
            lemma_block_body_prefix(ls1, ls2, k + 1);
        }
    } else {
        assert(ls[k] == ls2[0]);
    }
}

proof fn lemma_decay_body_prefix(
    ls1: Seq<Seq<char>>,
    ls2: Seq<Seq<char>>,
    j: int,
    pdg_id: i64,
    count: int,
)
    requires
        0 <= j <= ls1.len(),
        ls2.len() > 0,
        !is_skippable(ls2[0]),
        !starts_with_ws(ls2[0]),
    ensures
        decay_body(ls1 + ls2, j, pdg_id, count) == decay_body(ls1, j, pdg_id, count),
    decreases ls1.len() - j,
{
    let ls = ls1 + ls2;
    lemma_skip_empty_prefix(ls1, ls2, j);
    lemma_skip_empty(ls1, j);
    let k = skip_empty(ls1, j);
    if k < ls1.len() {
        assert(ls[k] == ls1[k]);
        if starts_with_ws(ls1[k]) {
            lemma_decay_body_prefix(ls1, ls2, k + 1, pdg_id, count + 1);
        }
    } else {
        assert(ls[k] == ls2[0]);
    }
}

proof fn lemma_segment_prefix(ls1: Seq<Seq<char>>, ls2: Seq<Seq<char>>, j: int)
    requires
        0 <= j < ls1.len(),
        ls2.len() > 0,
        !is_skippable(ls2[0]),
        !starts_with_ws(ls2[0]),
    ensures
        spec_parse_segment(ls1 + ls2, j) == spec_parse_segment(ls1, j),
{
    let ls = ls1 + ls2;
    assert(ls[j] == ls1[j]);
    lemma_block_body_prefix(ls1, ls2, j + 1);
    if let Some((kw, rest)) = spec_next_word(ls1[j]) {
        if let Ok((pdg_id, width)) = spec_parse_decay_header(rest) {
            lemma_decay_body_prefix(ls1, ls2, j + 1, pdg_id, 0);
        }
    }
}

proof fn lemma_skip_empty_shift(ls1: Seq<Seq<char>>, ls2: Seq<Seq<char>>, k: int)
    requires
        0 <= k <= ls2.len(),
    ensures
        skip_empty(ls1 + ls2, ls1.len() + k) == ls1.len() + skip_empty(ls2, k),
    decreases ls2.len() - k,
{
    let ls = ls1 + ls2;
    if k < ls2.len() {
        assert(ls[ls1.len() + k] == ls2[k]);
        if is_skippable(ls2[k]) {
            lemma_skip_empty_shift(ls1, ls2, k + 1);
        }
    }
}

proof fn lemma_block_body_shift(ls1: Seq<Seq<char>>, ls2: Seq<Seq<char>>, k: int)
    requires
        0 <= k <= ls2.len(),
    ensures
        block_body(ls1 + ls2, ls1.len() + k) == (
            block_body(ls2, k).0,
            ls1.len() + block_body(ls2, k).1,
        ),
    decreases ls2.len() - k,
{
    let ls = ls1 + ls2;
    lemma_skip_empty_shift(ls1, ls2, k);
    lemma_skip_empty(ls2, k);
    let m = skip_empty(ls2, k);
    if m < ls2.len() {
        assert(ls[ls1.len() + m] == ls2[m]);
        if starts_with_ws(ls2[m]) {
            lemma_block_body_shift(ls1, ls2, m + 1);
        }
    }
}

proof fn lemma_other_block_shift(ls1: Seq<Seq<char>>, ls2: Seq<Seq<char>>, name: Seq<char>)
    requires
        is_other_block(ls2, name),
    ensures
        spec_parse_segment(ls1 + ls2, ls1.len() as int) matches Ok(
            (SegmentView::Block { name: m, .. }, e),
        ) && m != name && e == ls1.len() + ls2.len(),
{
    let ls = ls1 + ls2;
    assert(ls[ls1.len() as int] == ls2[0]);
    lemma_block_body_shift(ls1, ls2, 1);
}

proof fn lemma_collect_other_block<W: WrappedBlock>(
    ls1: Seq<Seq<char>>,
    ls2: Seq<Seq<char>>,
    i: int,
    w: <W::Wrapper as DeepView>::V,
    name: Seq<char>,
)
    requires
        0 <= i <= ls1.len(),
        is_other_block(ls2, name),
    ensures
        collect_from::<W>(ls1 + ls2, i, w, name) == collect_from::<W>(ls1, i, w, name),
    decreases ls1.len() - i,
{
    let ls = ls1 + ls2;
    lemma_skip_empty_prefix(ls1, ls2, i);
    lemma_skip_empty(ls1, i);
    let j = skip_empty(ls1, i);
    if j < ls1.len() {
        lemma_segment_prefix(ls1, ls2, j);
        lemma_parse_segment(ls1, j);
        if let Ok((seg, e)) = spec_parse_segment(ls1, j) {
            match seg {
                SegmentView::Block { name: n, block } => {
                    if n == name {
                        if let Ok(w2) = W::spec_parse_into(block, w, name) {
                            lemma_collect_other_block::<W>(ls1, ls2, e, w2, name);
                        }
                    } else {
                        lemma_collect_other_block::<W>(ls1, ls2, e, w, name);
                    }
                },
                SegmentView::Decay { .. } => {
                    lemma_collect_other_block::<W>(ls1, ls2, e, w, name);
                },
            }
        }
    } else {
        lemma_other_block_shift(ls1, ls2, name);
        lemma_skip_empty(ls, ls.len() as int);
        assert(collect_from::<W>(ls, ls.len() as int, w, name) == Ok::<
            <W::Wrapper as DeepView>::V,
            ErrorView,
        >(w));
        assert(j == ls1.len());
        assert(skip_empty(ls, i) == ls1.len());
        lemma_parse_segment(ls, j);
    }
}

proof fn lemma_decays_other_block(
    ls1: Seq<Seq<char>>,
    ls2: Seq<Seq<char>>,
    i: int,
    acc: Map<i64, DecayTableView>,
    name: Seq<char>,
)
    requires
        0 <= i <= ls1.len(),
        is_other_block(ls2, name),
    ensures
        decays_from(ls1 + ls2, i, acc) == decays_from(ls1, i, acc),
    decreases ls1.len() - i,
{
    let ls = ls1 + ls2;
    lemma_skip_empty_prefix(ls1, ls2, i);
    lemma_skip_empty(ls1, i);
    let j = skip_empty(ls1, i);
    if j < ls1.len() {
        lemma_segment_prefix(ls1, ls2, j);
        lemma_parse_segment(ls1, j);
        if let Ok((seg, e)) = spec_parse_segment(ls1, j) {
            match seg {
                SegmentView::Block { .. } => {
                    lemma_decays_other_block(ls1, ls2, e, acc, name);
                },
                SegmentView::Decay { pdg_id, width, decays } => {
                    lemma_decays_other_block(
                        ls1,
                        ls2,
                        e,
                        acc.insert(pdg_id, DecayTableView { width: width, decays: decays }),
                        name,
                    );
                },
            }
        }
    } else {
        lemma_other_block_shift(ls1, ls2, name);
        lemma_skip_empty(ls, ls.len() as int);
        assert(decays_from(ls, ls.len() as int, acc) == Ok::<
            Map<i64, DecayTableView>,
            ErrorView,
        >(acc));
        lemma_parse_segment(ls, j);
    }
}

/// Blocks that no field asks for are passed over: adding, after the lines of a file, a BLOCK
/// segment (whose header reads) with another name changes neither what a field named `name`
/// reads nor what the decay tables read.
pub proof fn lemma_other_block_ignored<W: WrappedBlock>(
    ls: Seq<Seq<char>>,
    extra: Seq<Seq<char>>,
    name: Seq<char>,
)
    requires
        is_other_block(extra, name),
    ensures
        collect_from::<W>(ls + extra, 0, W::spec_empty(), name) == collect_from::<W>(
            ls,
            0,
            W::spec_empty(),
            name,
        ),
        decays_from(ls + extra, 0, Map::empty()) == decays_from(ls, 0, Map::empty()),
{
    lemma_collect_other_block::<W>(ls, extra, 0, W::spec_empty(), name);
    lemma_decays_other_block(ls, extra, 0, Map::empty(), name);
}

/// Blocks that no field asks for are ignored: appending to a file (empty or ending with a line
/// break) a BLOCK segment whose header reads and whose name is not `name` changes neither what
/// the field named `name` reads nor what the decay tables read.
pub proof fn lemma_unused_block_ignored<W: WrappedBlock>(
    input: Seq<char>,
    extra: Seq<char>,
    name: Seq<char>,
)
    requires
        input.len() == 0 || input[input.len() - 1] == '\n',
        is_other_block(lines(extra), name),
    ensures
        spec_deserialize_block::<W>(input + extra, name) == spec_deserialize_block::<W>(
            input,
            name,
        ),
        decays_from(lines(input + extra), 0, Map::empty()) == decays_from(lines(input), 0, Map::empty()),
{
    lemma_lines_concat(input, extra);
    lemma_other_block_ignored::<W>(lines(input), lines(extra), name);
}

/// The raw blocks of the BLOCK segments named `name` among the segments from line `i` on, in
/// file order (up to the first segment that does not read).
pub open spec fn blocks_named_from(ls: Seq<Seq<char>>, i: int, name: Seq<char>) -> Seq<RawBlockView>
    decreases ls.len() - i,
{
    if 0 <= i <= ls.len() {
        let j = skip_empty(ls, i);
        proof {
            lemma_skip_empty(ls, i);
        }
        if j >= ls.len() {
            seq![]
        } else {
            proof {
                lemma_parse_segment(ls, j);
            }
            match spec_parse_segment(ls, j) {
                Err(_) => seq![],
                Ok((seg, e)) => match seg {
                    SegmentView::Block { name: m, block } => if m == name {
                        seq![block] + blocks_named_from(ls, e, name)
                    } else {
                        blocks_named_from(ls, e, name)
                    },
                    SegmentView::Decay { .. } => blocks_named_from(ls, e, name),
                },
            }
        }
    } else {
        seq![]
    }
}

proof fn lemma_blocks_named_from_parse(ls: Seq<Seq<char>>, i: int, acc: SlhaView, name: Seq<char>)
    requires
        slha_wf(acc),
        0 <= i <= ls.len(),
        parse_from(ls, i, acc) is Ok,
    ensures
        raw_blocks_named(parse_from(ls, i, acc)->Ok_0, name) == raw_blocks_named(acc, name)
            + blocks_named_from(ls, i, name),
    decreases ls.len() - i,
{
    lemma_skip_empty(ls, i);
    let j = skip_empty(ls, i);
    let ba = raw_blocks_named(acc, name);
    if j >= ls.len() {
        assert(ba + seq![] =~= ba);
    } else {
        lemma_parse_segment(ls, j);
        let (seg, e) = spec_parse_segment(ls, j)->Ok_0;
        match seg {
            SegmentView::Block { name: m, block } => {
                let acc2 = add_block(acc, m, block);
                lemma_add_block_wf(acc, m, block);
                lemma_add_block_lookup(acc, m, block, name);
                lemma_blocks_named_from_parse(ls, e, acc2, name);
                if m == name {
                    assert(raw_blocks_named(acc2, name) == ba.push(block));
                    assert(ba.push(block) + blocks_named_from(ls, e, name) =~= ba + (seq![block]
                        + blocks_named_from(ls, e, name)));
                }
            },
            SegmentView::Decay { pdg_id, width, decays } => {
                let t = DecayTableView { width: width, decays: decays };
                lemma_add_decay_wf(acc, pdg_id, t);
                lemma_add_decay_lookup(acc, pdg_id, t, pdg_id);
                let acc2 = add_decay(acc, pdg_id, t)->Ok_0;
                lemma_blocks_named_from_parse(ls, e, acc2, name);
            },
        }
    }
}

/// The raw blocks that an `Slha` read from a file holds under a name (what `get_raw_blocks`
/// gives for that name in lower case) are those of the file's BLOCK segments with that name, in
/// file order.
pub proof fn lemma_raw_blocks_in_file_order(input: Seq<char>, name: Seq<char>)
    requires
        spec_parse_slha(input) is Ok,
    ensures
        raw_blocks_named(spec_parse_slha(input)->Ok_0, name) == blocks_named_from(
            lines(input),
            0,
            name,
        ),
{
    assert(raw_blocks_named(empty_slha(), name) == Seq::<RawBlockView>::empty());
    lemma_blocks_named_from_parse(lines(input), 0, empty_slha(), name);
    assert(Seq::<RawBlockView>::empty() + blocks_named_from(lines(input), 0, name) =~= blocks_named_from(
        lines(input),
        0,
        name,
    ));
}

} // verus!
