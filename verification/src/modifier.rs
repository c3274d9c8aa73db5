//! How the occurrences of a block are collected into a field of a struct.
//!
//! A plain block type (anything that implements `SlhaBlock`) may occur once; wrapped in an
//! `Option` it may also be missing. The wrappers of this module change how repeated blocks are
//! handled:
//!
//! * `TakeFirst` keeps the first occurrence of a block and ignores the others.
//! * `TakeLast` lets later occurrences override earlier ones, so the last one is kept.
//! * `VecUnchecked` collects all occurrences, without any check of their scales.
//!
//! A plain `Vec` of blocks also collects all occurrences, but then checks that their scales
//! differ; since scales are compared as numbers, that check takes order keys of the scales and
//! stands in `deserialize::deserialize_vec_block` (and, for an `Slha`, in `Slha::get_blocks`).
use vstd::prelude::*;
use crate::block::{RawBlock, RawBlockView, SlhaBlock, spec_to_block};
use crate::errors::{Error, ErrorKind, ErrorKindView, ErrorView, err};
use crate::slha::{SlhaView, blocks_in, lookup_blocks, spec_get_block, spec_get_blocks_unchecked};
use crate::text::lowercase;
use std::ops::Deref;

verus! {

/// A type that collects the occurrences of a block, one at a time, in a `Wrapper`, and is made
/// from that wrapper once all blocks have been seen.
pub trait WrappedBlock: Sized + DeepView {
    /// What holds the occurrences seen so far.
    type Wrapper: DeepView;

    /// The wrapper before any block has been seen.
    spec fn spec_empty() -> <Self::Wrapper as DeepView>::V;

    /// The wrapper after one more block, or the error that the block gives.
    spec fn spec_parse_into(
        block: RawBlockView,
        wrapped: <Self::Wrapper as DeepView>::V,
        name: Seq<char>,
    ) -> Result<<Self::Wrapper as DeepView>::V, ErrorView>;

    /// The value made from the wrapper once all blocks have been seen.
    spec fn spec_unwrap(name: Seq<char>, wrapped: <Self::Wrapper as DeepView>::V) -> Result<
        <Self as DeepView>::V,
        ErrorView,
    >;

    /// The wrapper before any block has been seen.
    fn new_wrapper() -> (r: Self::Wrapper)
        ensures
            r.deep_view() == Self::spec_empty(),
    ;

    /// Adds one occurrence of the block `name` to the wrapper.
    ///
    /// On an error the wrapper is left as it was.
    fn parse_into(block: &RawBlock, wrapped: &mut Self::Wrapper, name: &str) -> (r: Result<
        (),
        Error,
    >)
        ensures
            match Self::spec_parse_into(block@, old(wrapped).deep_view(), name@) {
                Ok(w) => r is Ok && final(wrapped).deep_view() == w,
                Err(e) => r matches Err(x) && x@ == e && final(wrapped).deep_view() == old(
                    wrapped,
                ).deep_view(),
            },
    ;

    /// Makes the value from the wrapper once all blocks have been seen.
    fn unwrap(name: &str, wrapped: Self::Wrapper) -> (r: Result<Self, Error>)
        ensures
            match Self::spec_unwrap(name@, wrapped.deep_view()) {
                Ok(v) => r matches Ok(x) && x.deep_view() == v,
                Err(e) => r matches Err(x) && x@ == e,
            },
    ;
}

/// The single block kept so far: a second one is an error.
pub open spec fn parse_single<T: SlhaBlock>(
    block: RawBlockView,
    wrapped: Option<<T as DeepView>::V>,
    name: Seq<char>,
) -> Result<Option<<T as DeepView>::V>, ErrorView> {
    match wrapped {
        None => match spec_to_block::<T>(block, name) {
            Ok(v) => Ok(Some(v)),
            Err(e) => Err(e),
        },
        Some(_) => Err(err(ErrorKindView::DuplicateBlock(name))),
    }
}

/// Reads a block into a wrapper that may hold one block.
fn parse_single_into<T: SlhaBlock>(block: &RawBlock, wrapped: &mut Option<T>, name: &str) -> (r:
    Result<(), Error>)
    ensures
        match parse_single::<T>(block@, old(wrapped).deep_view(), name@) {
            Ok(w) => r is Ok && final(wrapped).deep_view() == w,
            Err(e) => r matches Err(x) && x@ == e && final(wrapped).deep_view() == old(
                wrapped,
            ).deep_view(),
        },
{
    if wrapped.is_some() {
        return Err(Error::new(ErrorKind::DuplicateBlock(name.to_owned())));
    }
    match block.to_block::<T>(name) {
        Ok(b) => {
            *wrapped = Some(b);
            Ok(())
        },
        Err(e) => Err(e),
    }
}

/// A block that must occur exactly once.
impl<T: SlhaBlock> WrappedBlock for T {
    type Wrapper = Option<T>;

    open spec fn spec_empty() -> Option<<T as DeepView>::V> {
        None
    }

    open spec fn spec_parse_into(
        block: RawBlockView,
        wrapped: Option<<T as DeepView>::V>,
        name: Seq<char>,
    ) -> Result<Option<<T as DeepView>::V>, ErrorView> {
        parse_single::<T>(block, wrapped, name)
    }

    open spec fn spec_unwrap(name: Seq<char>, wrapped: Option<<T as DeepView>::V>) -> Result<
        <T as DeepView>::V,
        ErrorView,
    > {
        match wrapped {
            Some(v) => Ok(v),
            None => Err(err(ErrorKindView::MissingBlock(name))),
        }
    }

    fn new_wrapper() -> (r: Option<T>) {
        None
    }

    fn parse_into(block: &RawBlock, wrapped: &mut Option<T>, name: &str) -> (r: Result<(), Error>) {
        parse_single_into(block, wrapped, name)
    }

    fn unwrap(name: &str, wrapped: Option<T>) -> (r: Result<T, Error>) {
        match wrapped {
            Some(b) => Ok(b),
            None => Err(Error::new(ErrorKind::MissingBlock(name.to_owned()))),
        }
    }
}

/// A block that may occur at most once.
impl<T: SlhaBlock> WrappedBlock for Option<T> {
    type Wrapper = Option<T>;

    open spec fn spec_empty() -> Option<<T as DeepView>::V> {
        None
    }

    open spec fn spec_parse_into(
        block: RawBlockView,
        wrapped: Option<<T as DeepView>::V>,
        name: Seq<char>,
    ) -> Result<Option<<T as DeepView>::V>, ErrorView> {
        parse_single::<T>(block, wrapped, name)
    }

    open spec fn spec_unwrap(name: Seq<char>, wrapped: Option<<T as DeepView>::V>) -> Result<
        Option<<T as DeepView>::V>,
        ErrorView,
    > {
        Ok(wrapped)
    }

    fn new_wrapper() -> (r: Option<T>) {
        None
    }

    fn parse_into(block: &RawBlock, wrapped: &mut Option<T>, name: &str) -> (r: Result<(), Error>) {
        parse_single_into(block, wrapped, name)
    }

    fn unwrap(name: &str, wrapped: Option<T>) -> (r: Result<Option<T>, Error>) {
        Ok(wrapped)
    }
}

/// An alternative to `Vec` that does not check for duplicate blocks: it collects all
/// occurrences of a block, whatever their scales.
#[derive(Clone, Debug)]
pub struct VecUnchecked<T>(pub Vec<T>);

impl<T: DeepView> DeepView for VecUnchecked<T> {
    type V = Seq<<T as DeepView>::V>;

    open spec fn deep_view(&self) -> Seq<<T as DeepView>::V> {
        self.0.deep_view()
    }
}

impl<T: SlhaBlock> WrappedBlock for VecUnchecked<T> {
    type Wrapper = Vec<T>;

    open spec fn spec_empty() -> Seq<<T as DeepView>::V> {
        seq![]
    }

    open spec fn spec_parse_into(
        block: RawBlockView,
        wrapped: Seq<<T as DeepView>::V>,
        name: Seq<char>,
    ) -> Result<Seq<<T as DeepView>::V>, ErrorView> {
        match spec_to_block::<T>(block, name) {
            Ok(v) => Ok(wrapped.push(v)),
            Err(e) => Err(e),
        }
    }

    open spec fn spec_unwrap(name: Seq<char>, wrapped: Seq<<T as DeepView>::V>) -> Result<
        Seq<<T as DeepView>::V>,
        ErrorView,
    > {
        Ok(wrapped)
    }

    fn new_wrapper() -> (r: Vec<T>) {
        let r: Vec<T> = Vec::new();
        assert(r.deep_view() =~= seq![]);
        r
    }

    fn parse_into(block: &RawBlock, wrapped: &mut Vec<T>, name: &str) -> (r: Result<(), Error>) {
        match block.to_block::<T>(name) {
            Ok(b) => {
                let ghost old_w = wrapped.deep_view();
                wrapped.push(b);
                assert(wrapped.deep_view() =~= old_w.push(b.deep_view()));
                Ok(())
            },
            Err(e) => Err(e),
        }
    }

    fn unwrap(name: &str, wrapped: Vec<T>) -> (r: Result<VecUnchecked<T>, Error>) {
        Ok(VecUnchecked(wrapped))
    }
}

impl<T> Deref for VecUnchecked<T> {
    type Target = [T];

    fn deref(&self) -> (r: &[T])
        ensures
            r@ == self.0@,
    {
        self.0.as_slice()
    }
}

/// A modifier that ignores all but the first occurrence of a block.
#[derive(Clone, Debug)]
pub struct TakeFirst<T>(pub T);

impl<T: DeepView> DeepView for TakeFirst<T> {
    type V = <T as DeepView>::V;

    open spec fn deep_view(&self) -> <T as DeepView>::V {
        self.0.deep_view()
    }
}

impl<T: SlhaBlock> WrappedBlock for TakeFirst<T> {
    type Wrapper = Option<T>;

    open spec fn spec_empty() -> Option<<T as DeepView>::V> {
        None
    }

    open spec fn spec_parse_into(
        block: RawBlockView,
        wrapped: Option<<T as DeepView>::V>,
        name: Seq<char>,
    ) -> Result<Option<<T as DeepView>::V>, ErrorView> {
        match wrapped {
            None => match spec_to_block::<T>(block, name) {
                Ok(v) => Ok(Some(v)),
                Err(e) => Err(e),
            },
            Some(v) => Ok(Some(v)),
        }
    }

    open spec fn spec_unwrap(name: Seq<char>, wrapped: Option<<T as DeepView>::V>) -> Result<
        <T as DeepView>::V,
        ErrorView,
    > {
        match wrapped {
            Some(v) => Ok(v),
            None => Err(err(ErrorKindView::MissingBlock(name))),
        }
    }

    fn new_wrapper() -> (r: Option<T>) {
        None
    }

    fn parse_into(block: &RawBlock, wrapped: &mut Option<T>, name: &str) -> (r: Result<(), Error>) {
        if wrapped.is_none() {
            match block.to_block::<T>(name) {
                Ok(b) => {
                    *wrapped = Some(b);
                },
                Err(e) => {
                    return Err(e);
                },
            }
        }
        Ok(())
    }

    fn unwrap(name: &str, wrapped: Option<T>) -> (r: Result<TakeFirst<T>, Error>) {
        match wrapped {
            Some(b) => Ok(TakeFirst(b)),
            None => Err(Error::new(ErrorKind::MissingBlock(name.to_owned()))),
        }
    }
}

impl<T> Deref for TakeFirst<T> {
    type Target = T;

    fn deref(&self) -> (r: &T)
        ensures
            *r == self.0,
    {
        &self.0
    }
}

/// A modifier that lets later occurrences of a block override earlier ones, so that the last
/// occurrence is kept.
#[derive(Clone, Debug)]
pub struct TakeLast<T>(pub T);

impl<T: DeepView> DeepView for TakeLast<T> {
    type V = <T as DeepView>::V;

    open spec fn deep_view(&self) -> <T as DeepView>::V {
        self.0.deep_view()
    }
}

impl<T: SlhaBlock> WrappedBlock for TakeLast<T> {
    type Wrapper = Option<T>;

    open spec fn spec_empty() -> Option<<T as DeepView>::V> {
        None
    }

    open spec fn spec_parse_into(
        block: RawBlockView,
        wrapped: Option<<T as DeepView>::V>,
        name: Seq<char>,
    ) -> Result<Option<<T as DeepView>::V>, ErrorView> {
        match spec_to_block::<T>(block, name) {
            Ok(v) => Ok(Some(v)),
            Err(e) => Err(e),
        }
    }

    open spec fn spec_unwrap(name: Seq<char>, wrapped: Option<<T as DeepView>::V>) -> Result<
        <T as DeepView>::V,
        ErrorView,
    > {
        match wrapped {
            Some(v) => Ok(v),
            None => Err(err(ErrorKindView::MissingBlock(name))),
        }
    }

    fn new_wrapper() -> (r: Option<T>) {
        None
    }

    fn parse_into(block: &RawBlock, wrapped: &mut Option<T>, name: &str) -> (r: Result<(), Error>) {
        match block.to_block::<T>(name) {
            Ok(b) => {
                *wrapped = Some(b);
                Ok(())
            },
            Err(e) => Err(e),
        }
    }

    fn unwrap(name: &str, wrapped: Option<T>) -> (r: Result<TakeLast<T>, Error>) {
        match wrapped {
            Some(b) => Ok(TakeLast(b)),
            None => Err(Error::new(ErrorKind::MissingBlock(name.to_owned()))),
        }
    }
}

impl<T> Deref for TakeLast<T> {
    type Target = T;

    fn deref(&self) -> (r: &T)
        ensures
            *r == self.0,
    {
        &self.0
    }
}

/// The wrapper after the first `k` of the blocks `bs` named `name`, or the first error.
pub open spec fn collect_wrapped<W: WrappedBlock>(
    bs: Seq<RawBlockView>,
    name: Seq<char>,
    k: int,
) -> Result<<W::Wrapper as DeepView>::V, ErrorView>
    decreases k,
{
    if k <= 0 {
        Ok(W::spec_empty())
    } else {
        match collect_wrapped::<W>(bs, name, k - 1) {
            Err(e) => Err(e),
            Ok(w) => W::spec_parse_into(bs[k - 1], w, name),
        }
    }
}

/// The value made from all the blocks `bs` named `name`, one after another.
pub open spec fn spec_collect<W: WrappedBlock>(bs: Seq<RawBlockView>, name: Seq<char>) -> Result<
    <W as DeepView>::V,
    ErrorView,
> {
    match collect_wrapped::<W>(bs, name, bs.len() as int) {
        Err(e) => Err(e),
        Ok(w) => W::spec_unwrap(name, w),
    }
}

proof fn lemma_collect_first<T: SlhaBlock>(bs: Seq<RawBlockView>, name: Seq<char>, k: int)
    requires
        1 <= k <= bs.len(),
    ensures
        collect_wrapped::<TakeFirst<T>>(bs, name, k) == match spec_to_block::<T>(bs[0], name) {
            Ok(v) => Ok::<Option<<T as DeepView>::V>, ErrorView>(Some(v)),
            Err(e) => Err(e),
        },
    decreases k,
{
    if k > 1 {
        lemma_collect_first::<T>(bs, name, k - 1);
    } else {
        assert(collect_wrapped::<TakeFirst<T>>(bs, name, 0) == Ok::<
            Option<<T as DeepView>::V>,
            ErrorView,
        >(None));
    }
}

/// `TakeFirst` keeps the first occurrence of a block: the result is what reading the first
/// block gives, whatever the blocks after it hold; without any block it is `MissingBlock`.
pub proof fn lemma_take_first_keeps_first<T: SlhaBlock>(bs: Seq<RawBlockView>, name: Seq<char>)
    ensures
        spec_collect::<TakeFirst<T>>(bs, name) == if bs.len() == 0 {
            Err(err(ErrorKindView::MissingBlock(name)))
        } else {
            spec_to_block::<T>(bs[0], name)
        },
{
    if bs.len() > 0 {
        lemma_collect_first::<T>(bs, name, bs.len() as int);
    }
}

proof fn lemma_collect_last<T: SlhaBlock>(bs: Seq<RawBlockView>, name: Seq<char>, k: int)
    requires
        0 <= k <= bs.len(),
    ensures
        collect_wrapped::<TakeLast<T>>(bs, name, k) == match blocks_in::<T>(bs, name, k) {
            Ok(vs) => Ok::<Option<<T as DeepView>::V>, ErrorView>(
                if k == 0 {
                    None
                } else {
                    Some(vs[k - 1])
                },
            ),
            Err(e) => Err(e),
        },
        blocks_in::<T>(bs, name, k) matches Ok(vs) ==> vs.len() == k,
    decreases k,
{
    if k > 0 {
        lemma_collect_last::<T>(bs, name, k - 1);
    }
}

/// `TakeLast` keeps the last occurrence of a block: if all blocks can be read, the result is
/// the last of them; else it is the first error; without any block it is `MissingBlock`.
pub proof fn lemma_take_last_keeps_last<T: SlhaBlock>(bs: Seq<RawBlockView>, name: Seq<char>)
    ensures
        spec_collect::<TakeLast<T>>(bs, name) == if bs.len() == 0 {
            Err(err(ErrorKindView::MissingBlock(name)))
        } else {
            match blocks_in::<T>(bs, name, bs.len() as int) {
                Ok(vs) => Ok(vs.last()),
                Err(e) => Err(e),
            }
        },
{
    lemma_collect_last::<T>(bs, name, bs.len() as int);
}

proof fn lemma_collect_all<T: SlhaBlock>(bs: Seq<RawBlockView>, name: Seq<char>, k: int)
    requires
        0 <= k <= bs.len(),
    ensures
        collect_wrapped::<VecUnchecked<T>>(bs, name, k) == blocks_in::<T>(bs, name, k),
    decreases k,
{
    if k > 0 {
        lemma_collect_all::<T>(bs, name, k - 1);
    }
}

/// `VecUnchecked` keeps every occurrence of a block, in order: the result is all blocks read,
/// or the first error.
pub proof fn lemma_vec_unchecked_keeps_all<T: SlhaBlock>(bs: Seq<RawBlockView>, name: Seq<char>)
    ensures
        spec_collect::<VecUnchecked<T>>(bs, name) == blocks_in::<T>(bs, name, bs.len() as int),
{
    lemma_collect_all::<T>(bs, name, bs.len() as int);
}

proof fn lemma_collect_single<T: SlhaBlock>(bs: Seq<RawBlockView>, name: Seq<char>, k: int)
    requires
        1 <= k <= bs.len(),
    ensures
        collect_wrapped::<T>(bs, name, k) == match spec_to_block::<T>(bs[0], name) {
            Err(e) => Err(e),
            Ok(v) => if k == 1 {
                Ok::<Option<<T as DeepView>::V>, ErrorView>(Some(v))
            } else {
                Err(err(ErrorKindView::DuplicateBlock(name)))
            },
        },
    decreases k,
{
    if k > 1 {
        lemma_collect_single::<T>(bs, name, k - 1);
    } else {
        assert(collect_wrapped::<T>(bs, name, 0) == Ok::<Option<<T as DeepView>::V>, ErrorView>(
            None,
        ));
    }
}

/// A plain block must occur exactly once: without any block the result is `MissingBlock`, with
/// one it is that block read, and with more it is `DuplicateBlock` (unless the first block
/// cannot be read, which is reported first).
pub proof fn lemma_block_occurs_once<T: SlhaBlock>(bs: Seq<RawBlockView>, name: Seq<char>)
    ensures
        spec_collect::<T>(bs, name) == if bs.len() == 0 {
            Err(err(ErrorKindView::MissingBlock(name)))
        } else {
            match spec_to_block::<T>(bs[0], name) {
                Err(e) => Err(e),
                Ok(v) => if bs.len() == 1 {
                    Ok(v)
                } else {
                    Err(err(ErrorKindView::DuplicateBlock(name)))
                },
            }
        },
{
    if bs.len() > 0 {
        lemma_collect_single::<T>(bs, name, bs.len() as int);
    }
}

/// An optional block may be missing (the result is then `None`); otherwise it behaves as a
/// plain block.
pub proof fn lemma_optional_block<T: SlhaBlock>(bs: Seq<RawBlockView>, name: Seq<char>)
    ensures
        spec_collect::<Option<T>>(bs, name) == if bs.len() == 0 {
            Ok(None)
        } else {
            match spec_to_block::<T>(bs[0], name) {
                Err(e) => Err(e),
                Ok(v) => if bs.len() == 1 {
                    Ok(Some(v))
                } else {
                    Err(err(ErrorKindView::DuplicateBlock(name)))
                },
            }
        },
{
    if bs.len() > 0 {
        lemma_collect_single::<T>(bs, name, bs.len() as int);
        assert(collect_wrapped::<Option<T>>(bs, name, bs.len() as int) == collect_wrapped::<T>(
            bs,
            name,
            bs.len() as int,
        )) by {
            lemma_collect_same::<T>(bs, name, bs.len() as int);
        }
    }
}

proof fn lemma_collect_same<T: SlhaBlock>(bs: Seq<RawBlockView>, name: Seq<char>, k: int)
    ensures
        collect_wrapped::<Option<T>>(bs, name, k) == collect_wrapped::<T>(bs, name, k),
    decreases k,
{
    if k > 0 {
        lemma_collect_same::<T>(bs, name, k - 1);
    }
}

/// The raw blocks with a given name in an SLHA file (none if there is no such block).
pub open spec fn raw_blocks_named(s: SlhaView, name: Seq<char>) -> Seq<RawBlockView> {
    match lookup_blocks(s, name) {
        None => seq![],
        Some(bs) => bs,
    }
}

/// Reading all blocks of a name from an `Slha` without checks gives what collecting them
/// into a `VecUnchecked` gives.
pub proof fn lemma_get_blocks_unchecked_collects<B: SlhaBlock>(s: SlhaView, name: Seq<char>)
    ensures
        spec_get_blocks_unchecked::<B>(s, name) == spec_collect::<VecUnchecked<B>>(
            raw_blocks_named(s, lowercase(name)),
            lowercase(name),
        ),
{
    lemma_vec_unchecked_keeps_all::<B>(raw_blocks_named(s, lowercase(name)), lowercase(name));
}

/// Reading a block that occurs once from an `Slha` gives what reading it into a plain field
/// gives.
pub proof fn lemma_get_block_single<B: SlhaBlock>(s: SlhaView, name: Seq<char>)
    requires
        raw_blocks_named(s, lowercase(name)).len() == 1,
    ensures
        spec_get_block::<B>(s, name) == Some(
            spec_collect::<B>(raw_blocks_named(s, lowercase(name)), lowercase(name)),
        ),
{
    lemma_block_occurs_once::<B>(raw_blocks_named(s, lowercase(name)), lowercase(name));
}

} // verus!
