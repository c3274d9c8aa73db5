//! Errors that may occur when parsing an SLHA file into rust types.
use vstd::prelude::*;

verus! {

/// The kinds of errors that may occur when parsing an SLHA file.
#[derive(Clone, Debug, PartialEq, Eq)]
pub enum ErrorKind {
    /// A block without a name was found in the SLHA file.
    MissingBlockName,
    /// A BLOCK in the SLHA file could not be parsed; the field is the name of the block.
    InvalidBlock(String),
    /// A BLOCK could not be parsed into a single valued block; the field is its name.
    InvalidBlockSingle(String),
    /// The pdg id of a DECAY segment could not be read.
    InvalidDecayingPdgId,
    /// A parse error occured in the DECAY table of the particle with the given pdg id.
    InvalidDecay(i64),
    /// A parser did not consume a whole line; the field holds the words left over.
    IncompleteParse(Vec<String>),
    /// The line ended before the parser was done.
    UnexpectedEol,
    /// An integer was expected; the field is the word that was found instead.
    InvalidInt(String),
    /// A floating point number was expected; the field is the word that was found instead.
    InvalidFloat(String),
    /// A top level segment other than "BLOCK" or "DECAY" was found; the field is its keyword.
    UnknownSegment(String),
    /// The beginning of a segment was expected, but an indented line was found.
    UnexpectedIdent(String),
    /// The block header holds something other than a scale after the block name.
    MalformedBlockHeader(String),
    /// The data line with the given (1-based) number in the body of a block could not be parsed.
    InvalidBlockLine(usize),
    /// The key part of a block line could not be read.
    InvalidBlockKey,
    /// The value part of a block line could not be read.
    InvalidBlockValue,
    /// The key of the data line with the given (1-based) number appeared before in the block.
    DuplicateKey(usize),
    /// A block (without scale) appeared more than once; the field is its name.
    DuplicateBlock(String),
    /// A block appeared more than once with the same scale.
    ///
    /// The fields are the name of the block and the order key of the scale (see
    /// `check_block_scales`).
    DuplicateBlockScale(String, u64),
    /// A block appears both with and without scale; the field is its name.
    RedefinedBlockWithQ(String),
    /// The scale of a block could not be read.
    InvalidScale,
    /// The SLHA file contains two DECAY tables for the particle with the given pdg id.
    DuplicateDecay(i64),
    /// The data line with the given (1-based) number in a DECAY table could not be read.
    InvalidDecayLine(usize),
    /// The width in a DECAY table could not be read.
    InvalidWidth,
    /// The branching ratio in a decay could not be read.
    InvalidBranchingRatio,
    /// The number of daughters in a decay could not be read.
    InvalidNumOfDaughters,
    /// There were fewer daughters than declared: the fields are the expected and found numbers.
    NotEnoughDaughters(u8, u8),
    /// The pdg id of a daughter particle could not be read.
    InvalidDaughterId,
    /// A single valued block does not hold exactly one data line; the field is the number found.
    WrongNumberOfValues(usize),
    /// A required block was not included in the SLHA file; the field is its name.
    MissingBlock(String),
}

/// The mathematical value of an `ErrorKind`, with strings as character sequences.
pub enum ErrorKindView {
    MissingBlockName,
    InvalidBlock(Seq<char>),
    InvalidBlockSingle(Seq<char>),
    InvalidDecayingPdgId,
    InvalidDecay(i64),
    IncompleteParse(Seq<Seq<char>>),
    UnexpectedEol,
    InvalidInt(Seq<char>),
    InvalidFloat(Seq<char>),
    UnknownSegment(Seq<char>),
    UnexpectedIdent(Seq<char>),
    MalformedBlockHeader(Seq<char>),
    InvalidBlockLine(nat),
    InvalidBlockKey,
    InvalidBlockValue,
    DuplicateKey(nat),
    DuplicateBlock(Seq<char>),
    DuplicateBlockScale(Seq<char>, u64),
    RedefinedBlockWithQ(Seq<char>),
    InvalidScale,
    DuplicateDecay(i64),
    InvalidDecayLine(nat),
    InvalidWidth,
    InvalidBranchingRatio,
    InvalidNumOfDaughters,
    NotEnoughDaughters(u8, u8),
    InvalidDaughterId,
    WrongNumberOfValues(nat),
    MissingBlock(Seq<char>),
}

impl View for ErrorKind {
    type V = ErrorKindView;

    open spec fn view(&self) -> ErrorKindView {
        match self {
            ErrorKind::MissingBlockName => ErrorKindView::MissingBlockName,
            ErrorKind::InvalidBlock(s) => ErrorKindView::InvalidBlock(s@),
            ErrorKind::InvalidBlockSingle(s) => ErrorKindView::InvalidBlockSingle(s@),
            ErrorKind::InvalidDecayingPdgId => ErrorKindView::InvalidDecayingPdgId,
            ErrorKind::InvalidDecay(p) => ErrorKindView::InvalidDecay(*p),
            ErrorKind::IncompleteParse(w) => ErrorKindView::IncompleteParse(w.deep_view()),
            ErrorKind::UnexpectedEol => ErrorKindView::UnexpectedEol,
            ErrorKind::InvalidInt(s) => ErrorKindView::InvalidInt(s@),
            ErrorKind::InvalidFloat(s) => ErrorKindView::InvalidFloat(s@),
            ErrorKind::UnknownSegment(s) => ErrorKindView::UnknownSegment(s@),
            ErrorKind::UnexpectedIdent(s) => ErrorKindView::UnexpectedIdent(s@),
            ErrorKind::MalformedBlockHeader(s) => ErrorKindView::MalformedBlockHeader(s@),
            ErrorKind::InvalidBlockLine(n) => ErrorKindView::InvalidBlockLine(*n as nat),
            ErrorKind::InvalidBlockKey => ErrorKindView::InvalidBlockKey,
            ErrorKind::InvalidBlockValue => ErrorKindView::InvalidBlockValue,
            ErrorKind::DuplicateKey(n) => ErrorKindView::DuplicateKey(*n as nat),
            ErrorKind::DuplicateBlock(s) => ErrorKindView::DuplicateBlock(s@),
            ErrorKind::DuplicateBlockScale(s, k) => ErrorKindView::DuplicateBlockScale(s@, *k),
            ErrorKind::RedefinedBlockWithQ(s) => ErrorKindView::RedefinedBlockWithQ(s@),
            ErrorKind::InvalidScale => ErrorKindView::InvalidScale,
            ErrorKind::DuplicateDecay(p) => ErrorKindView::DuplicateDecay(*p),
            ErrorKind::InvalidDecayLine(n) => ErrorKindView::InvalidDecayLine(*n as nat),
            ErrorKind::InvalidWidth => ErrorKindView::InvalidWidth,
            ErrorKind::InvalidBranchingRatio => ErrorKindView::InvalidBranchingRatio,
            ErrorKind::InvalidNumOfDaughters => ErrorKindView::InvalidNumOfDaughters,
            ErrorKind::NotEnoughDaughters(e, f) => ErrorKindView::NotEnoughDaughters(*e, *f),
            ErrorKind::InvalidDaughterId => ErrorKindView::InvalidDaughterId,
            ErrorKind::WrongNumberOfValues(n) => ErrorKindView::WrongNumberOfValues(*n as nat),
            ErrorKind::MissingBlock(s) => ErrorKindView::MissingBlock(s@),
        }
    }
}

/// An error: its kind and the chain of kinds that caused it, from the nearest cause to the
/// root cause.
#[derive(Clone, Debug, PartialEq, Eq)]
pub struct Error(pub ErrorKind, pub Vec<ErrorKind>);

/// The mathematical value of an `Error`: its kind and the chain of its causes.
pub type ErrorView = (ErrorKindView, Seq<ErrorKindView>);

impl View for Error {
    type V = ErrorView;

    open spec fn view(&self) -> ErrorView {
        (self.0@, self.1@.map_values(|k: ErrorKind| k@))
    }
}

/// An error of the given kind with no cause.
pub open spec fn err(k: ErrorKindView) -> ErrorView {
    (k, seq![])
}

/// The error of kind `k` caused by `e`.
pub open spec fn chain(e: ErrorView, k: ErrorKindView) -> ErrorView {
    (k, seq![e.0] + e.1)
}

/// `e` chained to the new kind `k` if it is an error; the `Ok` value unchanged.
pub open spec fn chain_err<T>(r: Result<T, ErrorView>, k: ErrorKindView) -> Result<T, ErrorView> {
    match r {
        Ok(v) => Ok(v),
        Err(e) => Err(chain(e, k)),
    }
}

impl Error {
    /// An error of the given kind with no cause.
    pub fn new(kind: ErrorKind) -> (r: Error)
        ensures
            r@ == err(kind@),
    {
        let r = Error(kind, Vec::new());
        assert(r@.1 =~= seq![]);
        r
    }

    /// This error as the cause of a new error of kind `kind`.
    pub fn chain(self, kind: ErrorKind) -> (r: Error)
        ensures
            r@ == chain(self@, kind@),
    {
        let Error(first, mut rest) = self;
        let mut causes: Vec<ErrorKind> = Vec::new();
        causes.push(first);
        causes.append(&mut rest);
        let r = Error(kind, causes);
        assert(r@.1 =~= seq![self@.0] + self@.1);
        r
    }
}

} // verus!
