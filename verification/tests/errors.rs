use slha::errors::{Error, ErrorKind};
use slha::{Block, BlockSingle, BlockStr, Real, Slha};

fn e(kind: ErrorKind, causes: Vec<ErrorKind>) -> Error {
    Error(kind, causes)
}

fn invalid_block(causes: Vec<ErrorKind>) -> Error {
    e(ErrorKind::InvalidBlock("t".to_string()), causes)
}

fn block_error<B: slha::SlhaBlock>(input: &str) -> Error {
    let slha = Slha::parse(input).unwrap();
    match slha.get_block::<B>("t") {
        Some(Err(err)) => err,
        Some(Ok(_)) => panic!("the block was read"),
        None => panic!("the block is missing"),
    }
}

fn parse_error(input: &str) -> Error {
    Slha::parse(input).unwrap_err()
}

#[test]
fn block_key_error_chain() {
    assert_eq!(
        block_error::<Block<i8, i8>>("BLOCK T\n x 3\n"),
        invalid_block(vec![
            ErrorKind::InvalidBlockLine(1),
            ErrorKind::InvalidBlockKey,
            ErrorKind::InvalidInt("x".to_string()),
        ])
    );
}

#[test]
fn block_value_error_chain() {
    assert_eq!(
        block_error::<Block<i8, i8>>("BLOCK T\n 1 2\n 2 y\n"),
        invalid_block(vec![
            ErrorKind::InvalidBlockLine(2),
            ErrorKind::InvalidBlockValue,
            ErrorKind::InvalidInt("y".to_string()),
        ])
    );
    assert_eq!(
        block_error::<Block<i8, i8>>("BLOCK T\n 1\n"),
        invalid_block(vec![
            ErrorKind::InvalidBlockLine(1),
            ErrorKind::InvalidBlockValue,
            ErrorKind::UnexpectedEol,
        ])
    );
    assert_eq!(
        block_error::<Block<i8, i8>>("BLOCK T\n 1 2 3\n"),
        invalid_block(vec![
            ErrorKind::InvalidBlockLine(1),
            ErrorKind::InvalidBlockValue,
            ErrorKind::IncompleteParse(vec!["3".to_string()]),
        ])
    );
    assert_eq!(
        block_error::<Block<i8, Real>>("BLOCK T\n 1 1,5\n"),
        invalid_block(vec![
            ErrorKind::InvalidBlockLine(1),
            ErrorKind::InvalidBlockValue,
            ErrorKind::InvalidFloat("1,5".to_string()),
        ])
    );
}

#[test]
fn block_duplicate_key_chain() {
    assert_eq!(
        block_error::<Block<i8, i8>>("BLOCK T\n 1 2\n 3 4\n 1 5\n"),
        invalid_block(vec![ErrorKind::DuplicateKey(3)])
    );
    assert_eq!(
        block_error::<BlockStr<i8>>("BLOCK T\n a b 2\n a b 3\n"),
        invalid_block(vec![ErrorKind::DuplicateKey(2)])
    );
}

#[test]
fn block_single_error_chain() {
    assert_eq!(
        block_error::<BlockSingle<i8>>("BLOCK T\n 1\n 2\n"),
        invalid_block(vec![ErrorKind::WrongNumberOfValues(2)])
    );
    assert_eq!(
        block_error::<BlockSingle<i8>>("BLOCK T\n"),
        invalid_block(vec![ErrorKind::WrongNumberOfValues(0)])
    );
    assert_eq!(
        block_error::<BlockSingle<i8>>("BLOCK T\n 1 2\n"),
        invalid_block(vec![ErrorKind::IncompleteParse(vec!["2".to_string()])])
    );
}

#[test]
fn block_header_errors() {
    assert_eq!(parse_error("BLOCK\n"), e(ErrorKind::MissingBlockName, vec![]));
    assert_eq!(parse_error("BLOCK # a comment only\n"), e(ErrorKind::MissingBlockName, vec![]));
    assert_eq!(
        parse_error("BLOCK T foo # x\n"),
        invalid_block(vec![ErrorKind::MalformedBlockHeader(" foo ".to_string())])
    );
    assert_eq!(
        parse_error("BLOCK T Q 5\n"),
        invalid_block(vec![ErrorKind::MalformedBlockHeader(" Q 5".to_string())])
    );
    assert_eq!(
        parse_error("BLOCK T Q= x\n"),
        invalid_block(vec![ErrorKind::InvalidScale, ErrorKind::InvalidFloat("x".to_string())])
    );
    assert_eq!(
        parse_error("BLOCK T Q=\n"),
        invalid_block(vec![ErrorKind::InvalidScale, ErrorKind::UnexpectedEol])
    );
    assert_eq!(
        parse_error("BLOCK T Q= 1 2\n"),
        invalid_block(vec![
            ErrorKind::InvalidScale,
            ErrorKind::IncompleteParse(vec!["2".to_string()]),
        ])
    );
}

#[test]
fn segment_errors() {
    assert_eq!(parse_error("FooBar 1\n"), e(ErrorKind::UnknownSegment("foobar".to_string()), vec![]));
    assert_eq!(
        parse_error("# c\n\tBLOCK T\n"),
        e(ErrorKind::UnexpectedIdent("\tBLOCK T".to_string()), vec![])
    );
}

#[test]
fn decay_header_errors() {
    assert_eq!(
        parse_error("DECAY x 1\n"),
        e(ErrorKind::InvalidDecayingPdgId, vec![ErrorKind::InvalidInt("x".to_string())])
    );
    assert_eq!(
        parse_error("DECAY # none\n"),
        e(ErrorKind::InvalidDecayingPdgId, vec![ErrorKind::UnexpectedEol])
    );
    assert_eq!(
        parse_error("DECAY 6 x\n"),
        e(ErrorKind::InvalidDecay(6), vec![ErrorKind::InvalidWidth, ErrorKind::InvalidFloat("x".to_string())])
    );
    assert_eq!(
        parse_error("DECAY 6\n"),
        e(ErrorKind::InvalidDecay(6), vec![ErrorKind::InvalidWidth, ErrorKind::UnexpectedEol])
    );
}

#[test]
fn decay_line_errors() {
    let decay = |line: &str| parse_error(&format!("DECAY 6 1.5\n 0.5 2 1 2\n{}\n", line));
    let line2 = |causes: Vec<ErrorKind>| {
        let mut all = vec![ErrorKind::InvalidDecayLine(2)];
        all.extend(causes);
        e(ErrorKind::InvalidDecay(6), all)
    };
    assert_eq!(
        decay(" a 2 1 2"),
        line2(vec![ErrorKind::InvalidBranchingRatio, ErrorKind::InvalidFloat("a".to_string())])
    );
    assert_eq!(
        decay(" 0.5 b 1 2"),
        line2(vec![ErrorKind::InvalidNumOfDaughters, ErrorKind::InvalidInt("b".to_string())])
    );
    assert_eq!(decay(" 0.5 3 1 2"), line2(vec![ErrorKind::NotEnoughDaughters(3, 2)]));
    assert_eq!(
        decay(" 0.5 2 1 z"),
        line2(vec![ErrorKind::InvalidDaughterId, ErrorKind::InvalidInt("z".to_string())])
    );
    assert_eq!(
        decay(" 0.5 2 1 2 3 4"),
        line2(vec![ErrorKind::IncompleteParse(vec!["3".to_string(), "4".to_string()])])
    );
    assert_eq!(
        decay(" 0.5"),
        line2(vec![ErrorKind::InvalidNumOfDaughters, ErrorKind::UnexpectedEol])
    );
    assert_eq!(
        parse_error("DECAY 6 1\n 1 0\nDECAY 6 2\n"),
        e(ErrorKind::DuplicateDecay(6), vec![])
    );
}

#[test]
fn decay_without_daughters() {
    let slha = Slha::parse("DECAY 25 4e-3\n 1.0 0\n").unwrap();
    let table = slha.get_decay(25).unwrap();
    assert_eq!(table.width.as_str(), "4e-3");
    assert_eq!(table.decays.len(), 1);
    assert_eq!(table.decays[0].daughters, Vec::<i64>::new());
    assert!(slha.get_decay(24).is_none());
}

#[test]
fn missing_and_duplicate_blocks() {
    let slha = Slha::parse("BLOCK A\n 1 2\nBLOCK a Q= 3\n 1 2\n").unwrap();
    assert!(slha.get_block::<Block<i8, i8>>("b").is_none());
    assert_eq!(
        slha.get_block::<Block<i8, i8>>("A").unwrap().unwrap_err(),
        e(ErrorKind::DuplicateBlock("a".to_string()), vec![])
    );
    assert_eq!(slha.get_blocks_unchecked::<Block<i8, i8>>("zz").unwrap().len(), 0);
    assert_eq!(slha.get_raw_blocks("zz").len(), 0);
}

#[test]
fn real_texts() {
    for ok in ["1", "-1", "+1", "1.", ".5", "1e5", "1E+5", "-.5e-3", "inf", "-Infinity", "NaN", "0.00000000E+00"] {
        let r = Real::new(ok).unwrap();
        assert_eq!(r.as_str(), ok);
        assert!(ok.parse::<f64>().is_ok());
    }
    for bad in ["", "1,0", "e5", "0x5", ".", "1e", "--1", "1.2.3", " 1", "nan1"] {
        assert!(Real::new(bad).is_none(), "{:?} was accepted", bad);
        assert!(bad.parse::<f64>().is_err());
    }
}

#[test]
fn lowercase_names() {
    let slha = Slha::parse("BLOCK ÄBC\n 1 2\n").unwrap();
    assert_eq!(slha.get_raw_blocks("äbc").len(), 1);
    assert_eq!(slha.get_raw_blocks("ÄBC").len(), 1);
    assert_eq!(slha.get_raw_blocks("ABC").len(), 0);
}

fn scale_of(header: &str) -> Result<Option<String>, Error> {
    let slha = Slha::parse(&format!("BLOCK T{}\n 1 2\n", header))?;
    Ok(slha.get_raw_blocks("t")[0].scale.as_ref().map(|r| r.as_str().to_string()))
}

#[test]
fn scale_header_shapes() {
    assert_eq!(scale_of(""), Ok(None));
    assert_eq!(scale_of("   # no scale"), Ok(None));
    assert_eq!(scale_of(" Q= 17.3"), Ok(Some("17.3".to_string())));
    assert_eq!(scale_of(" q = 1e-3"), Ok(Some("1e-3".to_string())));
    assert_eq!(scale_of(" Q=8"), Ok(Some("8".to_string())));
    assert_eq!(scale_of(" q=-3.7e-9 # c"), Ok(Some("-3.7e-9".to_string())));
    assert_eq!(
        scale_of(" Q =8"),
        Err(invalid_block(vec![ErrorKind::MalformedBlockHeader(" Q =8".to_string())]))
    );
    assert_eq!(
        scale_of(" Q"),
        Err(invalid_block(vec![ErrorKind::MalformedBlockHeader(" Q".to_string())]))
    );
    assert_eq!(
        scale_of(" Qx=5"),
        Err(invalid_block(vec![ErrorKind::MalformedBlockHeader(" Qx=5".to_string())]))
    );
    assert_eq!(
        scale_of(" Q=5 6"),
        Err(invalid_block(vec![
            ErrorKind::InvalidScale,
            ErrorKind::IncompleteParse(vec!["6".to_string()]),
        ]))
    );
    assert_eq!(
        scale_of(" Q= =5"),
        Err(invalid_block(vec![ErrorKind::InvalidScale, ErrorKind::InvalidFloat("=5".to_string())]))
    );
}

#[test]
fn body_lines_keep_trailing_whitespace() {
    let slha = Slha::parse("BLOCK T\n \t 1 3  \n  2 4\t# c  \n").unwrap();
    let raw = &slha.get_raw_blocks("t")[0];
    assert_eq!(raw.lines[0].data, "1 3  ");
    assert_eq!(raw.lines[0].comment, None);
    assert_eq!(raw.lines[1].data, "2 4\t");
    assert_eq!(raw.lines[1].comment, Some("# c  ".to_string()));
}
