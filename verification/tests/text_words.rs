use slha::errors::{Error, ErrorKind};
use slha::internal::{next_word, parse_segment, skip_empty_lines, Segment};
use slha::parse_result::{parse_prefix, ParseResult};
use slha::text::{chars_of, split_comment, split_lines, split_words};
use slha::Slha;

fn chars(s: &str) -> Vec<char> {
    s.chars().collect()
}

fn text_lines(s: &str) -> Vec<Vec<char>> {
    split_lines(&chars_of(s))
}

#[test]
fn it_works() {
    assert!(Slha::parse("").is_ok());
}

#[test]
fn internal_test_next_word() {
    assert_eq!(next_word(""), None);
    assert_eq!(next_word("    "), None);
    assert_eq!(next_word("\t \t   "), None);
    assert_eq!(next_word("foo"), Some(("foo", "")));
    assert_eq!(next_word("   bar"), Some(("bar", "")));
    assert_eq!(next_word("foo    "), Some(("foo", "    ")));
    assert_eq!(next_word("   bar\t  "), Some(("bar", "\t  ")));
    assert_eq!(next_word("bar\t  foogh"), Some(("bar", "\t  foogh")));
    assert_eq!(next_word("   bar\t  foogh"), Some(("bar", "\t  foogh")));
    assert_eq!(next_word("\tbar"), Some(("bar", "")));
    assert_eq!(next_word(" \t  bar\t  "), Some(("bar", "\t  ")));
    assert_eq!(next_word("\t   \tbar\t  foogh"), Some(("bar", "\t  foogh")));
}

#[test]
fn lib_test_next_word() {
    assert_eq!(next_word(""), None);
    assert_eq!(next_word("    "), None);
    assert_eq!(next_word("\t \t   "), None);
    assert_eq!(next_word("foo"), Some(("foo", "")));
    assert_eq!(next_word("   bar"), Some(("bar", "")));
    assert_eq!(next_word("foo    "), Some(("foo", "    ")));
    assert_eq!(next_word("   bar\t  "), Some(("bar", "\t  ")));
    assert_eq!(next_word("bar\t  foogh"), Some(("bar", "\t  foogh")));
    assert_eq!(next_word("   bar\t  foogh"), Some(("bar", "\t  foogh")));
    assert_eq!(next_word("\tbar"), Some(("bar", "")));
    assert_eq!(next_word(" \t  bar\t  "), Some(("bar", "\t  ")));
    assert_eq!(next_word("\t   \tbar\t  foogh"), Some(("bar", "\t  foogh")));
}

#[test]
fn next_word_unicode_whitespace() {
    // U+2003 (em space) and U+00A0 (no-break space) are whitespace.
    assert_eq!(next_word("\u{2003}foo\u{a0}bar"), Some(("foo", "\u{a0}bar")));
    assert_eq!(next_word("\u{2003}\u{a0}"), None);
}

#[test]
fn split_comment_cases() {
    assert_eq!(split_comment(&chars("1 3 # one")), (chars("1 3 "), Some(chars("# one"))));
    assert_eq!(split_comment(&chars("1 3")), (chars("1 3"), None));
    assert_eq!(split_comment(&chars("# all")), (chars(""), Some(chars("# all"))));
    assert_eq!(split_comment(&chars("a # b # c")), (chars("a "), Some(chars("# b # c"))));
}

#[test]
fn split_words_cases() {
    assert_eq!(split_words(&chars("  1 \t 2   x ")), vec!["1".to_string(), "2".to_string(), "x".to_string()]);
    assert_eq!(split_words(&chars("   ")), Vec::<String>::new());
}

#[test]
fn split_lines_cases() {
    assert_eq!(text_lines("a\nb\r\nc"), vec![chars("a"), chars("b"), chars("c")]);
    assert_eq!(text_lines("a\n"), vec![chars("a")]);
    assert_eq!(text_lines(""), Vec::<Vec<char>>::new());
    assert_eq!(text_lines("\n\n"), vec![chars(""), chars("")]);
}

#[test]
fn skip_empty_lines_cases() {
    let ls = text_lines("\n   \n# comment\n  # indented comment\nBLOCK A\n");
    assert_eq!(skip_empty_lines(&ls, 0), 4);
    assert_eq!(skip_empty_lines(&ls, 4), 4);
    assert_eq!(skip_empty_lines(&ls, 5), 5);
    let ls = text_lines("\n# only comments\n");
    assert_eq!(skip_empty_lines(&ls, 0), 2);
}

#[test]
fn parse_segment_steps() {
    let ls = text_lines("# head\nBLOCK A Q= 2\n 1 2\n\n 3 4 # c\nDECAY 6 1.5\n 1 2 5 24\n# end\n");
    let (seg, next) = parse_segment(&ls, 0).unwrap().unwrap();
    assert_eq!(next, 5);
    match seg {
        Segment::Block { name, block } => {
            assert_eq!(name, "a");
            assert_eq!(block.scale.unwrap().as_str(), "2");
            assert_eq!(block.lines.len(), 2);
            assert_eq!(block.lines[1].data, "3 4 ");
            assert_eq!(block.lines[1].comment, Some("# c".to_string()));
        },
        _ => panic!("expected a block"),
    }
    let (seg, next) = parse_segment(&ls, next).unwrap().unwrap();
    assert_eq!(next, 8);
    match seg {
        Segment::Decay { pdg_id, width, decays } => {
            assert_eq!(pdg_id, 6);
            assert_eq!(width.as_str(), "1.5");
            assert_eq!(decays.len(), 1);
            assert_eq!(decays[0].daughters, vec![5, 24]);
        },
        _ => panic!("expected a decay table"),
    }
    assert!(parse_segment(&ls, next).is_none());
}

#[test]
fn parse_segment_errors() {
    let ls = text_lines("foo bar\n");
    match parse_segment(&ls, 0) {
        Some(Err(Error(ErrorKind::UnknownSegment(kw), _))) => assert_eq!(kw, "foo"),
        other => panic!("unexpected {:?}", other),
    }
    let ls = text_lines("  BLOCK A\n");
    match parse_segment(&ls, 0) {
        Some(Err(Error(ErrorKind::UnexpectedIdent(l), _))) => assert_eq!(l, "  BLOCK A"),
        other => panic!("unexpected {:?}", other),
    }
}

#[test]
fn parse_result_end() {
    assert_eq!(parse_prefix::<(u8, u8)>("1 2  ").end(), Ok((1, 2)));
    assert_eq!(
        parse_prefix::<(u8, u8)>("1 2 3 4").end(),
        Err(Error(ErrorKind::IncompleteParse(vec!["3".to_string(), "4".to_string()]), vec![]))
    );
    assert_eq!(
        parse_prefix::<(u8, u8)>("1").end(),
        Err(Error(ErrorKind::UnexpectedEol, vec![]))
    );
    assert_eq!(
        parse_prefix::<u8>("300 1"),
        ParseResult::Error(Error(ErrorKind::InvalidInt("300".to_string()), vec![]))
    );
    assert_eq!(parse_prefix::<Vec<i64>>("1 -2 3"), ParseResult::Done("".to_string(), vec![1, -2, 3]));
}

#[test]
fn next_word_repeated_gives_words() {
    for input in ["", "  a bb\tccc  \n d", "x", " \u{2003}y z "] {
        let mut rest = input;
        let mut ws = Vec::new();
        while let Some((w, r)) = next_word(rest) {
            ws.push(w);
            rest = r;
        }
        assert_eq!(ws, input.split_whitespace().collect::<Vec<_>>());
        assert!(rest.trim().is_empty());
    }
}
