use bakka::parser::{bye_bakka_comment, handle_autobuild_file, is_space};
use nom::branch::alt;
use nom::bytes::complete::{tag, take_until};
use nom::character::complete::multispace1;
use nom::multi::many0;
use nom::sequence::{preceded, terminated};
use nom::IResult;

fn comment(input: &[u8]) -> IResult<&[u8], ()> {
    nom::combinator::map(terminated(tag("# bakka:"), take_until("\n")), |_| ())(input)
}

fn blank(input: &[u8]) -> IResult<&[u8], ()> {
    alt((nom::combinator::map(multispace1, |_| ()), comment))(input)
}

fn skipped(input: &[u8]) -> IResult<&[u8], ()> {
    nom::combinator::map(many0(blank), |_| ())(input)
}

fn line(input: &[u8]) -> IResult<&[u8], &[u8]> {
    take_until("\n")(input)
}

/// The same grammar, written with parser combinators.
fn by_combinators(input: &[u8]) -> Option<Vec<u8>> {
    let parsed: IResult<&[u8], Vec<&[u8]>> = many0(preceded(skipped, line))(input);
    match parsed {
        Ok((_, lines)) => {
            let mut out: Vec<u8> = Vec::new();
            for l in lines {
                out.extend(l);
                out.push(b'\n');
            }
            Some(out)
        }
        Err(_) => None,
    }
}

#[test]
fn test_parser() {
    let input = b"aaa\n# bakka: bbb\nccc\n";
    assert_eq!(
        std::str::from_utf8(&handle_autobuild_file(input).unwrap()).unwrap(),
        "aaa\nccc\n"
    );
}

#[test]
fn indentation_and_blank_lines_are_dropped() {
    let input = b"\n\n  \t a = 1 \r\n\r\n   # bakka: note\n\tb\n";
    assert_eq!(handle_autobuild_file(input).unwrap(), b"a = 1 \r\nb\n".to_vec());
}

#[test]
fn unterminated_last_line_is_dropped() {
    assert_eq!(handle_autobuild_file(b"one\ntwo").unwrap(), b"one\n".to_vec());
    assert_eq!(handle_autobuild_file(b"two").unwrap(), Vec::<u8>::new());
    assert_eq!(handle_autobuild_file(b"").unwrap(), Vec::<u8>::new());
    assert_eq!(handle_autobuild_file(b"one\n# bakka: two").unwrap(), b"one\n".to_vec());
}

#[test]
fn marker_inside_a_line_is_kept() {
    let input = b"x # bakka: y\n#bakka: z\n# bakka:\n# bakka\n";
    assert_eq!(
        handle_autobuild_file(input).unwrap(),
        b"x # bakka: y\n#bakka: z\n# bakka\n".to_vec()
    );
}

#[test]
fn closing_the_last_line_keeps_it() {
    assert_eq!(bye_bakka_comment(b"one\ntwo".to_vec()).unwrap(), b"one\ntwo\n".to_vec());
    assert_eq!(bye_bakka_comment(b"one\n".to_vec()).unwrap(), b"one\n".to_vec());
    assert_eq!(bye_bakka_comment(Vec::new()).unwrap(), Vec::<u8>::new());
    assert_eq!(bye_bakka_comment(b"# bakka: only".to_vec()).unwrap(), Vec::<u8>::new());
}

#[test]
fn blanks_are_space_tab_return_and_feed() {
    for b in 0u8..=255u8 {
        assert_eq!(is_space(b), b == b' ' || b == b'\t' || b == b'\r' || b == b'\n');
    }
}

#[test]
fn agrees_with_the_combinator_grammar() {
    let inputs: Vec<&[u8]> = vec![
        b"",
        b"\n",
        b"a",
        b"a\n",
        b"aaa\n# bakka: bbb\nccc\n",
        b"  \t\r\n x  \n\n\n# bakka:\n# bakka: a\n y\n",
        b"# bakka:",
        b"# bakka: no end",
        b"a\n# bakka: no end",
        b"a # bakka: inside\n",
        b"# bakk\n",
        b"#\n",
        b"# bakka:x\n# bakka:y\n",
        b" # bakka: indented\nkept\r\n",
        b"\xff\xfe\n\x00\n",
        b"one\ntwo\nthree",
        b"\t\t\t",
        b"x\n\n\n\n",
        b"# bakka: a\n# bakka: b\nz",
    ];
    for input in inputs {
        assert_eq!(handle_autobuild_file(input).ok(), by_combinators(input));
    }
}

#[test]
fn agrees_with_the_combinator_grammar_on_all_short_inputs() {
    let letters: [u8; 5] = [b'\n', b' ', b'#', b'a', b':'];
    let mut input: Vec<u8> = Vec::new();
    let mut count: u32 = 0;
    for len in 0usize..=6usize {
        let total: usize = letters.len().pow(len as u32);
        for code in 0usize..total {
            input.clear();
            let mut rest: usize = code;
            for _ in 0usize..len {
                input.push(letters[rest % letters.len()]);
                rest /= letters.len();
            }
            assert_eq!(handle_autobuild_file(&input).ok(), by_combinators(&input));
            count += 1;
        }
    }
    assert_eq!(count, 19531);
}

#[test]
fn agrees_with_the_combinator_grammar_on_all_short_texts() {
    let words: [&[u8]; 4] = [b"# bakka:", b"\n", b" ", b"a"];
    let mut input: Vec<u8> = Vec::new();
    let mut count: u32 = 0;
    for len in 0usize..=6usize {
        let total: usize = words.len().pow(len as u32);
        for code in 0usize..total {
            input.clear();
            let mut rest: usize = code;
            for _ in 0usize..len {
                input.extend_from_slice(words[rest % words.len()]);
                rest /= words.len();
            }
            assert_eq!(handle_autobuild_file(&input).ok(), by_combinators(&input));
            count += 1;
        }
    }
    assert_eq!(count, 5461);
}
