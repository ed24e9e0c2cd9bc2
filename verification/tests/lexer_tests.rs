use tl::lexer::{
    add, isAlphanumeric, isCapitalLetter, isDigit, isLetter, isLowercaseLetter, lexicallyAnalyze,
};
use tl::lexer_types::{LexErrorKind, LexResult, Token, TokenType};

#[test]
fn isDigitTest() {
    assert!(isDigit(0) == false);
    assert!(isDigit(1) == false);
    assert!(isDigit(47) == false);
    assert!(isDigit(48) == true);
    assert!(isDigit(57) == true);
    assert!(isDigit(58) == false);
    assert!(isDigit(127) == false);
}

#[test]
fn isCapitalLetterTest() {
    assert!(isCapitalLetter(0) == false);
    assert!(isCapitalLetter(1) == false);
    assert!(isCapitalLetter(64) == false);
    assert!(isCapitalLetter(65) == true);
    assert!(isCapitalLetter(90) == true);
    assert!(isCapitalLetter(95) == false);
    assert!(isCapitalLetter(127) == false);
}

#[test]
fn isLowercaseLetterTest() {
    assert!(isLowercaseLetter(0) == false);
    assert!(isLowercaseLetter(1) == false);
    assert!(isLowercaseLetter(96) == false);
    assert!(isLowercaseLetter(97) == true);
    assert!(isLowercaseLetter(122) == true);
    assert!(isLowercaseLetter(123) == false);
    assert!(isLowercaseLetter(127) == false);
}

#[test]
fn isAlphanumericTest() {
    assert!(isAlphanumeric(0) == false);
    assert!(isAlphanumeric(1) == false);

    assert!(isAlphanumeric(47) == false);
    assert!(isAlphanumeric(48) == true);
    assert!(isAlphanumeric(57) == true);
    assert!(isAlphanumeric(58) == false);

    assert!(isAlphanumeric(60) == false);

    assert!(isAlphanumeric(64) == false);
    assert!(isAlphanumeric(65) == true);
    assert!(isAlphanumeric(90) == true);
    assert!(isAlphanumeric(91) == false);

    assert!(isAlphanumeric(93) == false);

    assert!(isAlphanumeric(96) == false);
    assert!(isAlphanumeric(97) == true);
    assert!(isAlphanumeric(122) == true);
    assert!(isAlphanumeric(123) == false);

    assert!(isAlphanumeric(124) == false);
    assert!(isAlphanumeric(127) == false);
}

#[test]
fn isLetterTest() {
    assert!(isLetter(0) == false);
    assert!(isLetter(1) == false);

    assert!(isLetter(64) == false);
    assert!(isLetter(65) == true);
    assert!(isLetter(90) == true);
    assert!(isLetter(91) == false);

    assert!(isLetter(93) == false);

    assert!(isLetter(96) == false);
    assert!(isLetter(97) == true);
    assert!(isLetter(122) == true);
    assert!(isLetter(123) == false);

    assert!(isLetter(124) == false);
    assert!(isLetter(127) == false);
}

// Classifier boundary law, checked over every byte value.
#[test]
fn classifierBoundaries() {
    for b in 0..=255u8 {
        assert_eq!(isDigit(b), (48..=57).contains(&b));
        assert_eq!(isCapitalLetter(b), (65..=90).contains(&b));
        assert_eq!(isLowercaseLetter(b), (97..=122).contains(&b));
        assert_eq!(isLetter(b), isCapitalLetter(b) || isLowercaseLetter(b));
        assert_eq!(isAlphanumeric(b), isLetter(b) || isDigit(b));
    }
}

#[test]
fn addTest() {
    assert_eq!(add(2, 3), 5);
    assert_eq!(add(-4, 4), 0);
}

fn toks(res: &LexResult) -> Vec<Token> {
    let mut out = Vec::new();
    let mut i: usize = 0;
    while i < res.len() {
        out.push(res.getToken(i));
        i += 1;
    }
    out
}

#[test]
fn singleWord() {
    let res = lexicallyAnalyze(b"foo");
    assert!(!res.wasError);
    let ts = toks(&res);
    assert_eq!(ts.len(), 1);
    assert!(ts[0].tType == TokenType::word);
    assert_eq!(ts[0].startChar, 0);
    assert_eq!(ts[0].lenChars, 3);
    assert_eq!(ts[0].lenTokens, 0);
}

#[test]
fn singleDotWord() {
    let res = lexicallyAnalyze(b".bar");
    assert!(!res.wasError);
    let ts = toks(&res);
    assert_eq!(ts.len(), 1);
    assert!(ts[0].tType == TokenType::dotWord);
    assert_eq!(ts[0].startChar, 0);
    assert_eq!(ts[0].lenChars, 4);
    assert_eq!(ts[0].lenTokens, 0);
}

#[test]
fn singleAtWord() {
    let res = lexicallyAnalyze(b"@foo");
    assert!(!res.wasError);
    let ts = toks(&res);
    assert_eq!(ts.len(), 1);
    assert!(ts[0].tType == TokenType::atWord);
    assert_eq!(ts[0].lenChars, 4);
}

#[test]
fn parenGroup() {
    let res = lexicallyAnalyze(b"(a b)");
    assert!(!res.wasError);
    let ts = toks(&res);
    assert_eq!(ts.len(), 3);
    assert!(ts[0].tType == TokenType::paren);
    assert_eq!(ts[0].startChar, 0);
    assert_eq!(ts[0].lenChars, 5);
    assert_eq!(ts[0].lenTokens, 2);
    assert!(ts[1].tType == TokenType::word);
    assert_eq!(ts[1].startChar, 1);
    assert_eq!(ts[1].lenChars, 1);
    assert!(ts[2].tType == TokenType::word);
    assert_eq!(ts[2].startChar, 3);
    assert_eq!(ts[2].lenChars, 1);
}

#[test]
fn unterminatedGroup() {
    let res = lexicallyAnalyze(b"(a");
    assert!(res.wasError);
    assert!(res.errKind == Some(LexErrorKind::UnterminatedGroup));
    assert_eq!(res.errOffset, 2);
    assert!(res.errMsg.is_some());
}

#[test]
fn intLiteral() {
    let res = lexicallyAnalyze(b"42");
    assert!(!res.wasError);
    let ts = toks(&res);
    assert_eq!(ts.len(), 1);
    assert!(ts[0].tType == TokenType::litInt);
    assert_eq!(ts[0].payload, 42);
    assert_eq!(ts[0].lenChars, 2);
}

#[test]
fn floatLiteral() {
    let res = lexicallyAnalyze(b"3.14");
    assert!(!res.wasError);
    let ts = toks(&res);
    assert_eq!(ts.len(), 1);
    assert!(ts[0].tType == TokenType::litFloat);
    assert_eq!(ts[0].lenChars, 4);
    let digits = (ts[0].payload >> 32) as f64;
    let fracCount = (ts[0].payload & 0xFFFF_FFFF) as i32;
    assert_eq!(digits / 10f64.powi(fracCount), 3.14);
}

#[test]
fn maxIntLiteral() {
    let res = lexicallyAnalyze(b"18446744073709551615");
    assert!(!res.wasError);
    let ts = toks(&res);
    assert_eq!(ts[0].payload, u64::MAX);
}

#[test]
fn intLiteralOverflow() {
    let res = lexicallyAnalyze(b"18446744073709551616");
    assert!(res.wasError);
    assert!(res.errKind == Some(LexErrorKind::InvalidNumberLiteral));
    assert_eq!(res.errOffset, 0);
}

#[test]
fn floatMantissaOverflow() {
    let res = lexicallyAnalyze(b"4294967296.1");
    assert!(res.wasError);
    assert!(res.errKind == Some(LexErrorKind::InvalidNumberLiteral));
    assert_eq!(res.errOffset, 0);
}

#[test]
fn unterminatedString() {
    let res = lexicallyAnalyze(b"\"abc");
    assert!(res.wasError);
    assert!(res.errKind == Some(LexErrorKind::UnterminatedString));
    assert_eq!(res.errOffset, 4);
}

#[test]
fn stringWithEscapes() {
    let res = lexicallyAnalyze(b"\"a\\\"b\"");
    assert!(!res.wasError);
    let ts = toks(&res);
    assert_eq!(ts.len(), 1);
    assert!(ts[0].tType == TokenType::litString);
    assert_eq!(ts[0].startChar, 0);
    assert_eq!(ts[0].lenChars, 6);
    assert_eq!(ts[0].payload, 0);
}

#[test]
fn unmatchedCloser() {
    let res = lexicallyAnalyze(b")");
    assert!(res.wasError);
    assert!(res.errKind == Some(LexErrorKind::UnmatchedCloser));
    assert_eq!(res.errOffset, 0);
}

#[test]
fn mismatchedCloser() {
    let res = lexicallyAnalyze(b"(]");
    assert!(res.wasError);
    assert!(res.errKind == Some(LexErrorKind::UnterminatedGroup));
    assert_eq!(res.errOffset, 1);
}

#[test]
fn unexpectedByte() {
    let res = lexicallyAnalyze(b"%");
    assert!(res.wasError);
    assert!(res.errKind == Some(LexErrorKind::UnexpectedByte));
    assert_eq!(res.errOffset, 0);
}

#[test]
fn dotWithoutLetter() {
    let res = lexicallyAnalyze(b". ");
    assert!(res.wasError);
    assert!(res.errKind == Some(LexErrorKind::UnexpectedByte));
    assert_eq!(res.errOffset, 0);
}

#[test]
fn emptyInput() {
    let res = lexicallyAnalyze(b"");
    assert!(!res.wasError);
    assert_eq!(res.len(), 0);
    assert!(res.errKind.is_none());
    assert!(res.errMsg.is_none());
}

#[test]
fn whitespaceOnly() {
    let res = lexicallyAnalyze(b"  \t\r\n ");
    assert!(!res.wasError);
    assert_eq!(res.len(), 0);
}

#[test]
fn commentThenWord() {
    let res = lexicallyAnalyze(b"# hi\nfoo");
    assert!(!res.wasError);
    let ts = toks(&res);
    assert_eq!(ts.len(), 2);
    assert!(ts[0].tType == TokenType::comment);
    assert_eq!(ts[0].startChar, 0);
    assert_eq!(ts[0].lenChars, 4);
    assert!(ts[1].tType == TokenType::word);
    assert_eq!(ts[1].startChar, 5);
    assert_eq!(ts[1].lenChars, 3);
}

#[test]
fn qualifiedName() {
    // A dot between two word characters starts a fresh dotWord token.
    let res = lexicallyAnalyze(b"a.b");
    assert!(!res.wasError);
    let ts = toks(&res);
    assert_eq!(ts.len(), 2);
    assert!(ts[0].tType == TokenType::word);
    assert_eq!(ts[0].lenChars, 1);
    assert!(ts[1].tType == TokenType::dotWord);
    assert_eq!(ts[1].startChar, 1);
    assert_eq!(ts[1].lenChars, 2);
}

#[test]
fn wordWithUnderscoreAndDigits() {
    let res = lexicallyAnalyze(b"a_1b");
    assert!(!res.wasError);
    let ts = toks(&res);
    assert_eq!(ts.len(), 1);
    assert!(ts[0].tType == TokenType::word);
    assert_eq!(ts[0].lenChars, 4);
}

#[test]
fn nestedGroups() {
    let res = lexicallyAnalyze(b"{[()]}");
    assert!(!res.wasError);
    let ts = toks(&res);
    assert_eq!(ts.len(), 3);
    assert!(ts[0].tType == TokenType::curlyBrace);
    assert_eq!(ts[0].lenChars, 6);
    assert_eq!(ts[0].lenTokens, 2);
    assert!(ts[1].tType == TokenType::bracket);
    assert_eq!(ts[1].startChar, 1);
    assert_eq!(ts[1].lenChars, 4);
    assert_eq!(ts[1].lenTokens, 1);
    assert!(ts[2].tType == TokenType::paren);
    assert_eq!(ts[2].startChar, 2);
    assert_eq!(ts[2].lenChars, 2);
    assert_eq!(ts[2].lenTokens, 0);
}

// Re-lexing the byte range of any emitted token yields one top-level
// token of the same type and, for leaves, the same payload.
#[test]
fn relexEmittedTokens() {
    let src: &[u8] = b"( foo 42 ) .bar \"s\" # c";
    let res = lexicallyAnalyze(src);
    assert!(!res.wasError);
    let ts = toks(&res);
    assert!(ts.len() > 0);
    for t in &ts {
        let lo = t.startChar as usize;
        let hi = lo + t.lenChars as usize;
        let again = lexicallyAnalyze(&src[lo..hi]);
        assert!(!again.wasError);
        let ts2 = toks(&again);
        assert!(ts2.len() >= 1);
        assert!(ts2[0].tType == t.tType);
        assert_eq!(ts2[0].startChar, 0);
        assert_eq!(ts2[0].lenChars, t.lenChars);
        assert_eq!(ts2[0].lenTokens, t.lenTokens);
        assert_eq!(ts2[0].payload, t.payload);
        // the re-lexed range holds exactly the token's own subtree
        assert_eq!(ts2.len() as u32, 1 + t.lenTokens);
    }
}

// Concatenating top-level sibling spans reproduces the source with the
// whitespace between top-level tokens removed.
#[test]
fn spanCoverage() {
    let src: &[u8] = b"  foo ( a 1 )  # note\n.bar 2.5 ";
    let res = lexicallyAnalyze(src);
    assert!(!res.wasError);
    let ts = toks(&res);
    let mut joined: Vec<u8> = Vec::new();
    let mut i: usize = 0;
    while i < ts.len() {
        let lo = ts[i].startChar as usize;
        let hi = lo + ts[i].lenChars as usize;
        joined.extend_from_slice(&src[lo..hi]);
        i += 1 + ts[i].lenTokens as usize;
    }
    let expected: Vec<u8> = b"foo( a 1 )# note.bar2.5".to_vec();
    assert_eq!(joined, expected);
}

// The arena keeps stable indices across slab boundaries.
#[test]
fn arenaCrossesChunks() {
    let mut src: Vec<u8> = Vec::new();
    for _ in 0..10001 {
        src.extend_from_slice(b"a ");
    }
    let res = lexicallyAnalyze(&src);
    assert!(!res.wasError);
    assert_eq!(res.len(), 10001);
    let t = res.getToken(10000);
    assert!(t.tType == TokenType::word);
    assert_eq!(t.startChar, 20000);
    assert_eq!(t.lenChars, 1);
}

#[test]
fn arenaDirectUse() {
    let mut lr = LexResult::new();
    assert_eq!(lr.len(), 0);
    let t = Token { tType: TokenType::word, payload: 7, startChar: 1, lenChars: 2, lenTokens: 0 };
    lr.addToken(t);
    assert_eq!(lr.len(), 1);
    assert!(lr.getToken(0) == t);
    let u = Token { tType: TokenType::comment, payload: 0, startChar: 3, lenChars: 4, lenTokens: 0 };
    lr.setToken(0, u);
    assert!(lr.getToken(0) == u);
    assert!(!lr.wasError);
}

#[test]
fn sentinelDefault() {
    let t = Token::default();
    assert!(t.tType == TokenType::sentinelToken);
    assert_eq!(t.payload, 0);
    assert_eq!(t.lenChars, 0);
}

#[test]
fn errorMessageRecorded() {
    let res = lexicallyAnalyze(b"(x");
    assert!(res.wasError);
    let msg = res.errMsg.clone().unwrap();
    assert_eq!(msg, "unterminated or mismatched group");
}
