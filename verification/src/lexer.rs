//! The scanner: byte classification, the mathematical scan model, and the
//! executable scan proved equal to it.
use vstd::prelude::*;
use vstd::arithmetic::div_mod::{lemma_fundamental_div_mod, lemma_mod_pos_bound};
use crate::lexer_types::{LexErrorKind, LexResult, SpecToken, Token, TokenType};

verus! {

// -------------------------- ASCII constants

pub const asciiALower: u8 = 97;
pub const asciiZLower: u8 = 122;
pub const asciiAUpper: u8 = 65;
pub const asciiZUpper: u8 = 90;
pub const asciiDigit0: u8 = 48;
pub const asciiDigit9: u8 = 57;
pub const asciiDot: u8 = 46;
pub const asciiAt: u8 = 64;
pub const asciiUnderscore: u8 = 95;
pub const asciiQuote: u8 = 34;
pub const asciiBackslash: u8 = 92;
pub const asciiSharp: u8 = 35;
pub const asciiNewline: u8 = 10;
pub const asciiParenLeft: u8 = 40;
pub const asciiParenRight: u8 = 41;
pub const asciiBracketLeft: u8 = 91;
pub const asciiBracketRight: u8 = 93;
pub const asciiCurlyLeft: u8 = 123;
pub const asciiCurlyRight: u8 = 125;

// -------------------------- Byte classification

pub open spec fn spec_isCapitalLetter(a: u8) -> bool {
    asciiAUpper <= a <= asciiZUpper
}

pub open spec fn spec_isLowercaseLetter(a: u8) -> bool {
    asciiALower <= a <= asciiZLower
}

pub open spec fn spec_isLetter(a: u8) -> bool {
    spec_isLowercaseLetter(a) || spec_isCapitalLetter(a)
}

pub open spec fn spec_isDigit(a: u8) -> bool {
    asciiDigit0 <= a <= asciiDigit9
}

pub open spec fn spec_isAlphanumeric(a: u8) -> bool {
    spec_isLetter(a) || spec_isDigit(a)
}

/// A byte that may continue a word: alphanumeric or underscore.
pub open spec fn spec_isWordChar(a: u8) -> bool {
    spec_isAlphanumeric(a) || a == asciiUnderscore
}

/// Whitespace is skipped between tokens and never spanned by one.
pub open spec fn spec_isWhitespace(a: u8) -> bool {
    a == 32 || a == 9 || a == 10 || a == 13
}

pub fn isLetter(a: u8) -> (r: bool)
    ensures
        r == spec_isLetter(a),
        r == (65 <= a <= 90 || 97 <= a <= 122),
{
    (a >= asciiALower && a <= asciiZLower) || (a >= asciiAUpper && a <= asciiZUpper)
}

pub fn isCapitalLetter(a: u8) -> (r: bool)
    ensures
        r == spec_isCapitalLetter(a),
        r == (65 <= a <= 90),
{
    a >= asciiAUpper && a <= asciiZUpper
}

pub fn isLowercaseLetter(a: u8) -> (r: bool)
    ensures
        r == spec_isLowercaseLetter(a),
        r == (97 <= a <= 122),
{
    a >= asciiALower && a <= asciiZLower
}

pub fn isAlphanumeric(a: u8) -> (r: bool)
    ensures
        r == spec_isAlphanumeric(a),
        r == (spec_isLetter(a) || spec_isDigit(a)),
{
    isLetter(a) || isDigit(a)
}

pub fn isDigit(a: u8) -> (r: bool)
    ensures
        r == spec_isDigit(a),
        r == (48 <= a <= 57),
{
    a >= asciiDigit0 && a <= asciiDigit9
}

fn isWordChar(a: u8) -> (r: bool)
    ensures
        r == spec_isWordChar(a),
{
    isAlphanumeric(a) || a == asciiUnderscore
}

fn isWhitespace(a: u8) -> (r: bool)
    ensures
        r == spec_isWhitespace(a),
{
    a == 32 || a == 9 || a == 10 || a == 13
}

// -------------------------- The scan model
//
// `specScan` is the mathematical definition of the whole lex: given the
// input bytes, a cursor, and the closing delimiter the enclosing group
// expects (`None` at top level), it yields the token sequence, the cursor
// after the region, and the error that stopped the scan, if any.  The
// executable scanner below is proved to produce exactly this.

/// Outcome of scanning one region.
pub ghost struct ScanOut {
    /// Tokens of the region, in emission order (flattened-tree layout).
    pub tokens: Seq<SpecToken>,
    /// Cursor position after the region (after the closing delimiter, for a
    /// delimited region).
    pub end: nat,
    /// The error that stopped the scan, if any.
    pub err: Option<ScanStop>,
}

/// A fatal scan error: its kind and the byte offset of the failure.
pub ghost struct ScanStop {
    pub kind: LexErrorKind,
    pub at: nat,
}

pub open spec fn scanDone(end: nat) -> ScanOut {
    ScanOut { tokens: Seq::empty(), end, err: None }
}

pub open spec fn scanFail(kind: LexErrorKind, at: nat) -> ScanOut {
    ScanOut { tokens: Seq::empty(), end: at, err: Some(ScanStop { kind, at }) }
}

pub open spec fn prepend(t: SpecToken, r: ScanOut) -> ScanOut {
    ScanOut { tokens: seq![t] + r.tokens, end: r.end, err: r.err }
}

/// A leaf token: one that nests nothing.
pub open spec fn leafTok(kind: TokenType, payload: nat, start: nat, end: nat) -> SpecToken {
    SpecToken { kind, payload, start, lenChars: (end - start) as nat, lenTokens: 0 }
}

/// End of the maximal run of word bytes starting at `i`.
pub open spec fn wordRunEnd(inp: Seq<u8>, i: nat) -> nat
    decreases inp.len() - i,
{
    if i < inp.len() && spec_isWordChar(inp[i as int]) {
        wordRunEnd(inp, i + 1)
    } else {
        i
    }
}

/// End of the maximal run of digits starting at `i`.
pub open spec fn digitRunEnd(inp: Seq<u8>, i: nat) -> nat
    decreases inp.len() - i,
{
    if i < inp.len() && spec_isDigit(inp[i as int]) {
        digitRunEnd(inp, i + 1)
    } else {
        i
    }
}

/// End of the current line: the position of the next newline byte, or the
/// end of input.
pub open spec fn lineEnd(inp: Seq<u8>, i: nat) -> nat
    decreases inp.len() - i,
{
    if i < inp.len() && inp[i as int] != asciiNewline {
        lineEnd(inp, i + 1)
    } else {
        i
    }
}

/// Scanning a string literal's body from `i` (just after the opening
/// quote): the position after the closing unescaped quote, or `None` when
/// the input ends first.  A backslash makes the following byte literal.
pub open spec fn strEnd(inp: Seq<u8>, i: nat) -> Option<nat>
    decreases inp.len() - i,
{
    if i >= inp.len() {
        None
    } else if inp[i as int] == asciiQuote {
        Some((i + 1) as nat)
    } else if inp[i as int] == asciiBackslash {
        if i + 1 < inp.len() {
            strEnd(inp, i + 2)
        } else {
            None
        }
    } else {
        strEnd(inp, i + 1)
    }
}

/// The decimal value of a digit byte; zero for any other byte.
pub open spec fn digitVal(b: u8) -> nat {
    if spec_isDigit(b) {
        (b - asciiDigit0) as nat
    } else {
        0
    }
}

/// Decimal value of the digits in `[s, e)`, accumulated onto `acc`:
/// the fold `acc * 10 + digit`, left to right.
pub open spec fn digitsValFrom(inp: Seq<u8>, s: nat, e: nat, acc: nat) -> nat
    decreases e - s,
{
    if s >= e {
        acc
    } else {
        digitsValFrom(inp, s + 1, e, acc * 10 + digitVal(inp[s as int]))
    }
}

/// Outcome of scanning a number literal.
pub ghost struct NumScan {
    /// False when the literal does not fit the payload convention.
    pub ok: bool,
    pub tok: SpecToken,
    pub end: nat,
}

/// Scanning a number starting at the digit at `cur`: a maximal digit run,
/// continued over a decimal point into a second digit run when one follows.
/// An integer's payload is its exact value, which must fit 64 bits; a float
/// literal's payload packs its digits read as one decimal integer (high 32
/// bits, so they must fit 32 bits) with the count of fractional digits
/// (low 32 bits).
pub open spec fn numScan(inp: Seq<u8>, cur: nat) -> NumScan {
    let ie = digitRunEnd(inp, cur + 1);
    let ival = digitsValFrom(inp, cur, ie, 0);
    if ie < inp.len() && inp[ie as int] == asciiDot && ie + 1 < inp.len() && spec_isDigit(
        inp[ie as int + 1],
    ) {
        let fe = digitRunEnd(inp, ie + 2);
        let mant = digitsValFrom(inp, ie + 1, fe, ival);
        if mant > u32::MAX {
            NumScan { ok: false, tok: leafTok(TokenType::litInt, 0, cur, cur), end: cur }
        } else {
            NumScan {
                ok: true,
                tok: SpecToken {
                    kind: TokenType::litFloat,
                    payload: (mant * 0x1_0000_0000 + (fe - ie - 1)) as nat,
                    start: cur,
                    lenChars: (fe - cur) as nat,
                    lenTokens: 0,
                },
                end: fe,
            }
        }
    } else {
        if ival > u64::MAX {
            NumScan { ok: false, tok: leafTok(TokenType::litInt, 0, cur, cur), end: cur }
        } else {
            NumScan { ok: true, tok: leafTok(TokenType::litInt, ival, cur, ie), end: ie }
        }
    }
}

/// The token kind of a grouping, from its opening byte.
pub open spec fn groupKind(b: u8) -> TokenType {
    if b == asciiParenLeft {
        TokenType::paren
    } else if b == asciiBracketLeft {
        TokenType::bracket
    } else {
        TokenType::curlyBrace
    }
}

/// The closing byte a grouping's opening byte expects.
pub open spec fn closerFor(b: u8) -> u8 {
    if b == asciiParenLeft {
        asciiParenRight
    } else if b == asciiBracketLeft {
        asciiBracketRight
    } else {
        asciiCurlyRight
    }
}

/// The whole scan, as mathematics.  Dispatch follows a fixed priority on the
/// byte at the cursor: whitespace; letters (a word); a dot or at-sign
/// directly followed by a letter (`dotWord` / `atWord`, so `a.b` lexes as a
/// `word` then a `dotWord`); digits (a number); a quote (a string literal);
/// an opening delimiter (a grouping whose region is scanned against its
/// matching closer); a closing delimiter (ends the region it matches,
/// otherwise a fatal error); a sharp sign (a comment to end of line); any
/// other byte is fatal.  The bound guards on run ends are always true (see
/// the run lemmas) and exist only to make termination evident.
pub open spec fn specScan(inp: Seq<u8>, cur: nat, closer: Option<u8>) -> ScanOut
    decreases inp.len() - cur,
{
    if cur >= inp.len() {
        if closer is Some {
            scanFail(LexErrorKind::UnterminatedGroup, cur)
        } else {
            scanDone(cur)
        }
    } else {
        let b = inp[cur as int];
        if spec_isWhitespace(b) {
            specScan(inp, cur + 1, closer)
        } else if spec_isLetter(b) {
            let e = wordRunEnd(inp, cur + 1);
            if cur < e <= inp.len() {
                prepend(leafTok(TokenType::word, 0, cur, e), specScan(inp, e, closer))
            } else {
                scanFail(LexErrorKind::UnexpectedByte, cur)
            }
        } else if b == asciiDot && cur + 1 < inp.len() && spec_isLetter(inp[cur as int + 1]) {
            let e = wordRunEnd(inp, cur + 2);
            if cur < e <= inp.len() {
                prepend(leafTok(TokenType::dotWord, 0, cur, e), specScan(inp, e, closer))
            } else {
                scanFail(LexErrorKind::UnexpectedByte, cur)
            }
        } else if b == asciiAt && cur + 1 < inp.len() && spec_isLetter(inp[cur as int + 1]) {
            let e = wordRunEnd(inp, cur + 2);
            if cur < e <= inp.len() {
                prepend(leafTok(TokenType::atWord, 0, cur, e), specScan(inp, e, closer))
            } else {
                scanFail(LexErrorKind::UnexpectedByte, cur)
            }
        } else if spec_isDigit(b) {
            let ns = numScan(inp, cur);
            if !ns.ok {
                scanFail(LexErrorKind::InvalidNumberLiteral, cur)
            } else if cur < ns.end <= inp.len() {
                prepend(ns.tok, specScan(inp, ns.end, closer))
            } else {
                scanFail(LexErrorKind::UnexpectedByte, cur)
            }
        } else if b == asciiQuote {
            match strEnd(inp, cur + 1) {
                None => scanFail(LexErrorKind::UnterminatedString, inp.len()),
                Some(e) => if cur < e <= inp.len() {
                    prepend(leafTok(TokenType::litString, 0, cur, e), specScan(inp, e, closer))
                } else {
                    scanFail(LexErrorKind::UnexpectedByte, cur)
                },
            }
        } else if b == asciiParenLeft || b == asciiBracketLeft || b == asciiCurlyLeft {
            let sub = specScan(inp, cur + 1, Some(closerFor(b)));
            if sub.err is Some {
                ScanOut { tokens: Seq::empty(), end: sub.end, err: sub.err }
            } else if cur + 1 <= sub.end <= inp.len() {
                let g = SpecToken {
                    kind: groupKind(b),
                    payload: 0,
                    start: cur,
                    lenChars: (sub.end - cur) as nat,
                    lenTokens: sub.tokens.len(),
                };
                let rest = specScan(inp, sub.end, closer);
                ScanOut { tokens: seq![g] + sub.tokens + rest.tokens, end: rest.end, err: rest.err }
            } else {
                scanFail(LexErrorKind::UnexpectedByte, cur)
            }
        } else if b == asciiParenRight || b == asciiBracketRight || b == asciiCurlyRight {
            if closer == Some(b) {
                scanDone((cur + 1) as nat)
            } else if closer is Some {
                scanFail(LexErrorKind::UnterminatedGroup, cur)
            } else {
                scanFail(LexErrorKind::UnmatchedCloser, cur)
            }
        } else if b == asciiSharp {
            let e = lineEnd(inp, cur + 1);
            if cur < e <= inp.len() {
                prepend(leafTok(TokenType::comment, 0, cur, e), specScan(inp, e, closer))
            } else {
                scanFail(LexErrorKind::UnexpectedByte, cur)
            }
        } else {
            scanFail(LexErrorKind::UnexpectedByte, cur)
        }
    }
}

// -------------------------- Facts about the model's runs

/// The word run starting at `i` stays inside the input, consists of word
/// bytes, and ends at the input's end or at a non-word byte.
pub proof fn lemma_wordRunEnd(inp: Seq<u8>, i: nat)
    requires
        i <= inp.len(),
    ensures
        i <= wordRunEnd(inp, i) <= inp.len(),
        forall|j: int| i <= j < wordRunEnd(inp, i) ==> spec_isWordChar(#[trigger] inp[j]),
        wordRunEnd(inp, i) < inp.len() ==> !spec_isWordChar(inp[wordRunEnd(inp, i) as int]),
    decreases inp.len() - i,
{
    if i < inp.len() && spec_isWordChar(inp[i as int]) {
        lemma_wordRunEnd(inp, i + 1);
    }
}

/// As `lemma_wordRunEnd`, for digit runs.
pub proof fn lemma_digitRunEnd(inp: Seq<u8>, i: nat)
    requires
        i <= inp.len(),
    ensures
        i <= digitRunEnd(inp, i) <= inp.len(),
        forall|j: int| i <= j < digitRunEnd(inp, i) ==> spec_isDigit(#[trigger] inp[j]),
        digitRunEnd(inp, i) < inp.len() ==> !spec_isDigit(inp[digitRunEnd(inp, i) as int]),
    decreases inp.len() - i,
{
    if i < inp.len() && spec_isDigit(inp[i as int]) {
        lemma_digitRunEnd(inp, i + 1);
    }
}

/// As `lemma_wordRunEnd`, for the run of non-newline bytes.
pub proof fn lemma_lineEnd(inp: Seq<u8>, i: nat)
    requires
        i <= inp.len(),
    ensures
        i <= lineEnd(inp, i) <= inp.len(),
        forall|j: int| i <= j < lineEnd(inp, i) ==> #[trigger] inp[j] != asciiNewline,
        lineEnd(inp, i) < inp.len() ==> inp[lineEnd(inp, i) as int] == asciiNewline,
    decreases inp.len() - i,
{
    if i < inp.len() && inp[i as int] != asciiNewline {
        lemma_lineEnd(inp, i + 1);
    }
}

/// A found string end lies past `i` and inside the input.
pub proof fn lemma_strEnd(inp: Seq<u8>, i: nat)
    requires
        i <= inp.len(),
    ensures
        match strEnd(inp, i) {
            Some(e) => i < e <= inp.len(),
            None => true,
        },
    decreases inp.len() - i,
{
    if i < inp.len() && inp[i as int] != asciiQuote {
        if inp[i as int] == asciiBackslash {
            if i + 1 < inp.len() {
                lemma_strEnd(inp, i + 2);
            }
        } else {
            lemma_strEnd(inp, i + 1);
        }
    }
}

/// Accumulating digits never decreases the value.
pub proof fn lemma_digitsValFrom_ge(inp: Seq<u8>, s: nat, e: nat, acc: nat)
    ensures
        digitsValFrom(inp, s, e, acc) >= acc,
    decreases e - s,
{
    if s < e {
        lemma_digitsValFrom_ge(inp, s + 1, e, acc * 10 + digitVal(inp[s as int]));
    }
}

/// Bounds of a scanned region: the cursor only moves forward and stays in
/// the input, a region emits no more tokens than it consumes bytes, and a
/// successful top-level scan consumes the whole input.
pub proof fn lemma_scanBounds(inp: Seq<u8>, cur: nat, closer: Option<u8>)
    requires
        cur <= inp.len(),
    ensures
        ({
            let r = specScan(inp, cur, closer);
            &&& cur <= r.end <= inp.len()
            &&& r.tokens.len() <= r.end - cur
            &&& (r.err is None && closer is None ==> r.end == inp.len())
            &&& (r.err is None && closer is Some ==> cur + 1 <= r.end)
        }),
    decreases inp.len() - cur,
{
    let r = specScan(inp, cur, closer);
    if cur >= inp.len() {
    } else {
        let b = inp[cur as int];
        if spec_isWhitespace(b) {
            lemma_scanBounds(inp, cur + 1, closer);
        } else if spec_isLetter(b) {
            let e = wordRunEnd(inp, cur + 1);
            if cur < e <= inp.len() {
                lemma_scanBounds(inp, e, closer);
            }
        } else if b == asciiDot && cur + 1 < inp.len() && spec_isLetter(inp[cur as int + 1]) {
            let e = wordRunEnd(inp, cur + 2);
            if cur < e <= inp.len() {
                lemma_scanBounds(inp, e, closer);
            }
        } else if b == asciiAt && cur + 1 < inp.len() && spec_isLetter(inp[cur as int + 1]) {
            let e = wordRunEnd(inp, cur + 2);
            if cur < e <= inp.len() {
                lemma_scanBounds(inp, e, closer);
            }
        } else if spec_isDigit(b) {
            let ns = numScan(inp, cur);
            if ns.ok && cur < ns.end <= inp.len() {
                lemma_scanBounds(inp, ns.end, closer);
            }
        } else if b == asciiQuote {
            match strEnd(inp, cur + 1) {
                None => {},
                Some(e) => {
                    if cur < e <= inp.len() {
                        lemma_scanBounds(inp, e, closer);
                    }
                },
            }
        } else if b == asciiParenLeft || b == asciiBracketLeft || b == asciiCurlyLeft {
            let sub = specScan(inp, cur + 1, Some(closerFor(b)));
            lemma_scanBounds(inp, cur + 1, Some(closerFor(b)));
            if sub.err is None && cur + 1 <= sub.end <= inp.len() {
                lemma_scanBounds(inp, sub.end, closer);
            }
        } else if b == asciiSharp {
            let e = lineEnd(inp, cur + 1);
            if cur < e <= inp.len() {
                lemma_scanBounds(inp, e, closer);
            }
        } else {
        }
    }
}

// -------------------------- Executable run scanners

/// Scans the maximal run of word bytes (alphanumeric or underscore)
/// starting at `cur` and returns its end.
#[verifier::loop_isolation(false)]
pub fn lexWordChunk(inp: &[u8], cur: usize) -> (end: usize)
    requires
        cur <= inp@.len(),
    ensures
        end == wordRunEnd(inp@, cur as nat),
        cur <= end <= inp@.len(),
{
    proof {
        lemma_wordRunEnd(inp@, cur as nat);
    }
    let mut i = cur;
    loop
        invariant
            cur <= i <= inp@.len(),
            wordRunEnd(inp@, cur as nat) == wordRunEnd(inp@, i as nat),
        decreases inp@.len() - i,
    {
        if i < inp.len() {
            let b = inp[i];
            if isWordChar(b) {
                i = i + 1;
                continue ;
            }
        }
        break ;
    }
    i
}

/// Scans the maximal run of digits starting at `cur` and returns its end.
#[verifier::loop_isolation(false)]
fn lexDigitChunk(inp: &[u8], cur: usize) -> (end: usize)
    requires
        cur <= inp@.len(),
    ensures
        end == digitRunEnd(inp@, cur as nat),
        cur <= end <= inp@.len(),
{
    proof {
        lemma_digitRunEnd(inp@, cur as nat);
    }
    let mut i = cur;
    loop
        invariant
            cur <= i <= inp@.len(),
            digitRunEnd(inp@, cur as nat) == digitRunEnd(inp@, i as nat),
        decreases inp@.len() - i,
    {
        if i < inp.len() {
            let b = inp[i];
            if isDigit(b) {
                i = i + 1;
                continue ;
            }
        }
        break ;
    }
    i
}

/// Scans to the next newline byte (or end of input) and returns its position.
#[verifier::loop_isolation(false)]
fn lexLineChunk(inp: &[u8], cur: usize) -> (end: usize)
    requires
        cur <= inp@.len(),
    ensures
        end == lineEnd(inp@, cur as nat),
        cur <= end <= inp@.len(),
{
    proof {
        lemma_lineEnd(inp@, cur as nat);
    }
    let mut i = cur;
    loop
        invariant
            cur <= i <= inp@.len(),
            lineEnd(inp@, cur as nat) == lineEnd(inp@, i as nat),
        decreases inp@.len() - i,
    {
        if i < inp.len() {
            let b = inp[i];
            if b != asciiNewline {
                i = i + 1;
                continue ;
            }
        }
        break ;
    }
    i
}

/// Decodes the digit run `[s, e)` onto the accumulator `acc0`, failing as
/// soon as the value would exceed `cap`.
#[verifier::loop_isolation(false)]
fn decodeDigitsCapped(inp: &[u8], s: usize, e: usize, acc0: u64, cap: u64) -> (r: Option<u64>)
    requires
        s <= e <= inp@.len(),
        forall|j: int| s <= j < e ==> spec_isDigit(#[trigger] inp@[j]),
        acc0 <= cap,
        cap >= 9,
    ensures
        match r {
            Some(v) => v == digitsValFrom(inp@, s as nat, e as nat, acc0 as nat) && v <= cap,
            None => digitsValFrom(inp@, s as nat, e as nat, acc0 as nat) > cap,
        },
{
    let mut acc = acc0;
    let mut i = s;
    loop
        invariant
            s <= i <= e,
            acc <= cap,
            digitsValFrom(inp@, s as nat, e as nat, acc0 as nat) == digitsValFrom(
                inp@,
                i as nat,
                e as nat,
                acc as nat,
            ),
        decreases e - i,
    {
        if i == e {
            return Some(acc);
        }
        let d = inp[i] - asciiDigit0;
        let d64 = d as u64;
        proof {
            assert(digitVal(inp@[i as int]) == d64);
            lemma_fundamental_div_mod((cap - d64) as int, 10);
            lemma_mod_pos_bound((cap - d64) as int, 10);
        }
        if acc > (cap - d64) / 10 {
            proof {
                assert(acc * 10 + d64 > cap);
                lemma_digitsValFrom_ge(inp@, i as nat + 1, e as nat, (acc * 10 + d64) as nat);
            }
            return None;
        }
        proof {
            assert(acc * 10 + d64 <= cap);
        }
        acc = acc * 10 + d64;
        i = i + 1;
    }
}

// -------------------------- Token-emitting sub-scanners
//
// Each sub-scanner appends the tokens of one dispatch step to the result
// and returns the cursor after the consumed span; the ones that can fail
// record the error in the result's one-shot slot instead.

/// Scans a word starting at the letter at `cur`: the token spans the
/// maximal word-byte run.  A dot after it is not part of the token, so
/// `a.b` lexes as a `word` followed by a `dotWord`.
pub fn lexWord(inp: &[u8], cur: usize, lr: &mut LexResult) -> (end: usize)
    requires
        old(lr).wf(),
        old(lr).toks().len() < usize::MAX,
        cur < inp@.len() <= 0xFFFF_FFFFusize,
        spec_isLetter(inp@[cur as int]),
    ensures
        final(lr).wf(),
        end == wordRunEnd(inp@, cur as nat + 1),
        cur < end <= inp@.len(),
        final(lr).model() == old(lr).model().push(
            leafTok(TokenType::word, 0, cur as nat, end as nat),
        ),
        final(lr).toks().len() == old(lr).toks().len() + 1,
        final(lr).wasError == old(lr).wasError,
        final(lr).errKind == old(lr).errKind,
        final(lr).errOffset == old(lr).errOffset,
        final(lr).errMsg == old(lr).errMsg,
{
    let end = lexWordChunk(inp, cur + 1);
    lr.addToken(
        Token {
            tType: TokenType::word,
            payload: 0,
            startChar: cur as u32,
            lenChars: (end - cur) as u32,
            lenTokens: 0,
        },
    );
    end
}

/// Scans a `dotWord`: a dot directly followed by a letter; the token's span
/// includes the leading dot.
pub fn lexDotWord(inp: &[u8], cur: usize, lr: &mut LexResult) -> (end: usize)
    requires
        old(lr).wf(),
        old(lr).toks().len() < usize::MAX,
        cur < inp@.len() <= 0xFFFF_FFFFusize,
        inp@[cur as int] == asciiDot,
        cur + 1 < inp@.len(),
        spec_isLetter(inp@[cur as int + 1]),
    ensures
        final(lr).wf(),
        end == wordRunEnd(inp@, cur as nat + 2),
        cur < end <= inp@.len(),
        final(lr).model() == old(lr).model().push(
            leafTok(TokenType::dotWord, 0, cur as nat, end as nat),
        ),
        final(lr).toks().len() == old(lr).toks().len() + 1,
        final(lr).wasError == old(lr).wasError,
        final(lr).errKind == old(lr).errKind,
        final(lr).errOffset == old(lr).errOffset,
        final(lr).errMsg == old(lr).errMsg,
{
    let end = lexWordChunk(inp, cur + 2);
    lr.addToken(
        Token {
            tType: TokenType::dotWord,
            payload: 0,
            startChar: cur as u32,
            lenChars: (end - cur) as u32,
            lenTokens: 0,
        },
    );
    end
}

/// Scans an `atWord`: an at-sign directly followed by a letter; the token's
/// span includes the leading at-sign.
pub fn lexAtWord(inp: &[u8], cur: usize, lr: &mut LexResult) -> (end: usize)
    requires
        old(lr).wf(),
        old(lr).toks().len() < usize::MAX,
        cur < inp@.len() <= 0xFFFF_FFFFusize,
        inp@[cur as int] == asciiAt,
        cur + 1 < inp@.len(),
        spec_isLetter(inp@[cur as int + 1]),
    ensures
        final(lr).wf(),
        end == wordRunEnd(inp@, cur as nat + 2),
        cur < end <= inp@.len(),
        final(lr).model() == old(lr).model().push(
            leafTok(TokenType::atWord, 0, cur as nat, end as nat),
        ),
        final(lr).toks().len() == old(lr).toks().len() + 1,
        final(lr).wasError == old(lr).wasError,
        final(lr).errKind == old(lr).errKind,
        final(lr).errOffset == old(lr).errOffset,
        final(lr).errMsg == old(lr).errMsg,
{
    let end = lexWordChunk(inp, cur + 2);
    lr.addToken(
        Token {
            tType: TokenType::atWord,
            payload: 0,
            startChar: cur as u32,
            lenChars: (end - cur) as u32,
            lenTokens: 0,
        },
    );
    end
}

/// Scans a comment: from the sharp sign to the end of the line.  The
/// newline itself is whitespace and not part of the token.
pub fn lexComment(inp: &[u8], cur: usize, lr: &mut LexResult) -> (end: usize)
    requires
        old(lr).wf(),
        old(lr).toks().len() < usize::MAX,
        cur < inp@.len() <= 0xFFFF_FFFFusize,
        inp@[cur as int] == asciiSharp,
    ensures
        final(lr).wf(),
        end == lineEnd(inp@, cur as nat + 1),
        cur < end <= inp@.len(),
        final(lr).model() == old(lr).model().push(
            leafTok(TokenType::comment, 0, cur as nat, end as nat),
        ),
        final(lr).toks().len() == old(lr).toks().len() + 1,
        final(lr).wasError == old(lr).wasError,
        final(lr).errKind == old(lr).errKind,
        final(lr).errOffset == old(lr).errOffset,
        final(lr).errMsg == old(lr).errMsg,
{
    let end = lexLineChunk(inp, cur + 1);
    lr.addToken(
        Token {
            tType: TokenType::comment,
            payload: 0,
            startChar: cur as u32,
            lenChars: (end - cur) as u32,
            lenTokens: 0,
        },
    );
    end
}

/// Scans a string literal from the opening quote at `cur` to its matching
/// unescaped closing quote; a backslash makes the following byte literal.
/// The payload of a string token is left to a collaborating interner and
/// is zero here.  Fails with `UnterminatedString` when the input ends first.
#[verifier::loop_isolation(false)]
pub fn lexString(inp: &[u8], cur: usize, lr: &mut LexResult) -> (end: usize)
    requires
        old(lr).wf(),
        old(lr).toks().len() < usize::MAX,
        cur < inp@.len() <= 0xFFFF_FFFFusize,
        inp@[cur as int] == asciiQuote,
    ensures
        final(lr).wf(),
        match strEnd(inp@, cur as nat + 1) {
            Some(e) => {
                &&& end == e
                &&& cur < e <= inp@.len()
                &&& final(lr).model() == old(lr).model().push(
                    leafTok(TokenType::litString, 0, cur as nat, e),
                )
                &&& final(lr).toks().len() == old(lr).toks().len() + 1
                &&& final(lr).wasError == old(lr).wasError
                &&& final(lr).errKind == old(lr).errKind
                &&& final(lr).errOffset == old(lr).errOffset
                &&& final(lr).errMsg == old(lr).errMsg
            },
            None => {
                &&& final(lr).model() == old(lr).model()
                &&& final(lr).toks().len() == old(lr).toks().len()
                &&& final(lr).wasError
                &&& final(lr).errKind == Some(LexErrorKind::UnterminatedString)
                &&& final(lr).errOffset == inp@.len()
                &&& final(lr).errMsg matches Some(m) && m@ == crate::lexer_types::errText(
                    LexErrorKind::UnterminatedString,
                )
            },
        },
{
    let ghost lr0 = *lr;
    proof {
        lemma_strEnd(inp@, cur as nat + 1);
    }
    let mut i = cur + 1;
    loop
        invariant
            cur + 1 <= i <= inp@.len(),
            strEnd(inp@, cur as nat + 1) == strEnd(inp@, i as nat),
            *lr == lr0,
        decreases inp@.len() - i,
    {
        if i >= inp.len() {
            lr.recordError(LexErrorKind::UnterminatedString, inp.len() as u32);
            return inp.len();
        }
        let b = inp[i];
        if b == asciiQuote {
            lr.addToken(
                Token {
                    tType: TokenType::litString,
                    payload: 0,
                    startChar: cur as u32,
                    lenChars: (i + 1 - cur) as u32,
                    lenTokens: 0,
                },
            );
            return i + 1;
        }
        if b == asciiBackslash {
            if i + 1 < inp.len() {
                i = i + 2;
            } else {
                lr.recordError(LexErrorKind::UnterminatedString, inp.len() as u32);
                return inp.len();
            }
        } else {
            i = i + 1;
        }
    }
}

/// Scans a number starting at the digit at `cur`, emitting `litInt` or
/// `litFloat` per `numScan`'s convention; fails with `InvalidNumberLiteral`
/// when the literal does not fit the payload.
pub fn lexNumber(inp: &[u8], cur: usize, lr: &mut LexResult) -> (end: usize)
    requires
        old(lr).wf(),
        old(lr).toks().len() < usize::MAX,
        cur < inp@.len() <= 0xFFFF_FFFFusize,
        spec_isDigit(inp@[cur as int]),
    ensures
        final(lr).wf(),
        ({
            let ns = numScan(inp@, cur as nat);
            if ns.ok {
                &&& end == ns.end
                &&& cur < end <= inp@.len()
                &&& final(lr).model() == old(lr).model().push(ns.tok)
                &&& final(lr).toks().len() == old(lr).toks().len() + 1
                &&& final(lr).wasError == old(lr).wasError
                &&& final(lr).errKind == old(lr).errKind
                &&& final(lr).errOffset == old(lr).errOffset
                &&& final(lr).errMsg == old(lr).errMsg
            } else {
                &&& final(lr).model() == old(lr).model()
                &&& final(lr).toks().len() == old(lr).toks().len()
                &&& final(lr).wasError
                &&& final(lr).errKind == Some(LexErrorKind::InvalidNumberLiteral)
                &&& final(lr).errOffset == cur
                &&& final(lr).errMsg matches Some(m) && m@ == crate::lexer_types::errText(
                    LexErrorKind::InvalidNumberLiteral,
                )
            }
        }),
{
    let ie = lexDigitChunk(inp, cur + 1);
    proof {
        lemma_digitRunEnd(inp@, cur as nat + 1);
        assert forall|j: int| cur <= j < ie implies spec_isDigit(#[trigger] inp@[j]) by {}
    }
    let isFloat = ie < inp.len() && inp[ie] == asciiDot && ie + 1 < inp.len() && isDigit(
        inp[ie + 1],
    );
    if isFloat {
        let fe = lexDigitChunk(inp, ie + 2);
        proof {
            lemma_digitRunEnd(inp@, ie as nat + 2);
            assert forall|j: int| ie + 1 <= j < fe implies spec_isDigit(#[trigger] inp@[j]) by {}
        }
        match decodeDigitsCapped(inp, cur, ie, 0, 0xFFFF_FFFFu64) {
            None => {
                proof {
                    lemma_digitsValFrom_ge(
                        inp@,
                        ie as nat + 1,
                        fe as nat,
                        digitsValFrom(inp@, cur as nat, ie as nat, 0),
                    );
                }
                lr.recordError(LexErrorKind::InvalidNumberLiteral, cur as u32);
                cur
            },
            Some(iv) => {
                match decodeDigitsCapped(inp, ie + 1, fe, iv, 0xFFFF_FFFFu64) {
                    None => {
                        lr.recordError(LexErrorKind::InvalidNumberLiteral, cur as u32);
                        cur
                    },
                    Some(m) => {
                        let fc = fe - ie - 1;
                        let payload: u64 = m * 0x1_0000_0000u64 + fc as u64;
                        lr.addToken(
                            Token {
                                tType: TokenType::litFloat,
                                payload,
                                startChar: cur as u32,
                                lenChars: (fe - cur) as u32,
                                lenTokens: 0,
                            },
                        );
                        fe
                    },
                }
            },
        }
    } else {
        match decodeDigitsCapped(inp, cur, ie, 0, u64::MAX) {
            None => {
                lr.recordError(LexErrorKind::InvalidNumberLiteral, cur as u32);
                cur
            },
            Some(v) => {
                lr.addToken(
                    Token {
                        tType: TokenType::litInt,
                        payload: v,
                        startChar: cur as u32,
                        lenChars: (ie - cur) as u32,
                        lenTokens: 0,
                    },
                );
                ie
            },
        }
    }
}

// -------------------------- The scanner proper

/// Scans one region of the input, from `start` to the closing delimiter
/// `closer` expects (or to the end of input at top level), appending the
/// region's tokens to `lr`.  Produces exactly what `specScan` says: on
/// success the appended tokens are the model's and the returned cursor is
/// the model's region end; on failure the model's error is recorded in
/// `lr` and the arena is to be treated as unusable.
#[verifier::loop_isolation(false)]
#[verifier::rlimit(100)]
fn scanRegion(inp: &[u8], start: usize, closer: Option<u8>, lr: &mut LexResult) -> (end: usize)
    requires
        old(lr).wf(),
        !old(lr).wasError,
        start <= inp@.len() <= 0xFFFF_FFFFusize,
        old(lr).toks().len() + (inp@.len() - start) <= usize::MAX,
    ensures
        final(lr).wf(),
        ({
            let r = specScan(inp@, start as nat, closer);
            match r.err {
                None => {
                    &&& !final(lr).wasError
                    &&& final(lr).model() == old(lr).model() + r.tokens
                    &&& end == r.end
                    &&& final(lr).errKind == old(lr).errKind
                    &&& final(lr).errOffset == old(lr).errOffset
                    &&& final(lr).errMsg == old(lr).errMsg
                },
                Some(st) => {
                    &&& final(lr).wasError
                    &&& final(lr).errKind == Some(st.kind)
                    &&& final(lr).errOffset == st.at
                    &&& final(lr).errMsg matches Some(m) && m@ == crate::lexer_types::errText(
                        st.kind,
                    )
                },
            }
        }),
    decreases inp@.len() - start,
{
    let ghost lr0 = *lr;
    let ghost rs = specScan(inp@, start as nat, closer);
    let mut cur = start;
    let ghost mut emitted: Seq<SpecToken> = Seq::empty();
    proof {
        assert(lr.model() =~= lr0.model() + emitted);
    }
    while cur < inp.len()
        invariant
            start <= cur <= inp@.len(),
            lr.wf(),
            !lr.wasError,
            lr.errKind == lr0.errKind,
            lr.errOffset == lr0.errOffset,
            lr.errMsg == lr0.errMsg,
            lr.model() == lr0.model() + emitted,
            lr.toks().len() + (inp@.len() - cur) <= usize::MAX,
            rs.err == specScan(inp@, cur as nat, closer).err,
            rs.end == specScan(inp@, cur as nat, closer).end,
            rs.tokens == emitted + specScan(inp@, cur as nat, closer).tokens,
        decreases inp@.len() - cur,
    {
        let ghost rc = specScan(inp@, cur as nat, closer);
        let b = inp[cur];
        if isWhitespace(b) {
            cur = cur + 1;
        } else if isLetter(b) {
            let e = lexWord(inp, cur, lr);
            proof {
                let t = leafTok(TokenType::word, 0, cur as nat, e as nat);
                assert(rc == prepend(t, specScan(inp@, e as nat, closer)));
                assert(lr0.model() + emitted.push(t) =~= (lr0.model() + emitted).push(t));
                emitted = emitted.push(t);
                assert(rs.tokens =~= emitted + specScan(inp@, e as nat, closer).tokens);
            }
            cur = e;
        } else if b == asciiDot {
            if cur + 1 < inp.len() && isLetter(inp[cur + 1]) {
                let e = lexDotWord(inp, cur, lr);
                proof {
                    let t = leafTok(TokenType::dotWord, 0, cur as nat, e as nat);
                    assert(rc == prepend(t, specScan(inp@, e as nat, closer)));
                    assert(lr0.model() + emitted.push(t) =~= (lr0.model() + emitted).push(t));
                    emitted = emitted.push(t);
                    assert(rs.tokens =~= emitted + specScan(inp@, e as nat, closer).tokens);
                }
                cur = e;
            } else {
                proof {
                    assert(rc == scanFail(LexErrorKind::UnexpectedByte, cur as nat));
                }
                lr.recordError(LexErrorKind::UnexpectedByte, cur as u32);
                return cur;
            }
        } else if b == asciiAt {
            if cur + 1 < inp.len() && isLetter(inp[cur + 1]) {
                let e = lexAtWord(inp, cur, lr);
                proof {
                    let t = leafTok(TokenType::atWord, 0, cur as nat, e as nat);
                    assert(rc == prepend(t, specScan(inp@, e as nat, closer)));
                    assert(lr0.model() + emitted.push(t) =~= (lr0.model() + emitted).push(t));
                    emitted = emitted.push(t);
                    assert(rs.tokens =~= emitted + specScan(inp@, e as nat, closer).tokens);
                }
                cur = e;
            } else {
                proof {
                    assert(rc == scanFail(LexErrorKind::UnexpectedByte, cur as nat));
                }
                lr.recordError(LexErrorKind::UnexpectedByte, cur as u32);
                return cur;
            }
        } else if isDigit(b) {
            let e = lexNumber(inp, cur, lr);
            if lr.wasError {
                proof {
                    assert(!numScan(inp@, cur as nat).ok);
                    assert(rc == scanFail(LexErrorKind::InvalidNumberLiteral, cur as nat));
                }
                return cur;
            }
            proof {
                let ns = numScan(inp@, cur as nat);
                assert(ns.ok);
                assert(rc == prepend(ns.tok, specScan(inp@, e as nat, closer)));
                assert(lr0.model() + emitted.push(ns.tok) =~= (lr0.model() + emitted).push(
                    ns.tok,
                ));
                emitted = emitted.push(ns.tok);
                assert(rs.tokens =~= emitted + specScan(inp@, e as nat, closer).tokens);
            }
            cur = e;
        } else if b == asciiQuote {
            let e = lexString(inp, cur, lr);
            if lr.wasError {
                proof {
                    assert(strEnd(inp@, cur as nat + 1) is None);
                    assert(rc == scanFail(LexErrorKind::UnterminatedString, inp@.len()));
                }
                return cur;
            }
            proof {
                let se = strEnd(inp@, cur as nat + 1)->Some_0;
                let t = leafTok(TokenType::litString, 0, cur as nat, se);
                assert(rc == prepend(t, specScan(inp@, se, closer)));
                assert(lr0.model() + emitted.push(t) =~= (lr0.model() + emitted).push(t));
                emitted = emitted.push(t);
                assert(rs.tokens =~= emitted + specScan(inp@, se, closer).tokens);
            }
            cur = e;
        } else if b == asciiParenLeft || b == asciiBracketLeft || b == asciiCurlyLeft {
            let gKind = if b == asciiParenLeft {
                TokenType::paren
            } else if b == asciiBracketLeft {
                TokenType::bracket
            } else {
                TokenType::curlyBrace
            };
            let cb = if b == asciiParenLeft {
                asciiParenRight
            } else if b == asciiBracketLeft {
                asciiBracketRight
            } else {
                asciiCurlyRight
            };
            proof {
                assert(gKind == groupKind(b));
                assert(cb == closerFor(b));
                lemma_scanBounds(inp@, cur as nat + 1, Some(cb));
            }
            let p = lr.len();
            lr.addToken(
                Token {
                    tType: gKind,
                    payload: 0,
                    startChar: cur as u32,
                    lenChars: 0,
                    lenTokens: 0,
                },
            );
            let ghost lrMid = *lr;
            let subEnd = scanRegion(inp, cur + 1, Some(cb), lr);
            let ghost sub = specScan(inp@, cur as nat + 1, Some(cb));
            if lr.wasError {
                proof {
                    assert(sub.err is Some);
                    assert(rc.err == sub.err);
                    assert(rc.end == sub.end);
                }
                return cur;
            }
            proof {
                assert(sub.err is None);
                assert(lr.model() == lrMid.model() + sub.tokens);
                assert(lr.model().len() == lr.toks().len());
                assert(lrMid.model().len() == lrMid.toks().len());
                assert(lr.toks().len() == lrMid.toks().len() + sub.tokens.len());
                assert(sub.tokens.len() <= sub.end - (cur as nat + 1));
                assert(cur as nat + 1 <= sub.end <= inp@.len());
            }
            let k = lr.len() - p - 1;
            let g = Token {
                tType: gKind,
                payload: 0,
                startChar: cur as u32,
                lenChars: (subEnd - cur) as u32,
                lenTokens: k as u32,
            };
            lr.setToken(p, g);
            proof {
                let gs = SpecToken {
                    kind: groupKind(b),
                    payload: 0,
                    start: cur as nat,
                    lenChars: (sub.end - cur) as nat,
                    lenTokens: sub.tokens.len(),
                };
                assert(g@ == gs);
                assert(lr.model() =~= lr0.model() + (emitted + seq![gs] + sub.tokens));
                let rest = specScan(inp@, sub.end, closer);
                assert(rc.tokens == seq![gs] + sub.tokens + rest.tokens);
                assert(rc.err == rest.err);
                assert(rc.end == rest.end);
                emitted = emitted + seq![gs] + sub.tokens;
                assert(rs.tokens =~= emitted + rest.tokens);
            }
            cur = subEnd;
        } else if b == asciiParenRight || b == asciiBracketRight || b == asciiCurlyRight {
            match closer {
                Some(c) => {
                    if c == b {
                        proof {
                            assert(rc == scanDone(cur as nat + 1));
                            assert(rs.tokens =~= emitted);
                        }
                        return cur + 1;
                    } else {
                        proof {
                            assert(rc == scanFail(LexErrorKind::UnterminatedGroup, cur as nat));
                        }
                        lr.recordError(LexErrorKind::UnterminatedGroup, cur as u32);
                        return cur;
                    }
                },
                None => {
                    proof {
                        assert(rc == scanFail(LexErrorKind::UnmatchedCloser, cur as nat));
                    }
                    lr.recordError(LexErrorKind::UnmatchedCloser, cur as u32);
                    return cur;
                },
            }
        } else if b == asciiSharp {
            let e = lexComment(inp, cur, lr);
            proof {
                let t = leafTok(TokenType::comment, 0, cur as nat, e as nat);
                assert(rc == prepend(t, specScan(inp@, e as nat, closer)));
                assert(lr0.model() + emitted.push(t) =~= (lr0.model() + emitted).push(t));
                emitted = emitted.push(t);
                assert(rs.tokens =~= emitted + specScan(inp@, e as nat, closer).tokens);
            }
            cur = e;
        } else {
            proof {
                assert(rc == scanFail(LexErrorKind::UnexpectedByte, cur as nat));
            }
            lr.recordError(LexErrorKind::UnexpectedByte, cur as u32);
            return cur;
        }
    }
    // End of input.
    match closer {
        Some(_) => {
            proof {
                assert(specScan(inp@, cur as nat, closer) == scanFail(
                    LexErrorKind::UnterminatedGroup,
                    cur as nat,
                ));
            }
            lr.recordError(LexErrorKind::UnterminatedGroup, cur as u32);
            cur
        },
        None => {
            proof {
                assert(specScan(inp@, cur as nat, closer) == scanDone(cur as nat));
                assert(rs.tokens =~= emitted);
            }
            cur
        },
    }
}

/// The single entry point: lexes `inp` into a fresh `LexResult`.
///
/// On success the result holds exactly the token stream of the scan model
/// `specScan` and no error; on failure it holds the model's error kind, the
/// byte offset of the failure and a diagnostic, and its arena is to be
/// treated as incomplete.
pub fn lexicallyAnalyze(inp: &[u8]) -> (res: LexResult)
    requires
        inp@.len() <= 0xFFFF_FFFFusize,
    ensures
        res.wf(),
        ({
            let r = specScan(inp@, 0, None);
            match r.err {
                None => {
                    &&& !res.wasError
                    &&& res.model() == r.tokens
                    &&& res.toks().len() == r.tokens.len()
                    &&& res.errKind is None
                    &&& res.errMsg is None
                },
                Some(st) => {
                    &&& res.wasError
                    &&& res.errKind == Some(st.kind)
                    &&& res.errOffset == st.at
                    &&& res.errMsg matches Some(m) && m@ == crate::lexer_types::errText(st.kind)
                },
            }
        }),
{
    let mut lr = LexResult::new();
    proof {
        assert(lr.model() =~= Seq::<SpecToken>::empty());
    }
    let _end = scanRegion(inp, 0, None, &mut lr);
    proof {
        let r = specScan(inp@, 0, None);
        if r.err is None {
            assert(lr.model() =~= r.tokens);
        }
    }
    lr
}

// -------------------------- Small arithmetic

/// Exact sum of two machine integers.
pub fn add(a: i32, b: i32) -> (r: i32)
    requires
        i32::MIN <= a + b <= i32::MAX,
    ensures
        r == a + b,
{
    a + b
}

} // verus!
