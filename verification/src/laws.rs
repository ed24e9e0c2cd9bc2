//! Laws of the scanner, stated and proved over the scan model `specScan`.
//! `lexicallyAnalyze` ensures that its output is exactly that model, so
//! every law here holds of the executable scanner's output as well.
use vstd::prelude::*;
use crate::lexer::{
    asciiAt, asciiBackslash, asciiBracketLeft, asciiBracketRight, asciiCurlyLeft, asciiCurlyRight, asciiDot,
    asciiNewline, asciiParenLeft, asciiParenRight, asciiQuote, asciiSharp, closerFor, digitRunEnd,
    digitVal, digitsValFrom, groupKind, leafTok, lemma_digitRunEnd, lemma_lineEnd, lemma_scanBounds,
    lemma_strEnd, lemma_wordRunEnd, lineEnd, numScan, scanDone, scanFail, specScan, spec_isDigit,
    spec_isLetter, spec_isWhitespace, spec_isWordChar, strEnd, wordRunEnd, ScanOut,
};
use crate::lexer_types::{LexErrorKind, SpecToken, TokenType};

verus! {

/// A token kind that nests nothing.
pub open spec fn isLeafType(k: TokenType) -> bool {
    !(k == TokenType::paren || k == TokenType::bracket || k == TokenType::curlyBrace)
}

/// What it means for token `c` at position `j` to be nested inside the
/// grouping `g` at position `i`: its own subtree stays inside `g`'s
/// subtree, and its span lies strictly between `g`'s delimiters.
pub open spec fn nestedIn(g: SpecToken, c: SpecToken, i: int, j: int) -> bool {
    &&& j + c.lenTokens <= i + g.lenTokens
    &&& g.start < c.start
    &&& c.start + c.lenChars + 1 <= g.start + g.lenChars
}

/// The flattened-tree property: every token's `lenTokens` counts a
/// well-formed subtree that fits inside the stream, leaves nest nothing,
/// and every token inside a grouping's subtree keeps both its subtree and
/// its span within that grouping.
pub open spec fn flatTreeOk(ts: Seq<SpecToken>) -> bool {
    &&& forall|i: int| 0 <= i < ts.len() ==> i + 1 + (#[trigger] ts[i]).lenTokens <= ts.len()
    &&& forall|i: int|
        0 <= i < ts.len() && isLeafType(ts[i].kind) ==> (#[trigger] ts[i]).lenTokens == 0
    &&& forall|i: int, j: int|
        0 <= i < ts.len() && i < j <= i + ts[i].lenTokens ==> nestedIn(
            #[trigger] ts[i],
            #[trigger] ts[j],
            i,
            j,
        )
}

/// The sentinel kind never appears in a completed, error-free stream.
pub open spec fn noSentinels(ts: Seq<SpecToken>) -> bool {
    forall|i: int| 0 <= i < ts.len() ==> (#[trigger] ts[i]).kind != TokenType::sentinelToken
}

/// Every token's span is non-empty, starts at or after `lo`, and ends at
/// or before `hi`.
pub open spec fn tokensWithin(ts: Seq<SpecToken>, lo: nat, hi: nat) -> bool {
    forall|i: int|
        0 <= i < ts.len() ==> lo <= (#[trigger] ts[i]).start && ts[i].lenChars >= 1 && ts[i].start
            + ts[i].lenChars <= hi
}

/// Start offsets strictly increase along the stream.
pub open spec fn startsIncrease(ts: Seq<SpecToken>) -> bool {
    forall|i: int, j: int|
        0 <= i < j < ts.len() ==> (#[trigger] ts[i]).start < (#[trigger] ts[j]).start
}

/// Every byte of `[lo, hi)` is whitespace.
pub open spec fn allWs(inp: Seq<u8>, lo: nat, hi: nat) -> bool {
    forall|p: int| lo <= p < hi && p < inp.len() ==> spec_isWhitespace(#[trigger] inp[p])
}

/// The span-coverage property of a stream over the byte range `[lo, hi)`:
/// walking the stream sibling by sibling (each sibling owns the
/// `lenTokens` tokens after it), the siblings' spans appear in order,
/// separated only by whitespace, and only whitespace follows the last.
/// Hence concatenating the top-level spans reproduces the source with the
/// whitespace between top-level tokens removed — comments included, since
/// a comment is a token.
pub open spec fn sibSpansOk(inp: Seq<u8>, ts: Seq<SpecToken>, lo: nat, hi: nat) -> bool
    decreases ts.len(),
{
    if ts.len() == 0 {
        allWs(inp, lo, hi)
    } else {
        let t = ts[0];
        &&& lo <= t.start
        &&& allWs(inp, lo, t.start)
        &&& t.start + t.lenChars <= hi
        &&& if 1 + t.lenTokens <= ts.len() {
            sibSpansOk(inp, ts.skip(1 + t.lenTokens as int), (t.start + t.lenChars) as nat, hi)
        } else {
            false
        }
    }
}

/// The byte range a region's tokens may span: a delimited region's closing
/// delimiter belongs to the enclosing group's token, not to any token of
/// the region itself.
pub open spec fn contentEnd(r: ScanOut, closer: Option<u8>) -> nat {
    if closer is Some {
        (r.end - 1) as nat
    } else {
        r.end
    }
}

/// Widening the byte range of a sibling walk to the left over whitespace
/// preserves it.
proof fn lemma_sibSpansWiden(inp: Seq<u8>, ts: Seq<SpecToken>, lo: nat, lo2: nat, hi: nat)
    requires
        lo <= lo2,
        allWs(inp, lo, lo2),
        sibSpansOk(inp, ts, lo2, hi),
        lo2 <= hi,
    ensures
        sibSpansOk(inp, ts, lo, hi),
{
    if ts.len() == 0 {
        assert(allWs(inp, lo, hi));
    } else {
        assert(allWs(inp, lo, ts[0].start));
    }
}

/// All five shape predicates at once, as one conjunction over a region.
pub open spec fn shapeOk(inp: Seq<u8>, ts: Seq<SpecToken>, lo: nat, hi: nat) -> bool {
    &&& tokensWithin(ts, lo, hi)
    &&& startsIncrease(ts)
    &&& noSentinels(ts)
    &&& flatTreeOk(ts)
    &&& sibSpansOk(inp, ts, lo, hi)
}

/// Prepending one leaf token that covers `[cur, e)` to a region shaped
/// over `[e, ce)` shapes the whole over `[cur, ce)`.
#[verifier::rlimit(60)]
proof fn lemma_shapeLeafStep(
    inp: Seq<u8>,
    cur: nat,
    e: nat,
    ce: nat,
    t: SpecToken,
    rest: Seq<SpecToken>,
)
    requires
        t.start == cur,
        cur < e,
        t.lenChars == e - cur,
        t.lenTokens == 0,
        isLeafType(t.kind),
        t.kind != TokenType::sentinelToken,
        e <= ce,
        shapeOk(inp, rest, e, ce),
    ensures
        shapeOk(inp, seq![t] + rest, cur, ce),
{
    let ts = seq![t] + rest;
    let n = rest.len() as int;
    assert(ts.len() == 1 + n);
    assert(ts[0] == t);
    assert forall|i: int| 0 <= i < n implies ts[1 + i] == rest[i] by {}
    assert forall|i: int|
        0 <= i < ts.len() implies cur <= (#[trigger] ts[i]).start && ts[i].lenChars >= 1
        && ts[i].start + ts[i].lenChars <= ce by {
        if i > 0 {
            assert(ts[i] == rest[i - 1]);
        }
    }
    assert forall|i: int, j: int|
        0 <= i < j < ts.len() implies (#[trigger] ts[i]).start < (#[trigger] ts[j]).start by {
        if i > 0 {
            assert(ts[i] == rest[i - 1]);
        }
        assert(ts[j] == rest[j - 1]);
    }
    assert forall|i: int| 0 <= i < ts.len() implies (#[trigger] ts[i]).kind
        != TokenType::sentinelToken by {
        if i > 0 {
            assert(ts[i] == rest[i - 1]);
        }
    }
    assert forall|i: int| 0 <= i < ts.len() implies i + 1 + (#[trigger] ts[i]).lenTokens
        <= ts.len() by {
        if i > 0 {
            assert(ts[i] == rest[i - 1]);
            assert(i - 1 + 1 + rest[i - 1].lenTokens <= n);
        }
    }
    assert forall|i: int| 0 <= i < ts.len() && isLeafType(ts[i].kind) implies (#[trigger] ts[i]).lenTokens
        == 0 by {
        if i > 0 {
            assert(ts[i] == rest[i - 1]);
        }
    }
    assert forall|i: int, j: int|
        0 <= i < ts.len() && i < j <= i + ts[i].lenTokens implies nestedIn(
        #[trigger] ts[i],
        #[trigger] ts[j],
        i,
        j,
    ) by {
        assert(i > 0);
        assert(ts[i] == rest[i - 1]);
        assert(i - 1 + 1 + rest[i - 1].lenTokens <= n);
        assert(ts[j] == rest[j - 1]);
        assert(nestedIn(rest[i - 1], rest[j - 1], i - 1, j - 1));
    }
    assert(ts.skip(1) =~= rest);
    assert(sibSpansOk(inp, ts, cur, ce));
}

/// Prepending a grouping token spanning `[cur, subEnd)` with its nested
/// region (shaped over `(cur, subEnd - 1)`) to a following region shaped
/// over `[subEnd, ce)` shapes the whole over `[cur, ce)`.
#[verifier::rlimit(100)]
proof fn lemma_shapeGroupStep(
    inp: Seq<u8>,
    cur: nat,
    subEnd: nat,
    ce: nat,
    g: SpecToken,
    sub: Seq<SpecToken>,
    rest: Seq<SpecToken>,
)
    requires
        g.start == cur,
        cur + 1 <= subEnd,
        g.lenChars == subEnd - cur,
        g.lenTokens == sub.len(),
        !isLeafType(g.kind),
        g.kind != TokenType::sentinelToken,
        subEnd <= ce,
        subEnd >= 1,
        shapeOk(inp, sub, (cur + 1) as nat, (subEnd - 1) as nat),
        shapeOk(inp, rest, subEnd, ce),
    ensures
        shapeOk(inp, seq![g] + sub + rest, cur, ce),
{
    let ts = seq![g] + sub + rest;
    let m = sub.len() as int;
    let n = rest.len() as int;
    assert(ts.len() == 1 + m + n);
    assert(ts[0] == g);
    assert forall|i: int| 0 <= i < m implies ts[1 + i] == sub[i] by {
        assert((seq![g] + sub)[1 + i] == sub[i]);
    }
    assert forall|i: int| 0 <= i < n implies ts[1 + m + i] == rest[i] by {}
    assert forall|i: int|
        0 <= i < ts.len() implies cur <= (#[trigger] ts[i]).start && ts[i].lenChars >= 1
        && ts[i].start + ts[i].lenChars <= ce by {
        if i == 0 {
        } else if i <= m {
            assert(ts[i] == sub[i - 1]);
        } else {
            assert(ts[i] == rest[i - 1 - m]);
        }
    }
    assert forall|i: int, j: int|
        0 <= i < j < ts.len() implies (#[trigger] ts[i]).start < (#[trigger] ts[j]).start by {
        if i == 0 {
            if j <= m {
                assert(ts[j] == sub[j - 1]);
            } else {
                assert(ts[j] == rest[j - 1 - m]);
            }
        } else if i <= m {
            assert(ts[i] == sub[i - 1]);
            if j <= m {
                assert(ts[j] == sub[j - 1]);
            } else {
                assert(ts[j] == rest[j - 1 - m]);
                assert(ts[i].start + ts[i].lenChars <= subEnd - 1);
            }
        } else {
            assert(ts[i] == rest[i - 1 - m]);
            assert(ts[j] == rest[j - 1 - m]);
        }
    }
    assert forall|i: int| 0 <= i < ts.len() implies (#[trigger] ts[i]).kind
        != TokenType::sentinelToken by {
        if i == 0 {
        } else if i <= m {
            assert(ts[i] == sub[i - 1]);
        } else {
            assert(ts[i] == rest[i - 1 - m]);
        }
    }
    assert forall|i: int| 0 <= i < ts.len() implies i + 1 + (#[trigger] ts[i]).lenTokens
        <= ts.len() by {
        if i == 0 {
        } else if i <= m {
            assert(ts[i] == sub[i - 1]);
            assert(i - 1 + 1 + sub[i - 1].lenTokens <= m);
        } else {
            assert(ts[i] == rest[i - 1 - m]);
            assert(i - 1 - m + 1 + rest[i - 1 - m].lenTokens <= n);
        }
    }
    assert forall|i: int| 0 <= i < ts.len() && isLeafType(ts[i].kind) implies (#[trigger] ts[i]).lenTokens
        == 0 by {
        if i == 0 {
        } else if i <= m {
            assert(ts[i] == sub[i - 1]);
        } else {
            assert(ts[i] == rest[i - 1 - m]);
        }
    }
    assert forall|i: int, j: int|
        0 <= i < ts.len() && i < j <= i + ts[i].lenTokens implies nestedIn(
        #[trigger] ts[i],
        #[trigger] ts[j],
        i,
        j,
    ) by {
        if i == 0 {
            assert(ts[j] == sub[j - 1]);
            assert(j - 1 + 1 + sub[j - 1].lenTokens <= m);
            assert(ts[j].start + ts[j].lenChars <= subEnd - 1);
        } else if i <= m {
            assert(ts[i] == sub[i - 1]);
            assert(i - 1 + 1 + sub[i - 1].lenTokens <= m);
            assert(j <= m);
            assert(ts[j] == sub[j - 1]);
            assert(nestedIn(sub[i - 1], sub[j - 1], i - 1, j - 1));
        } else {
            assert(ts[i] == rest[i - 1 - m]);
            assert(i - 1 - m + 1 + rest[i - 1 - m].lenTokens <= n);
            assert(j > m);
            assert(ts[j] == rest[j - 1 - m]);
            assert(nestedIn(rest[i - 1 - m], rest[j - 1 - m], i - 1 - m, j - 1 - m));
        }
    }
    assert((seq![g] + sub + rest).skip(1 + m) =~= rest);
    assert(sibSpansOk(inp, ts, cur, ce));
}

/// The shape of every successful scan: its tokens lie within the region,
/// spans are non-empty, starts strictly increase, the sentinel kind never
/// appears, the stream is a well-formed flattened tree, and the sibling
/// walk covers the region up to whitespace.
#[verifier::rlimit(100)]
pub proof fn lemma_scanShape(inp: Seq<u8>, cur: nat, closer: Option<u8>)
    requires
        cur <= inp.len(),
    ensures
        ({
            let r = specScan(inp, cur, closer);
            r.err is None ==> {
                &&& (closer is Some ==> cur + 1 <= r.end)
                &&& shapeOk(inp, r.tokens, cur, contentEnd(r, closer))
            }
        }),
    decreases inp.len() - cur,
{
    let r = specScan(inp, cur, closer);
    lemma_scanBounds(inp, cur, closer);
    if r.err is Some {
        return ;
    }
    if cur >= inp.len() {
        return ;
    }
    let b = inp[cur as int];
    if spec_isWhitespace(b) {
        lemma_scanShape(inp, cur + 1, closer);
        let ce = contentEnd(r, closer);
        lemma_scanBounds(inp, cur + 1, closer);
        assert(cur + 1 <= ce);
        lemma_sibSpansWiden(inp, r.tokens, cur, cur + 1, ce);
    } else if b == asciiParenLeft || b == asciiBracketLeft || b
        == asciiCurlyLeft {
        let cb = closerFor(b);
        let sub = specScan(inp, cur + 1, Some(cb));
        lemma_scanBounds(inp, cur + 1, Some(cb));
        lemma_scanShape(inp, cur + 1, Some(cb));
        let rest = specScan(inp, sub.end, closer);
        lemma_scanBounds(inp, sub.end, closer);
        lemma_scanShape(inp, sub.end, closer);
        let g = SpecToken {
            kind: groupKind(b),
            payload: 0,
            start: cur,
            lenChars: (sub.end - cur) as nat,
            lenTokens: sub.tokens.len(),
        };
        assert(r.tokens == seq![g] + sub.tokens + rest.tokens);
        let ce = contentEnd(r, closer);
        assert(sub.end <= ce);
        lemma_shapeGroupStep(inp, cur, sub.end, ce, g, sub.tokens, rest.tokens);
    } else if b == asciiParenRight || b == asciiBracketRight || b
        == asciiCurlyRight {
        // A matching closer ends the region with no further tokens.
        assert(r.tokens =~= Seq::<SpecToken>::empty());
        assert(contentEnd(r, closer) == cur);
        assert(sibSpansOk(inp, r.tokens, cur, contentEnd(r, closer)));
    } else {
        // Every remaining successful branch emits one leaf token covering
        // [cur, e) and continues at e.
        let e = specStepEnd(inp, cur);
        let t = r.tokens[0];
        assert(r.tokens == seq![t] + specScan(inp, e, closer).tokens && t.start == cur
            && t.lenChars == e - cur && t.lenTokens == 0 && isLeafType(t.kind) && t.kind
            != TokenType::sentinelToken && cur < e <= inp.len());
        let rest = specScan(inp, e, closer);
        lemma_scanBounds(inp, e, closer);
        lemma_scanShape(inp, e, closer);
        let ce = contentEnd(r, closer);
        assert(e <= ce);
        lemma_shapeLeafStep(inp, cur, e, ce, t, rest.tokens);
    }
}

/// The end of the single leaf token a non-group, non-whitespace dispatch
/// step emits at `cur`, when it succeeds.
pub open spec fn specStepEnd(inp: Seq<u8>, cur: nat) -> nat {
    let b = inp[cur as int];
    if spec_isLetter(b) {
        wordRunEnd(inp, cur + 1)
    } else if b == asciiDot || b == asciiAt {
        wordRunEnd(inp, cur + 2)
    } else if spec_isDigit(b) {
        numScan(inp, cur).end
    } else if b == asciiQuote {
        strEnd(inp, cur + 1)->Some_0
    } else {
        lineEnd(inp, cur + 1)
    }
}

// -------------------------- Idempotence: re-lexing a token's span
//
// The scan is context-free at token boundaries: cutting the byte range of
// any emitted token out of the input and lexing it in isolation yields the
// same token (moved to offset zero) as the single top-level token.  The
// lemmas below relate a scan to the scan of a window of the input.

/// `t` moved left by `d` bytes.
pub open spec fn shiftTok(t: SpecToken, d: nat) -> SpecToken {
    SpecToken {
        kind: t.kind,
        payload: t.payload,
        start: (t.start - d) as nat,
        lenChars: t.lenChars,
        lenTokens: t.lenTokens,
    }
}

/// Re-lexing the bytes a token spans, in isolation, succeeds and yields
/// that token itself (at offset zero) as the one top-level token, its
/// subtree making up the rest of the stream.
pub open spec fn relexOk(inp: Seq<u8>, t: SpecToken) -> bool {
    let w = inp.subrange(t.start as int, (t.start + t.lenChars) as int);
    let r2 = specScan(w, 0, None);
    &&& r2.err is None
    &&& r2.tokens.len() == 1 + t.lenTokens
    &&& r2.tokens[0] == shiftTok(t, t.start)
}

proof fn lemma_wordRunShift(inp: Seq<u8>, a: nat, b: nat, i: nat)
    requires
        a <= i <= b <= inp.len(),
        wordRunEnd(inp, i) <= b,
    ensures
        wordRunEnd(inp.subrange(a as int, b as int), (i - a) as nat)
            == wordRunEnd(inp, i) - a,
    decreases inp.len() - i,
{
    lemma_wordRunEnd(inp, i);
    let w = inp.subrange(a as int, b as int);
    if i < inp.len() && spec_isWordChar(inp[i as int]) {
        lemma_wordRunEnd(inp, i + 1);
        assert(i < b);
        assert(w[(i - a) as int] == inp[i as int]);
        lemma_wordRunShift(inp, a, b, i + 1);
    } else {
        if i < b {
            assert(w[(i - a) as int] == inp[i as int]);
        }
    }
}

proof fn lemma_digitRunShift(inp: Seq<u8>, a: nat, b: nat, i: nat)
    requires
        a <= i <= b <= inp.len(),
        digitRunEnd(inp, i) <= b,
    ensures
        digitRunEnd(inp.subrange(a as int, b as int), (i - a) as nat)
            == digitRunEnd(inp, i) - a,
    decreases inp.len() - i,
{
    lemma_digitRunEnd(inp, i);
    let w = inp.subrange(a as int, b as int);
    if i < inp.len() && spec_isDigit(inp[i as int]) {
        lemma_digitRunEnd(inp, i + 1);
        assert(i < b);
        assert(w[(i - a) as int] == inp[i as int]);
        lemma_digitRunShift(inp, a, b, i + 1);
    } else {
        if i < b {
            assert(w[(i - a) as int] == inp[i as int]);
        }
    }
}

proof fn lemma_lineShift(inp: Seq<u8>, a: nat, b: nat, i: nat)
    requires
        a <= i <= b <= inp.len(),
        lineEnd(inp, i) <= b,
    ensures
        lineEnd(inp.subrange(a as int, b as int), (i - a) as nat)
            == lineEnd(inp, i) - a,
    decreases inp.len() - i,
{
    lemma_lineEnd(inp, i);
    let w = inp.subrange(a as int, b as int);
    if i < inp.len() && inp[i as int] != asciiNewline {
        lemma_lineEnd(inp, i + 1);
        assert(i < b);
        assert(w[(i - a) as int] == inp[i as int]);
        lemma_lineShift(inp, a, b, i + 1);
    } else {
        if i < b {
            assert(w[(i - a) as int] == inp[i as int]);
        }
    }
}

proof fn lemma_strEndShift(inp: Seq<u8>, a: nat, b: nat, i: nat)
    requires
        a <= i <= b <= inp.len(),
        strEnd(inp, i) matches Some(e) && e <= b,
    ensures
        strEnd(inp.subrange(a as int, b as int), (i - a) as nat) == Some(
            (strEnd(inp, i)->Some_0 - a) as nat,
        ),
    decreases inp.len() - i,
{
    lemma_strEnd(inp, i);
    let w = inp.subrange(a as int, b as int);
    let e = strEnd(inp, i)->Some_0;
    assert(i < b);
    assert(w[(i - a) as int] == inp[i as int]);
    if inp[i as int] == asciiQuote {
    } else if inp[i as int] == asciiBackslash {
        lemma_strEnd(inp, i + 2);
        assert(i + 1 < b);
        lemma_strEndShift(inp, a, b, i + 2);
    } else {
        lemma_strEndShift(inp, a, b, i + 1);
    }
}

proof fn lemma_digitsValShift(inp: Seq<u8>, a: nat, b: nat, s: nat, e: nat, acc: nat)
    requires
        a <= s,
        s <= e <= b <= inp.len(),
    ensures
        digitsValFrom(
            inp.subrange(a as int, b as int),
            (s - a) as nat,
            (e - a) as nat,
            acc,
        ) == digitsValFrom(inp, s, e, acc),
    decreases e - s,
{
    let w = inp.subrange(a as int, b as int);
    if s < e {
        assert(w[(s - a) as int] == inp[s as int]);
        lemma_digitsValShift(inp, a, b, s + 1, e, acc * 10 + digitVal(inp[s as int]));
    }
}

/// Prepending matching heads to two pointwise-shifted streams keeps them
/// pointwise shifted.
proof fn lemma_shiftPrepend(
    a: nat,
    t: SpecToken,
    ts: Seq<SpecToken>,
    ts2: Seq<SpecToken>,
    rest: Seq<SpecToken>,
    rest2: Seq<SpecToken>,
)
    requires
        ts == seq![t] + rest,
        ts2 == seq![shiftTok(t, a)] + rest2,
        rest.len() == rest2.len(),
        forall|i: int| 0 <= i < rest.len() ==> #[trigger] rest2[i] == shiftTok(rest[i], a),
    ensures
        ts.len() == ts2.len(),
        forall|i: int| 0 <= i < ts.len() ==> #[trigger] ts2[i] == shiftTok(ts[i], a),
{
    assert forall|i: int| 0 <= i < ts.len() implies #[trigger] ts2[i] == shiftTok(ts[i], a) by {
        if i > 0 {
            assert(ts[i] == rest[i - 1]);
            assert(ts2[i] == rest2[i - 1]);
        }
    }
}

/// As `lemma_shiftPrepend`, for a grouping head followed by its nested
/// region and the rest.
proof fn lemma_shiftGroup(
    a: nat,
    g: SpecToken,
    ts: Seq<SpecToken>,
    ts2: Seq<SpecToken>,
    sub: Seq<SpecToken>,
    sub2: Seq<SpecToken>,
    rest: Seq<SpecToken>,
    rest2: Seq<SpecToken>,
)
    requires
        ts == seq![g] + sub + rest,
        ts2 == seq![shiftTok(g, a)] + sub2 + rest2,
        sub.len() == sub2.len(),
        rest.len() == rest2.len(),
        forall|i: int| 0 <= i < sub.len() ==> #[trigger] sub2[i] == shiftTok(sub[i], a),
        forall|i: int| 0 <= i < rest.len() ==> #[trigger] rest2[i] == shiftTok(rest[i], a),
    ensures
        ts.len() == ts2.len(),
        forall|i: int| 0 <= i < ts.len() ==> #[trigger] ts2[i] == shiftTok(ts[i], a),
{
    let m = sub.len() as int;
    assert forall|i: int| 0 <= i < ts.len() implies #[trigger] ts2[i] == shiftTok(ts[i], a) by {
        if i == 0 {
            assert(ts[0] == g);
            assert(ts2[0] == shiftTok(g, a));
        } else if i <= m {
            assert(ts[i] == sub[i - 1]);
            assert(ts2[i] == sub2[i - 1]);
        } else {
            assert(ts[i] == rest[i - 1 - m]);
            assert(ts2[i] == rest2[i - 1 - m]);
        }
    }
}

/// A successfully scanned delimited region depends only on the bytes it
/// spans: scanning it inside any window that contains it gives the same
/// tokens, moved left by the window's offset.
/// `lemma_scanShift`, for a cursor standing on a byte that starts a leaf
/// token (or fails): anything but whitespace and delimiters.
#[verifier::rlimit(100)]
proof fn lemma_scanShiftLeaf(inp: Seq<u8>, a: nat, b: nat, cur: nat, cb: u8)
    requires
        a <= cur <= b <= inp.len(),
        specScan(inp, cur, Some(cb)).err is None,
        specScan(inp, cur, Some(cb)).end <= b,
        cur < inp.len(),
        !spec_isWhitespace(inp[cur as int]),
        inp[cur as int] != asciiParenLeft,
        inp[cur as int] != asciiBracketLeft,
        inp[cur as int] != asciiCurlyLeft,
        inp[cur as int] != asciiParenRight,
        inp[cur as int] != asciiBracketRight,
        inp[cur as int] != asciiCurlyRight,
    ensures
        ({
            let r = specScan(inp, cur, Some(cb));
            let r2 = specScan(inp.subrange(a as int, b as int), (cur - a) as nat, Some(cb));
            &&& r2.err is None
            &&& r2.end == r.end - a
            &&& r2.tokens.len() == r.tokens.len()
            &&& forall|i: int|
                0 <= i < r.tokens.len() ==> #[trigger] r2.tokens[i] == shiftTok(r.tokens[i], a)
        }),
    decreases inp.len() - cur, 0int,
{
    let r = specScan(inp, cur, Some(cb));
    let w = inp.subrange(a as int, b as int);
    let c2 = (cur - a) as nat;
    lemma_scanBounds(inp, cur, Some(cb));
    assert(cur < b);
    assert(cur < inp.len());
    let bb = inp[cur as int];
    assert(w[c2 as int] == bb);
    assert(c2 < w.len());
    if spec_isLetter(bb) {

        let e = wordRunEnd(inp, cur + 1);
        lemma_scanBounds(inp, e, Some(cb));
        lemma_wordRunShift(inp, a, b, cur + 1);
        lemma_scanShift(inp, a, b, e, cb);
        let t = leafTok(TokenType::word, 0, cur, e);
        let rest2 = specScan(w, (e - a) as nat, Some(cb));
        assert(shiftTok(t, a) == leafTok(TokenType::word, 0, c2, (e - a) as nat));
        lemma_shiftPrepend(
            a,
            t,
            r.tokens,
            specScan(w, c2, Some(cb)).tokens,
            specScan(inp, e, Some(cb)).tokens,
            rest2.tokens,
        );
    } else if bb == asciiDot && cur + 1 < inp.len() && spec_isLetter(
        inp[cur as int + 1],
    ) {
        let e = wordRunEnd(inp, cur + 2);
        lemma_scanBounds(inp, e, Some(cb));
        assert(cur + 1 < b);
        assert(w[c2 as int + 1] == inp[cur as int + 1]);
        lemma_wordRunShift(inp, a, b, cur + 2);
        lemma_scanShift(inp, a, b, e, cb);
        let t = leafTok(TokenType::dotWord, 0, cur, e);
        let rest2 = specScan(w, (e - a) as nat, Some(cb));
        assert(shiftTok(t, a) == leafTok(TokenType::dotWord, 0, c2, (e - a) as nat));
        lemma_shiftPrepend(
            a,
            t,
            r.tokens,
            specScan(w, c2, Some(cb)).tokens,
            specScan(inp, e, Some(cb)).tokens,
            rest2.tokens,
        );
    } else if bb == asciiAt && cur + 1 < inp.len() && spec_isLetter(
        inp[cur as int + 1],
    ) {
        let e = wordRunEnd(inp, cur + 2);
        lemma_scanBounds(inp, e, Some(cb));
        assert(cur + 1 < b);
        assert(w[c2 as int + 1] == inp[cur as int + 1]);
        lemma_wordRunShift(inp, a, b, cur + 2);
        lemma_scanShift(inp, a, b, e, cb);
        let t = leafTok(TokenType::atWord, 0, cur, e);
        let rest2 = specScan(w, (e - a) as nat, Some(cb));
        assert(shiftTok(t, a) == leafTok(TokenType::atWord, 0, c2, (e - a) as nat));
        lemma_shiftPrepend(
            a,
            t,
            r.tokens,
            specScan(w, c2, Some(cb)).tokens,
            specScan(inp, e, Some(cb)).tokens,
            rest2.tokens,
        );
    } else if spec_isDigit(bb) {
        let ns = numScan(inp, cur);
        lemma_scanBounds(inp, ns.end, Some(cb));
        lemma_numScanShift(inp, a, b, cur);
        lemma_scanShift(inp, a, b, ns.end, cb);
        let rest2 = specScan(w, (ns.end - a) as nat, Some(cb));
        lemma_shiftPrepend(
            a,
            ns.tok,
            r.tokens,
            specScan(w, c2, Some(cb)).tokens,
            specScan(inp, ns.end, Some(cb)).tokens,
            rest2.tokens,
        );
    } else if bb == asciiQuote {
        let e = strEnd(inp, cur + 1)->Some_0;
        lemma_strEnd(inp, cur + 1);
        lemma_scanBounds(inp, e, Some(cb));
        lemma_strEndShift(inp, a, b, cur + 1);
        lemma_scanShift(inp, a, b, e, cb);
        let t = leafTok(TokenType::litString, 0, cur, e);
        let rest2 = specScan(w, (e - a) as nat, Some(cb));
        assert(shiftTok(t, a) == leafTok(
            TokenType::litString,
            0,
            c2,
            (e - a) as nat,
        ));
        lemma_shiftPrepend(
            a,
            t,
            r.tokens,
            specScan(w, c2, Some(cb)).tokens,
            specScan(inp, e, Some(cb)).tokens,
            rest2.tokens,
        );
    } else if bb == asciiSharp {
        let e = lineEnd(inp, cur + 1);
        lemma_scanBounds(inp, e, Some(cb));
        lemma_lineShift(inp, a, b, cur + 1);
        lemma_scanShift(inp, a, b, e, cb);
        let t = leafTok(TokenType::comment, 0, cur, e);
        let rest2 = specScan(w, (e - a) as nat, Some(cb));
        assert(shiftTok(t, a) == leafTok(TokenType::comment, 0, c2, (e - a) as nat));
        lemma_shiftPrepend(
            a,
            t,
            r.tokens,
            specScan(w, c2, Some(cb)).tokens,
            specScan(inp, e, Some(cb)).tokens,
            rest2.tokens,
        );
    } else {
        assert(specScan(inp, cur, Some(cb)) == scanFail(
            LexErrorKind::UnexpectedByte,
            cur,
        ));
        assert(false);
    }
}

/// A successfully scanned delimited region depends only on the bytes it
/// spans: scanning it inside any window that contains it gives the same
/// tokens, moved left by the window's offset.
#[verifier::rlimit(100)]
proof fn lemma_scanShift(inp: Seq<u8>, a: nat, b: nat, cur: nat, cb: u8)
    requires
        a <= cur <= b <= inp.len(),
        specScan(inp, cur, Some(cb)).err is None,
        specScan(inp, cur, Some(cb)).end <= b,
    ensures
        ({
            let r = specScan(inp, cur, Some(cb));
            let r2 = specScan(inp.subrange(a as int, b as int), (cur - a) as nat, Some(cb));
            &&& r2.err is None
            &&& r2.end == r.end - a
            &&& r2.tokens.len() == r.tokens.len()
            &&& forall|i: int|
                0 <= i < r.tokens.len() ==> #[trigger] r2.tokens[i] == shiftTok(r.tokens[i], a)
        }),
    decreases inp.len() - cur, 1int,
{
    let r = specScan(inp, cur, Some(cb));
    let w = inp.subrange(a as int, b as int);
    let c2 = (cur - a) as nat;
    lemma_scanBounds(inp, cur, Some(cb));
    assert(cur < b);
    assert(cur < inp.len());
    let bb = inp[cur as int];
    assert(w[c2 as int] == bb);
    assert(c2 < w.len());
    if spec_isWhitespace(bb) {
        lemma_scanShift(inp, a, b, cur + 1, cb);
    } else if bb == asciiParenLeft || bb == asciiBracketLeft || bb
        == asciiCurlyLeft {
        let icb = closerFor(bb);
        let sub = specScan(inp, cur + 1, Some(icb));
        lemma_scanBounds(inp, cur + 1, Some(icb));
        let rest = specScan(inp, sub.end, Some(cb));
        lemma_scanBounds(inp, sub.end, Some(cb));
        lemma_scanShift(inp, a, b, cur + 1, icb);
        lemma_scanShift(inp, a, b, sub.end, cb);
        let sub2 = specScan(w, c2 + 1, Some(icb));
        let rest2 = specScan(w, (sub.end - a) as nat, Some(cb));
        let g = SpecToken {
            kind: groupKind(bb),
            payload: 0,
            start: cur,
            lenChars: (sub.end - cur) as nat,
            lenTokens: sub.tokens.len(),
        };
        assert(r.tokens == seq![g] + sub.tokens + rest.tokens);
        assert(specScan(w, c2, Some(cb)).tokens == seq![shiftTok(g, a)] + sub2.tokens
            + rest2.tokens);
        lemma_shiftGroup(
            a,
            g,
            r.tokens,
            specScan(w, c2, Some(cb)).tokens,
            sub.tokens,
            sub2.tokens,
            rest.tokens,
            rest2.tokens,
        );
    } else if bb == asciiParenRight || bb == asciiBracketRight || bb
        == asciiCurlyRight {
        assert(bb == cb);
        assert(specScan(w, c2, Some(cb)) == scanDone(c2 + 1));
    } else {
        lemma_scanShiftLeaf(inp, a, b, cur, cb);
    }
}

/// A number literal depends only on the bytes it spans and those directly
/// after it; inside a window that ends where the literal ends, it scans to
/// the same token, moved left.
proof fn lemma_numScanShift(inp: Seq<u8>, a: nat, b: nat, cur: nat)
    requires
        a <= cur < b <= inp.len(),
        spec_isDigit(inp[cur as int]),
        numScan(inp, cur).ok,
        numScan(inp, cur).end <= b,
    ensures
        ({
            let ns = numScan(inp, cur);
            let ns2 = numScan(inp.subrange(a as int, b as int), (cur - a) as nat);
            &&& ns2.ok
            &&& ns2.end == ns.end - a
            &&& ns2.tok == shiftTok(ns.tok, a)
        }),
{
    let w = inp.subrange(a as int, b as int);
    let c2 = (cur - a) as nat;
    let ie = digitRunEnd(inp, cur + 1);
    lemma_digitRunEnd(inp, cur + 1);
    let ns = numScan(inp, cur);
    if ie < inp.len() && inp[ie as int] == asciiDot && ie + 1 < inp.len()
        && spec_isDigit(inp[ie as int + 1]) {
        // float: the span runs to the end of the fractional digits
        let fe = digitRunEnd(inp, ie + 2);
        lemma_digitRunEnd(inp, ie + 2);
        assert(ns.end == fe);
        lemma_digitRunShift(inp, a, b, cur + 1);
        assert(ie < b);
        assert(w[(ie - a) as int] == inp[ie as int]);
        assert(ie + 1 < b);
        assert(w[(ie - a) as int + 1] == inp[ie as int + 1]);
        lemma_digitRunShift(inp, a, b, ie + 2);
        lemma_digitsValShift(inp, a, b, cur, ie, 0);
        lemma_digitsValShift(inp, a, b, ie + 1, fe, digitsValFrom(inp, cur, ie, 0));
    } else {
        // integer: the digit run ends at or before the window's end
        assert(ns.end == ie);
        lemma_digitRunShift(inp, a, b, cur + 1);
        lemma_digitsValShift(inp, a, b, cur, ie, 0);
        if ie - a < w.len() {
            assert(w[(ie - a) as int] == inp[ie as int]);
        }
    }
}

/// A head token that re-lexes, in front of a stream whose members all
/// re-lex, gives a stream whose members all re-lex.
proof fn lemma_relexPrepend(inp: Seq<u8>, t: SpecToken, ts: Seq<SpecToken>, rest: Seq<SpecToken>)
    requires
        ts == seq![t] + rest,
        relexOk(inp, t),
        forall|i: int| 0 <= i < rest.len() ==> relexOk(inp, #[trigger] rest[i]),
    ensures
        forall|i: int| 0 <= i < ts.len() ==> relexOk(inp, #[trigger] ts[i]),
{
    assert forall|i: int| 0 <= i < ts.len() implies relexOk(inp, #[trigger] ts[i]) by {
        if i > 0 {
            assert(ts[i] == rest[i - 1]);
        }
    }
}

/// As `lemma_relexPrepend`, for a grouping head, its nested region and the
/// rest.
proof fn lemma_relexGroup(
    inp: Seq<u8>,
    g: SpecToken,
    ts: Seq<SpecToken>,
    sub: Seq<SpecToken>,
    rest: Seq<SpecToken>,
)
    requires
        ts == seq![g] + sub + rest,
        relexOk(inp, g),
        forall|i: int| 0 <= i < sub.len() ==> relexOk(inp, #[trigger] sub[i]),
        forall|i: int| 0 <= i < rest.len() ==> relexOk(inp, #[trigger] rest[i]),
    ensures
        forall|i: int| 0 <= i < ts.len() ==> relexOk(inp, #[trigger] ts[i]),
{
    let m = sub.len() as int;
    assert forall|i: int| 0 <= i < ts.len() implies relexOk(inp, #[trigger] ts[i]) by {
        if i == 0 {
            assert(ts[0] == g);
        } else if i <= m {
            assert(ts[i] == sub[i - 1]);
        } else {
            assert(ts[i] == rest[i - 1 - m]);
        }
    }
}

/// `lemma_scanRelex`, for a cursor standing on a byte that starts a leaf
/// token.
#[verifier::rlimit(100)]
proof fn lemma_scanRelexLeaf(inp: Seq<u8>, cur: nat, closer: Option<u8>)
    requires
        cur < inp.len(),
        specScan(inp, cur, closer).err is None,
        !spec_isWhitespace(inp[cur as int]),
        inp[cur as int] != asciiParenLeft,
        inp[cur as int] != asciiBracketLeft,
        inp[cur as int] != asciiCurlyLeft,
        inp[cur as int] != asciiParenRight,
        inp[cur as int] != asciiBracketRight,
        inp[cur as int] != asciiCurlyRight,
    ensures
        ({
            let r = specScan(inp, cur, closer);
            forall|i: int| 0 <= i < r.tokens.len() ==> relexOk(inp, #[trigger] r.tokens[i])
        }),
    decreases inp.len() - cur, 0int,
{
    let r = specScan(inp, cur, closer);
    let bb = inp[cur as int];
    lemma_scanBounds(inp, cur, closer);
    if spec_isLetter(bb) {
        let e = wordRunEnd(inp, cur + 1);
        lemma_wordRunEnd(inp, cur + 1);
        let t = leafTok(TokenType::word, 0, cur, e);
        let w = inp.subrange(cur as int, e as int);
        assert(w[0] == bb);
        lemma_wordRunShift(inp, cur, e, cur + 1);
        assert(wordRunEnd(w, 1) == e - cur);
        assert(specScan(w, (e - cur) as nat, None) == scanDone((e - cur) as nat));
        assert(specScan(w, 0, None).tokens =~= seq![shiftTok(t, cur)]);
        assert(relexOk(inp, t));
        lemma_scanRelex(inp, e, closer);
        lemma_relexPrepend(inp, t, r.tokens, specScan(inp, e, closer).tokens);
    } else if bb == asciiDot && cur + 1 < inp.len() && spec_isLetter(
        inp[cur as int + 1],
    ) {
        let e = wordRunEnd(inp, cur + 2);
        lemma_wordRunEnd(inp, cur + 2);
        let t = leafTok(TokenType::dotWord, 0, cur, e);
        let w = inp.subrange(cur as int, e as int);
        assert(w[0] == bb);
        assert(w[1] == inp[cur as int + 1]);
        lemma_wordRunShift(inp, cur, e, cur + 2);
        assert(wordRunEnd(w, 2) == e - cur);
        assert(specScan(w, (e - cur) as nat, None) == scanDone((e - cur) as nat));
        assert(specScan(w, 0, None).tokens =~= seq![shiftTok(t, cur)]);
        assert(relexOk(inp, t));
        lemma_scanRelex(inp, e, closer);
        lemma_relexPrepend(inp, t, r.tokens, specScan(inp, e, closer).tokens);
    } else if bb == asciiAt && cur + 1 < inp.len() && spec_isLetter(
        inp[cur as int + 1],
    ) {
        let e = wordRunEnd(inp, cur + 2);
        lemma_wordRunEnd(inp, cur + 2);
        let t = leafTok(TokenType::atWord, 0, cur, e);
        let w = inp.subrange(cur as int, e as int);
        assert(w[0] == bb);
        assert(w[1] == inp[cur as int + 1]);
        lemma_wordRunShift(inp, cur, e, cur + 2);
        assert(wordRunEnd(w, 2) == e - cur);
        assert(specScan(w, (e - cur) as nat, None) == scanDone((e - cur) as nat));
        assert(specScan(w, 0, None).tokens =~= seq![shiftTok(t, cur)]);
        assert(relexOk(inp, t));
        lemma_scanRelex(inp, e, closer);
        lemma_relexPrepend(inp, t, r.tokens, specScan(inp, e, closer).tokens);
    } else if spec_isDigit(bb) {
        let ns = numScan(inp, cur);
        assert(ns.ok && cur < ns.end <= inp.len());
        let e = ns.end;
        let w = inp.subrange(cur as int, e as int);
        assert(w[0] == bb);
        lemma_numScanShift(inp, cur, e, cur);
        let ns2 = numScan(w, 0);
        assert(ns2.ok && ns2.end == e - cur && ns2.tok == shiftTok(ns.tok, cur));
        assert(specScan(w, (e - cur) as nat, None) == scanDone((e - cur) as nat));
        assert(specScan(w, 0, None).tokens =~= seq![shiftTok(ns.tok, cur)]);
        assert(relexOk(inp, ns.tok));
        lemma_scanRelex(inp, e, closer);
        lemma_relexPrepend(inp, ns.tok, r.tokens, specScan(inp, e, closer).tokens);
    } else if bb == asciiQuote {
        let e = strEnd(inp, cur + 1)->Some_0;
        lemma_strEnd(inp, cur + 1);
        let t = leafTok(TokenType::litString, 0, cur, e);
        let w = inp.subrange(cur as int, e as int);
        assert(w[0] == bb);
        lemma_strEndShift(inp, cur, e, cur + 1);
        assert(strEnd(w, 1) == Some((e - cur) as nat));
        assert(specScan(w, (e - cur) as nat, None) == scanDone((e - cur) as nat));
        assert(specScan(w, 0, None).tokens =~= seq![shiftTok(t, cur)]);
        assert(relexOk(inp, t));
        lemma_scanRelex(inp, e, closer);
        lemma_relexPrepend(inp, t, r.tokens, specScan(inp, e, closer).tokens);
    } else if bb == asciiSharp {
        let e = lineEnd(inp, cur + 1);
        lemma_lineEnd(inp, cur + 1);
        let t = leafTok(TokenType::comment, 0, cur, e);
        let w = inp.subrange(cur as int, e as int);
        assert(w[0] == bb);
        lemma_lineShift(inp, cur, e, cur + 1);
        assert(lineEnd(w, 1) == e - cur);
        assert(specScan(w, (e - cur) as nat, None) == scanDone((e - cur) as nat));
        assert(specScan(w, 0, None).tokens =~= seq![shiftTok(t, cur)]);
        assert(relexOk(inp, t));
        lemma_scanRelex(inp, e, closer);
        lemma_relexPrepend(inp, t, r.tokens, specScan(inp, e, closer).tokens);
    } else {
        assert(false);
    }
}

/// Idempotence: every token a successful scan emits, leaf or grouping, at
/// any nesting depth, re-lexes in isolation to itself.
#[verifier::rlimit(100)]
pub proof fn lemma_scanRelex(inp: Seq<u8>, cur: nat, closer: Option<u8>)
    requires
        cur <= inp.len(),
    ensures
        ({
            let r = specScan(inp, cur, closer);
            r.err is None ==> forall|i: int|
                0 <= i < r.tokens.len() ==> relexOk(inp, #[trigger] r.tokens[i])
        }),
    decreases inp.len() - cur, 1int,
{
    let r = specScan(inp, cur, closer);
    if r.err is Some {
        return ;
    }
    if cur >= inp.len() {
        return ;
    }
    let bb = inp[cur as int];
    lemma_scanBounds(inp, cur, closer);
    if spec_isWhitespace(bb) {
        lemma_scanRelex(inp, cur + 1, closer);
    } else if bb == asciiParenLeft || bb == asciiBracketLeft || bb
        == asciiCurlyLeft {
        let icb = closerFor(bb);
        let sub = specScan(inp, cur + 1, Some(icb));
        lemma_scanBounds(inp, cur + 1, Some(icb));
        let rest = specScan(inp, sub.end, closer);
        lemma_scanBounds(inp, sub.end, closer);
        let g = SpecToken {
            kind: groupKind(bb),
            payload: 0,
            start: cur,
            lenChars: (sub.end - cur) as nat,
            lenTokens: sub.tokens.len(),
        };
        assert(r.tokens == seq![g] + sub.tokens + rest.tokens);
        let w = inp.subrange(cur as int, sub.end as int);
        assert(w[0] == bb);
        lemma_scanShift(inp, cur, sub.end, cur + 1, icb);
        let sub2 = specScan(w, 1, Some(icb));
        assert(sub2.err is None && sub2.end == w.len());
        assert(specScan(w, w.len() as nat, None) == scanDone(w.len() as nat));
        assert(specScan(w, 0, None).tokens == seq![shiftTok(g, cur)] + sub2.tokens);
        assert(relexOk(inp, g));
        lemma_scanRelex(inp, cur + 1, Some(icb));
        lemma_scanRelex(inp, sub.end, closer);
        lemma_relexGroup(inp, g, r.tokens, sub.tokens, rest.tokens);
    } else if bb == asciiParenRight || bb == asciiBracketRight || bb
        == asciiCurlyRight {
        assert(r.tokens =~= Seq::<SpecToken>::empty());
    } else {
        lemma_scanRelexLeaf(inp, cur, closer);
    }
}

/// Idempotence law: re-lexing the byte range covered by any single emitted
/// token, in isolation, succeeds and yields that token itself — same kind,
/// payload, span width and subtree size — as the one top-level token of
/// the result.  The scan's classification is context-free at token
/// boundaries.
pub proof fn lemma_idempotence(inp: Seq<u8>)
    ensures
        ({
            let r = specScan(inp, 0, None);
            r.err is None ==> forall|i: int|
                0 <= i < r.tokens.len() ==> relexOk(inp, #[trigger] r.tokens[i])
        }),
{
    lemma_scanRelex(inp, 0, None);
}

/// Flattened-tree law: a successful scan yields a stream in which every
/// grouping token at position `i` with `lenTokens == k` is followed by
/// exactly its `k` nested tokens, each keeping its own subtree and span
/// inside the group; leaves nest nothing; start offsets strictly increase;
/// and the sentinel kind never appears.
pub proof fn lemma_flattenedTree(inp: Seq<u8>)
    ensures
        ({
            let r = specScan(inp, 0, None);
            r.err is None ==> {
                &&& flatTreeOk(r.tokens)
                &&& noSentinels(r.tokens)
                &&& startsIncrease(r.tokens)
                &&& tokensWithin(r.tokens, 0, inp.len())
            }
        }),
{
    lemma_scanShape(inp, 0, None);
    lemma_scanBounds(inp, 0, None);
}

/// Span-coverage law: after a successful scan, walking the stream sibling
/// by sibling covers the whole input in source order, the gaps between
/// consecutive top-level spans (and before the first and after the last)
/// being whitespace only.  Comments are covered, as tokens.
pub proof fn lemma_spanCoverage(inp: Seq<u8>)
    ensures
        ({
            let r = specScan(inp, 0, None);
            r.err is None ==> sibSpansOk(inp, r.tokens, 0, inp.len())
        }),
{
    lemma_scanShape(inp, 0, None);
    lemma_scanBounds(inp, 0, None);
}

} // verus!
