//! Token records, the chunked token arena, and the lexing result that owns it.
use vstd::prelude::*;
use vstd::string::StringExecFns;
use vstd::arithmetic::div_mod::{lemma_fundamental_div_mod, lemma_mod_pos_bound};

verus! {

/// Number of token records held by one slab of the arena.
pub const CHUNK_SZ: usize = 10000;

/// The closed set of token kinds.  `sentinelToken` is a placeholder for a
/// not-yet-valid record; it is never observable in a completed, error-free
/// result (proved in `laws`).
#[derive(Clone, Copy, PartialEq, Eq, Structural, Debug)]
pub enum TokenType {
    word,
    dotWord,
    atWord,
    litInt,
    litFloat,
    litString,
    paren,
    curlyBrace,
    bracket,
    comment,
    sentinelToken,
}

/// A fixed-size token record.
///
/// `payload` is type-dependent: the decoded value for `litInt`; for
/// `litFloat` the high 32 bits hold the literal's digits read as one decimal
/// integer (the decimal point removed) and the low 32 bits hold the number of
/// digits after the point; zero for every other kind.  `startChar` and
/// `lenChars` give the token's span of source bytes (for groupings including
/// both delimiters and all nested content).  `lenTokens` counts the tokens
/// immediately and transitively nested inside this one; it is zero for every
/// leaf kind.
#[derive(Clone, Copy, PartialEq, Eq, Structural, Debug)]
pub struct Token {
    pub tType: TokenType,
    pub payload: u64,
    pub startChar: u32,
    pub lenChars: u32,
    pub lenTokens: u32,
}

/// The mathematical image of a token record: the same fields over unbounded
/// integers.  Contracts and laws speak of these.
pub ghost struct SpecToken {
    pub kind: TokenType,
    pub payload: nat,
    pub start: nat,
    pub lenChars: nat,
    pub lenTokens: nat,
}

impl View for Token {
    type V = SpecToken;

    open spec fn view(&self) -> SpecToken {
        SpecToken {
            kind: self.tType,
            payload: self.payload as nat,
            start: self.startChar as nat,
            lenChars: self.lenChars as nat,
            lenTokens: self.lenTokens as nat,
        }
    }
}

impl Default for Token {
    /// The sentinel record that fills a slot before a real token is written.
    fn default() -> (t: Token)
        ensures
            t.tType == TokenType::sentinelToken,
            t.payload == 0,
            t.startChar == 0,
            t.lenChars == 0,
            t.lenTokens == 0,
    {
        Token { tType: TokenType::sentinelToken, payload: 0, startChar: 0, lenChars: 0, lenTokens: 0 }
    }
}

/// The reasons a scan can fail.  Every failure is fatal to the scan.
#[derive(Clone, Copy, PartialEq, Eq, Structural, Debug)]
pub enum LexErrorKind {
    UnterminatedString,
    UnterminatedGroup,
    UnmatchedCloser,
    InvalidNumberLiteral,
    UnexpectedByte,
}

/// The diagnostic text recorded for each error kind.  The byte offset of the
/// failure is carried separately, in `LexResult::errOffset`.
pub open spec fn errText(kind: LexErrorKind) -> Seq<char> {
    match kind {
        LexErrorKind::UnterminatedString => "unterminated string literal"@,
        LexErrorKind::UnterminatedGroup => "unterminated or mismatched group"@,
        LexErrorKind::UnmatchedCloser => "closing delimiter with no open group"@,
        LexErrorKind::InvalidNumberLiteral => "number literal out of range"@,
        LexErrorKind::UnexpectedByte => "unexpected byte"@,
    }
}

/// One fixed-capacity chunk of the arena.  A slab never holds more than
/// `CHUNK_SZ` records; all slabs but the last are full.
pub struct TokenSlab {
    pub content: Vec<Token>,
}

impl View for TokenSlab {
    type V = Seq<Token>;

    closed spec fn view(&self) -> Seq<Token> {
        self.content@
    }
}

/// Slab sequences as the arena keeps them: all full but the last.
pub closed spec fn wfChunks(s: Seq<TokenSlab>) -> bool {
    &&& s.len() >= 1
    &&& forall|i: int| 0 <= i < s.len() - 1 ==> (#[trigger] s[i])@.len() == CHUNK_SZ
    &&& s.last()@.len() <= CHUNK_SZ
}

/// The token records held by a sequence of slabs, in order.
pub closed spec fn slabsSeq(s: Seq<TokenSlab>) -> Seq<Token>
    decreases s.len(),
{
    if s.len() == 0 {
        Seq::empty()
    } else {
        slabsSeq(s.drop_last()) + s.last()@
    }
}

proof fn lemma_slabsSeqLen(s: Seq<TokenSlab>)
    requires
        wfChunks(s),
    ensures
        slabsSeq(s).len() == (s.len() - 1) * (CHUNK_SZ as int) + s.last()@.len(),
    decreases s.len(),
{
    if s.len() == 1 {
        assert(slabsSeq(s) == slabsSeq(s.drop_last()) + s.last()@);
        assert(slabsSeq(s.drop_last()) == Seq::<Token>::empty());
    } else {
        let front = s.drop_last();
        assert(front.last() == s[s.len() - 2]);
        assert(wfChunks(front));
        lemma_slabsSeqLen(front);
        assert(slabsSeq(s) == slabsSeq(front) + s.last()@);
    }
}

proof fn lemma_slabsSeqIndex(s: Seq<TokenSlab>, q: int, r: int)
    requires
        wfChunks(s),
        0 <= q < s.len(),
        0 <= r < s[q]@.len(),
    ensures
        0 <= q * (CHUNK_SZ as int) + r < slabsSeq(s).len(),
        slabsSeq(s)[q * (CHUNK_SZ as int) + r] == s[q]@[r],
    decreases s.len(),
{
    let c = CHUNK_SZ as int;
    lemma_slabsSeqLen(s);
    assert(slabsSeq(s) == slabsSeq(s.drop_last()) + s.last()@);
    if q == s.len() - 1 {
        if s.len() > 1 {
            assert(s.drop_last().last() == s[s.len() - 2]);
            assert(wfChunks(s.drop_last()));
            lemma_slabsSeqLen(s.drop_last());
        } else {
            assert(slabsSeq(s.drop_last()) == Seq::<Token>::empty());
        }
        assert(slabsSeq(s.drop_last()).len() == (s.len() - 1) * c);
        assert(slabsSeq(s)[q * c + r] == s.last()@[r]);
    } else {
        let front = s.drop_last();
        assert(wfChunks(front));
        lemma_slabsSeqIndex(front, q, r);
        lemma_slabsSeqLen(front);
        assert(q * c + r < (front.len() - 1) * c + front.last()@.len());
        assert(slabsSeq(s)[q * c + r] == slabsSeq(front)[q * c + r]);
        assert(front[q] == s[q]);
    }
}

proof fn lemma_slabsSeqUpdate(s: Seq<TokenSlab>, q: int, r: int, t: Token, x: TokenSlab)
    requires
        wfChunks(s),
        0 <= q < s.len(),
        0 <= r < s[q]@.len(),
        x@ == s[q]@.update(r, t),
    ensures
        slabsSeq(s.update(q, x)) == slabsSeq(s).update(q * (CHUNK_SZ as int) + r, t),
    decreases s.len(),
{
    let c = CHUNK_SZ as int;
    let s2 = s.update(q, x);
    lemma_slabsSeqLen(s);
    assert(slabsSeq(s) == slabsSeq(s.drop_last()) + s.last()@);
    assert(slabsSeq(s2) == slabsSeq(s2.drop_last()) + s2.last()@);
    if q == s.len() - 1 {
        assert(s2.drop_last() =~= s.drop_last());
        if s.len() > 1 {
            assert(s.drop_last().last() == s[s.len() - 2]);
            assert(wfChunks(s.drop_last()));
            lemma_slabsSeqLen(s.drop_last());
        } else {
            assert(slabsSeq(s.drop_last()) == Seq::<Token>::empty());
        }
        assert(slabsSeq(s.drop_last()).len() == (s.len() - 1) * c);
        assert(s2.last()@ == s.last()@.update(r, t));
        assert(slabsSeq(s2) =~= slabsSeq(s).update(q * c + r, t));
    } else {
        let front = s.drop_last();
        assert(s2.drop_last() =~= front.update(q, x));
        assert(wfChunks(front));
        lemma_slabsSeqUpdate(front, q, r, t, x);
        lemma_slabsSeqIndex(front, q, r);
        assert(s2.last() == s.last());
        assert(slabsSeq(s2) =~= slabsSeq(s).update(q * c + r, t));
    }
}

/// The result of a lexing call: it owns the arena of token records and a
/// one-shot error slot.  Tokens are addressed by a single stable index; the
/// slab layout is invisible to callers.
pub struct LexResult {
    /// The slabs of the arena; use the stable-index methods, not this field.
    pub slabs: Vec<TokenSlab>,
    /// The write cursor: index of the next token to be appended.
    pub nextInd: usize,
    /// Set at most once, by the first failing sub-scanner.
    pub wasError: bool,
    /// Which error stopped the scan, if any.
    pub errKind: Option<LexErrorKind>,
    /// Byte offset at which the scan failed; meaningful only when `wasError`.
    pub errOffset: u32,
    /// Human-readable diagnostic for the failure, if any.
    pub errMsg: Option<String>,
}

impl LexResult {
    /// The arena's contents as a sequence of token records.
    pub closed spec fn toks(&self) -> Seq<Token> {
        slabsSeq(self.slabs@)
    }

    /// The arena's contents as mathematical tokens.
    pub open spec fn model(&self) -> Seq<SpecToken> {
        self.toks().map(|i: int, t: Token| t@)
    }

    /// Structural invariant of the arena: at least one slab, all slabs but
    /// the last full, and the write cursor equal to the total count.
    pub closed spec fn wf(&self) -> bool {
        &&& wfChunks(self.slabs@)
        &&& self.nextInd == self.toks().len()
    }

    pub fn new() -> (lr: LexResult)
        ensures
            lr.wf(),
            lr.toks() == Seq::<Token>::empty(),
            !lr.wasError,
            lr.errKind is None,
            lr.errMsg is None,
            lr.errOffset == 0,
    {
        let mut slabs: Vec<TokenSlab> = Vec::new();
        slabs.push(TokenSlab { content: Vec::new() });
        proof {
            assert(slabs@.drop_last() =~= Seq::<TokenSlab>::empty());
            assert(slabsSeq(slabs@) == slabsSeq(slabs@.drop_last()) + slabs@.last()@);
            assert(slabsSeq(Seq::<TokenSlab>::empty()) == Seq::<Token>::empty());
            assert(slabsSeq(slabs@) =~= Seq::<Token>::empty());
        }
        LexResult { slabs, nextInd: 0, wasError: false, errKind: None, errOffset: 0, errMsg: None }
    }

    /// Total number of tokens appended so far.
    pub fn len(&self) -> (n: usize)
        requires
            self.wf(),
        ensures
            n == self.toks().len(),
    {
        self.nextInd
    }

    /// Appends a token at the next stable index, opening a fresh slab when
    /// the current one is full.
    pub fn addToken(&mut self, newToken: Token)
        requires
            old(self).wf(),
            old(self).toks().len() < usize::MAX,
        ensures
            final(self).wf(),
            final(self).toks() == old(self).toks().push(newToken),
            final(self).model() == old(self).model().push(newToken@),
            final(self).wasError == old(self).wasError,
            final(self).errKind == old(self).errKind,
            final(self).errOffset == old(self).errOffset,
            final(self).errMsg == old(self).errMsg,
    {
        let ghost slabs0 = self.slabs@;
        let mut slab = match self.slabs.pop() {
            Some(s) => s,
            None => {
                proof {
                    assert(false);
                }
                TokenSlab { content: Vec::new() }
            },
        };
        proof {
            assert(slabs0.drop_last() == self.slabs@);
        }
        if slab.content.len() == CHUNK_SZ {
            self.slabs.push(slab);
            proof {
                assert(self.slabs@ =~= slabs0);
            }
            slab = TokenSlab { content: Vec::new() };
        }
        let ghost front = self.slabs@;
        let ghost mid = slab@;
        slab.content.push(newToken);
        self.slabs.push(slab);
        self.nextInd = self.nextInd + 1;
        proof {
            assert(self.slabs@.drop_last() =~= front);
            assert(self.slabs@.last()@ =~= mid.push(newToken));
            if slabs0.last()@.len() == CHUNK_SZ {
                assert(slabsSeq(front) == slabsSeq(slabs0.drop_last()) + slabs0.last()@);
                assert(mid =~= Seq::<Token>::empty());
            }
            assert(self.toks() =~= old(self).toks().push(newToken));
            assert(self.model() =~= old(self).model().push(newToken@));
            assert forall|i: int| 0 <= i < self.slabs@.len() - 1 implies (#[trigger] self.slabs@[i])@.len()
                == CHUNK_SZ by {
                if slabs0.last()@.len() == CHUNK_SZ {
                    if i < slabs0.len() - 1 {
                        assert(self.slabs@[i] == slabs0[i]);
                    } else {
                        assert(self.slabs@[i] == slabs0.last());
                    }
                } else {
                    assert(self.slabs@[i] == slabs0[i]);
                }
            }
        }
    }

    /// Locates stable index `ind` inside the slab layout.
    proof fn lemma_locate(&self, ind: usize)
        requires
            self.wf(),
            ind < self.toks().len(),
        ensures
            0 <= ind as int / (CHUNK_SZ as int) < self.slabs@.len(),
            0 <= ind as int % (CHUNK_SZ as int) < self.slabs@[ind as int / (CHUNK_SZ as int)]@.len(),
            (ind as int / (CHUNK_SZ as int)) * (CHUNK_SZ as int) + ind as int % (CHUNK_SZ as int)
                == ind as int,
    {
        let c = CHUNK_SZ as int;
        let i = ind as int;
        let q = i / c;
        let r = i % c;
        lemma_fundamental_div_mod(i, c);
        lemma_mod_pos_bound(i, c);
        lemma_slabsSeqLen(self.slabs@);
        let n = self.slabs@.len() as int;
        assert(self.toks().len() == (n - 1) * c + self.slabs@.last()@.len());
        if q >= n {
            assert(c * q >= c * n);
            assert(false);
        }
        if q == n - 1 {
            assert(r < self.slabs@.last()@.len());
        } else {
            assert(self.slabs@[q]@.len() == CHUNK_SZ);
        }
    }

    /// Random access by stable position.
    pub fn getToken(&self, ind: usize) -> (t: Token)
        requires
            self.wf(),
            ind < self.toks().len(),
        ensures
            t == self.toks()[ind as int],
            t@ == self.model()[ind as int],
    {
        let q = ind / CHUNK_SZ;
        let r = ind % CHUNK_SZ;
        proof {
            self.lemma_locate(ind);
            lemma_slabsSeqIndex(self.slabs@, q as int, r as int);
        }
        self.slabs[q].content[r]
    }

    /// Overwrites the token at stable position `ind`: the backpatching
    /// mechanism for grouping headers.
    pub fn setToken(&mut self, ind: usize, t: Token)
        requires
            old(self).wf(),
            ind < old(self).toks().len(),
        ensures
            final(self).wf(),
            final(self).toks() == old(self).toks().update(ind as int, t),
            final(self).model() == old(self).model().update(ind as int, t@),
            final(self).wasError == old(self).wasError,
            final(self).errKind == old(self).errKind,
            final(self).errOffset == old(self).errOffset,
            final(self).errMsg == old(self).errMsg,
    {
        let ghost slabs0 = self.slabs@;
        let q = ind / CHUNK_SZ;
        let r = ind % CHUNK_SZ;
        proof {
            self.lemma_locate(ind);
        }
        let mut slab = self.slabs.remove(q);
        slab.content[r] = t;
        self.slabs.insert(q, slab);
        proof {
            assert(self.slabs@ =~= slabs0.update(q as int, slab));
            lemma_slabsSeqUpdate(slabs0, q as int, r as int, t, slab);
            assert(self.toks() == old(self).toks().update(ind as int, t));
            assert(self.model() =~= old(self).model().update(ind as int, t@));
            assert forall|i: int| 0 <= i < self.slabs@.len() - 1 implies (#[trigger] self.slabs@[i])@.len()
                == CHUNK_SZ by {
                if i != q as int {
                    assert(self.slabs@[i] == slabs0[i]);
                }
            }
            assert(wfChunks(self.slabs@));
        }
    }

    /// Records the first fatal error: the one-shot error slot.  `offset` is
    /// the byte position at which the scan failed; the diagnostic text for
    /// the kind is stored alongside it.
    pub fn recordError(&mut self, kind: LexErrorKind, offset: u32)
        requires
            old(self).wf(),
        ensures
            final(self).wf(),
            final(self).toks() == old(self).toks(),
            final(self).model() == old(self).model(),
            final(self).wasError,
            final(self).errKind == Some(kind),
            final(self).errOffset == offset,
            final(self).errMsg matches Some(m) && m@ == errText(kind),
    {
        self.wasError = true;
        self.errKind = Some(kind);
        self.errOffset = offset;
        let text: &str = match kind {
            LexErrorKind::UnterminatedString => "unterminated string literal",
            LexErrorKind::UnterminatedGroup => "unterminated or mismatched group",
            LexErrorKind::UnmatchedCloser => "closing delimiter with no open group",
            LexErrorKind::InvalidNumberLiteral => "number literal out of range",
            LexErrorKind::UnexpectedByte => "unexpected byte",
        };
        self.errMsg = Some(String::from_str(text));
    }
}

} // verus!
