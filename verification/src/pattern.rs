//! Signature compilation and leftmost-match scanning.

use vstd::prelude::*;
use vstd::string::StrSliceExecFns;

use crate::errors::PatchError;

verus! {

/// One element of a compiled signature: an exact byte, or a wildcard that
/// matches any single byte.
#[derive(Clone, Copy, Debug, PartialEq, Eq, Structural)]
pub enum PatToken {
    Byte(u8),
    Any,
}

/// ASCII whitespace, the separators between signature tokens.
pub open spec fn is_space(c: char) -> bool {
    c == ' ' || c == '\t' || c == '\n' || c == '\u{c}' || c == '\r'
}

/// The value of a hexadecimal digit (case-insensitive), or `None` for any
/// other character. The numeric ranges are the codes of '0'-'9', 'A'-'F'
/// and 'a'-'f'.
pub open spec fn hex_digit_val(c: char) -> Option<u8> {
    let v = c as u32;
    if 48 <= v && v <= 57 {
        Some((v - 48) as u8)
    } else if 65 <= v && v <= 70 {
        Some((v - 55) as u8)
    } else if 97 <= v && v <= 102 {
        Some((v - 87) as u8)
    } else {
        None
    }
}

/// What a single whitespace-delimited token denotes: `?` is the wildcard,
/// one or two hex digits are a byte, anything else is malformed.
pub open spec fn token_of(cur: Seq<char>) -> Option<PatToken> {
    if cur.len() == 1 && cur[0] == '?' {
        Some(PatToken::Any)
    } else if cur.len() == 1 {
        match hex_digit_val(cur[0]) {
            Some(v) => Some(PatToken::Byte(v)),
            None => None,
        }
    } else if cur.len() == 2 {
        match hex_digit_val(cur[0]) {
            Some(h) => match hex_digit_val(cur[1]) {
                Some(l) => Some(PatToken::Byte((h * 16 + l) as u8)),
                None => None,
            },
            None => None,
        }
    } else {
        None
    }
}

/// Tokenization of a signature, one character at a time from position `i`,
/// with `cur` the characters of the token being accumulated. Whitespace
/// ends the current token; a malformed token makes the whole signature
/// malformed.
pub open spec fn parse_from(s: Seq<char>, i: int, cur: Seq<char>) -> Option<Seq<PatToken>>
    decreases s.len() - i,
{
    if i < 0 || i >= s.len() {
        if cur.len() == 0 {
            Some(Seq::empty())
        } else {
            match token_of(cur) {
                Some(t) => Some(seq![t]),
                None => None,
            }
        }
    } else if is_space(s[i]) {
        if cur.len() == 0 {
            parse_from(s, i + 1, cur)
        } else {
            match token_of(cur) {
                Some(t) => match parse_from(s, i + 1, Seq::empty()) {
                    Some(rest) => Some(seq![t] + rest),
                    None => None,
                },
                None => None,
            }
        }
    } else {
        parse_from(s, i + 1, cur.push(s[i]))
    }
}

/// The token sequence a signature string denotes, or `None` if some token
/// is malformed. An all-whitespace or empty signature denotes zero tokens.
pub open spec fn sig_tokens(s: Seq<char>) -> Option<Seq<PatToken>> {
    parse_from(s, 0, Seq::empty())
}

/// `rest` with `pre` prepended to its token list, if it has one.
pub open spec fn with_prefix(pre: Seq<PatToken>, rest: Option<Seq<PatToken>>) -> Option<
    Seq<PatToken>,
> {
    match rest {
        Some(r) => Some(pre + r),
        None => None,
    }
}

/// A compiled signature: the token sequence, ready to scan a buffer.
/// Compilation rejects empty signatures, so the view is never empty.
pub struct Pattern {
    toks: Vec<PatToken>,
}

impl View for Pattern {
    type V = Seq<PatToken>;

    closed spec fn view(&self) -> Seq<PatToken> {
        self.toks@
    }
}

/// Whether a single token accepts a single byte.
pub open spec fn tok_matches(t: PatToken, b: u8) -> bool {
    match t {
        PatToken::Any => true,
        PatToken::Byte(v) => v == b,
    }
}

/// The pattern `toks` matches the buffer `data` at offset `i`: the whole
/// pattern lies inside the buffer and every token accepts the byte under it.
pub open spec fn matches_at(data: Seq<u8>, toks: Seq<PatToken>, i: int) -> bool {
    &&& 0 <= i
    &&& i + toks.len() <= data.len()
    &&& forall|k: int| 0 <= k < toks.len() ==> tok_matches(#[trigger] toks[k], data[i + k])
}

/// The smallest offset at or after `i` where the pattern matches, or `None`
/// if there is none.
pub open spec fn first_match_from(data: Seq<u8>, toks: Seq<PatToken>, i: int) -> Option<int>
    decreases data.len() - i,
{
    if i < 0 || i + toks.len() > data.len() {
        None
    } else if matches_at(data, toks, i) {
        Some(i)
    } else {
        first_match_from(data, toks, i + 1)
    }
}

/// The smallest offset where the pattern matches the buffer, if any.
pub open spec fn first_match(data: Seq<u8>, toks: Seq<PatToken>) -> Option<int> {
    first_match_from(data, toks, 0)
}

/// What `first_match_from` returns: a match position is a real match, no
/// earlier position from `i` on matches, and `None` means nothing from `i`
/// on matches.
proof fn lemma_first_match_from_spec(data: Seq<u8>, toks: Seq<PatToken>, i: int)
    requires
        0 <= i,
    ensures
        match first_match_from(data, toks, i) {
            Some(m) => i <= m && matches_at(data, toks, m) && forall|j: int|
                i <= j < m ==> !matches_at(data, toks, j),
            None => forall|j: int| i <= j ==> !matches_at(data, toks, j),
        },
    decreases data.len() - i,
{
    if i + toks.len() > data.len() {
        assert forall|j: int| i <= j implies !matches_at(data, toks, j) by {
            assert(j + toks.len() > data.len());
        }
    } else if matches_at(data, toks, i) {
    } else {
        lemma_first_match_from_spec(data, toks, i + 1);
    }
}

/// The leftmost-match law: if the pattern matches the buffer anywhere, the
/// scan finds a match, and it is the smallest matching offset. Together
/// with the contracts of `Pattern::compile` and `Pattern::find`, this says
/// that compiling a valid signature and scanning a buffer that contains its
/// byte sequence (with anything at the wildcard positions) at offset `o`
/// yields a match at `o`, or at the smallest earlier match.
pub proof fn lemma_first_match_is_leftmost(data: Seq<u8>, toks: Seq<PatToken>, o: int)
    requires
        matches_at(data, toks, o),
    ensures
        match first_match(data, toks) {
            Some(m) => m <= o && matches_at(data, toks, m) && forall|j: int|
                0 <= j < m ==> !matches_at(data, toks, j),
            None => false,
        },
{
    lemma_first_match_from_spec(data, toks, 0);
}

/// A pattern with no wildcard tokens.
pub open spec fn no_wildcards(toks: Seq<PatToken>) -> bool {
    forall|k: int| 0 <= k < toks.len() ==> (#[trigger] toks[k]) is Byte
}

/// The bytes of a pattern's exact tokens, with 0 standing at wildcard
/// positions (callers use it for wildcard-free patterns).
pub open spec fn literal_bytes(toks: Seq<PatToken>) -> Seq<u8> {
    Seq::new(
        toks.len(),
        |k: int|
            match toks[k] {
                PatToken::Byte(v) => v,
                PatToken::Any => 0,
            },
    )
}

/// The exact-substring law: a wildcard-free pattern matches at `i` exactly
/// when its literal bytes stand at `i` in the buffer, so matching is exact
/// substring search.
pub proof fn lemma_exact_match_is_substring(data: Seq<u8>, toks: Seq<PatToken>, i: int)
    requires
        no_wildcards(toks),
    ensures
        matches_at(data, toks, i) <==> (0 <= i && i + toks.len() <= data.len() && data.subrange(
            i,
            i + toks.len() as int,
        ) == literal_bytes(toks)),
{
    if matches_at(data, toks, i) {
        assert(data.subrange(i, i + toks.len() as int) =~= literal_bytes(toks));
    }
    if 0 <= i && i + toks.len() <= data.len() && data.subrange(i, i + toks.len() as int)
        == literal_bytes(toks) {
        assert forall|k: int| 0 <= k < toks.len() implies tok_matches(
            #[trigger] toks[k],
            data[i + k],
        ) by {
            assert(data.subrange(i, i + toks.len() as int)[k] == literal_bytes(toks)[k]);
        }
    }
}

fn is_space_exec(c: char) -> (r: bool)
    ensures
        r == is_space(c),
{
    c == ' ' || c == '\t' || c == '\n' || c == '\u{c}' || c == '\r'
}

fn hex_digit_val_exec(c: char) -> (r: Option<u8>)
    ensures
        r == hex_digit_val(c),
{
    let v = c as u32;
    if 48 <= v && v <= 57 {
        Some((v - 48) as u8)
    } else if 65 <= v && v <= 70 {
        Some((v - 55) as u8)
    } else if 97 <= v && v <= 102 {
        Some((v - 87) as u8)
    } else {
        None
    }
}

fn token_of_exec(cur: &Vec<char>) -> (r: Option<PatToken>)
    ensures
        r == token_of(cur@),
{
    if cur.len() == 1 {
        let c = cur[0];
        if c == '?' {
            Some(PatToken::Any)
        } else {
            match hex_digit_val_exec(c) {
                Some(v) => Some(PatToken::Byte(v)),
                None => None,
            }
        }
    } else if cur.len() == 2 {
        match hex_digit_val_exec(cur[0]) {
            Some(h) => match hex_digit_val_exec(cur[1]) {
                Some(l) => {
                    assert(h <= 15 && l <= 15);
                    Some(PatToken::Byte(h * 16 + l))
                },
                None => None,
            },
            None => None,
        }
    } else {
        None
    }
}

/// Split a signature string on whitespace and read each token as a hex
/// byte or the wildcard `?`.
fn tokenize(sig: &str) -> (r: Result<Vec<PatToken>, PatchError>)
    ensures
        match r {
            Ok(v) => sig_tokens(sig@) == Some(v@),
            Err(e) => e == PatchError::InvalidPattern && sig_tokens(sig@) is None,
        },
{
    let n = sig.unicode_len();
    let mut toks: Vec<PatToken> = Vec::new();
    let mut cur: Vec<char> = Vec::new();
    let mut i: usize = 0;
    while i < n
        invariant
            n == sig@.len(),
            i <= n,
            with_prefix(toks@, parse_from(sig@, i as int, cur@)) == sig_tokens(sig@),
        decreases n - i,
    {
        let c = sig.get_char(i);
        if is_space_exec(c) {
            if cur.len() > 0 {
                match token_of_exec(&cur) {
                    Some(t) => {
                        proof {
                            let rest = parse_from(sig@, i + 1, Seq::<char>::empty());
                            if rest is Some {
                                assert(toks@ + (seq![t] + rest->0) =~= toks@.push(t)
                                    + rest->0);
                            }
                        }
                        toks.push(t);
                        cur.clear();
                    },
                    None => {
                        return Err(PatchError::InvalidPattern);
                    },
                }
            }
        } else {
            cur.push(c);
        }
        i += 1;
    }
    if cur.len() > 0 {
        match token_of_exec(&cur) {
            Some(t) => {
                proof {
                    assert(toks@ + seq![t] =~= toks@.push(t));
                }
                toks.push(t);
            },
            None => {
                return Err(PatchError::InvalidPattern);
            },
        }
    }
    proof {
        assert(toks@ + Seq::<PatToken>::empty() =~= toks@);
    }
    Ok(toks)
}

impl Pattern {
    /// Compile a signature string: split it on whitespace and read each
    /// token as a hex byte or the wildcard `?`. A malformed token, and the
    /// degenerate empty signature, are rejected as `InvalidPattern`.
    pub fn compile(sig: &str) -> (r: Result<Pattern, PatchError>)
        ensures
            match r {
                Ok(p) => sig_tokens(sig@) == Some(p@) && p@.len() > 0,
                Err(e) => {
                    &&& e == PatchError::InvalidPattern
                    &&& (sig_tokens(sig@) is None || sig_tokens(sig@) == Some(
                        Seq::<PatToken>::empty(),
                    ))
                },
            },
    {
        match tokenize(sig) {
            Ok(toks) => {
                if toks.len() == 0 {
                    proof {
                        assert(toks@ =~= Seq::<PatToken>::empty());
                    }
                    Err(PatchError::InvalidPattern)
                } else {
                    Ok(Pattern { toks })
                }
            },
            Err(e) => Err(e),
        }
    }

    /// How many tokens the compiled signature has.
    pub fn token_count(&self) -> (r: usize)
        ensures
            r == self@.len(),
    {
        self.toks.len()
    }

    /// Whether this pattern matches `data` at position `i`.
    fn matches_here(&self, data: &[u8], i: usize) -> (r: bool)
        requires
            i + self@.len() <= data@.len(),
        ensures
            r == matches_at(data@, self@, i as int),
    {
        let plen = self.toks.len();
        let dlen = data.len();
        let mut k: usize = 0;
        while k < plen
            invariant
                plen == self@.len(),
                dlen == data@.len(),
                i + plen <= data@.len(),
                k <= plen,
                forall|t: int| 0 <= t < k ==> tok_matches(#[trigger] self@[t], data@[i + t]),
            decreases plen - k,
        {
            let matched = match self.toks[k] {
                PatToken::Any => true,
                PatToken::Byte(v) => v == data[i + k],
            };
            if !matched {
                assert(!tok_matches(self@[k as int], data@[i + k]));
                return false;
            }
            k += 1;
        }
        true
    }

    /// Scan `data` and return the offset of the leftmost match of this
    /// pattern, or `None` if it matches nowhere.
    pub fn find(&self, data: &[u8]) -> (r: Option<usize>)
        ensures
            match r {
                Some(m) => first_match(data@, self@) == Some(m as int),
                None => first_match(data@, self@) is None,
            },
    {
        let n = data.len();
        let plen = self.toks.len();
        if plen > n {
            proof {
                lemma_first_match_from_spec(data@, self@, 0);
                if first_match(data@, self@) is Some {
                    assert(matches_at(data@, self@, first_match(data@, self@)->0));
                }
            }
            return None;
        }
        let mut i: usize = 0;
        while i <= n - plen
            invariant
                plen == self@.len(),
                n == data@.len(),
                plen <= n,
                i <= n - plen + 1,
                forall|j: int| 0 <= j < i ==> !matches_at(data@, self@, j),
            decreases n - plen - i + 1,
        {
            if self.matches_here(data, i) {
                proof {
                    lemma_first_match_from_spec(data@, self@, 0);
                    match first_match(data@, self@) {
                        Some(m) => {
                            if m < i {
                                assert(!matches_at(data@, self@, m));
                            }
                            if m > i {
                                assert(!matches_at(data@, self@, i as int));
                            }
                        },
                        None => {
                            assert(!matches_at(data@, self@, i as int));
                        },
                    }
                }
                return Some(i);
            }
            i += 1;
        }
        proof {
            assert forall|j: int| 0 <= j implies !matches_at(data@, self@, j) by {
                if j >= i {
                    assert(j + self@.len() > data@.len());
                }
            }
            lemma_first_match_from_spec(data@, self@, 0);
            if first_match(data@, self@) is Some {
                assert(matches_at(data@, self@, first_match(data@, self@)->0));
            }
        }
        None
    }
}

/// Compile `pattern` and return the offset of its leftmost match in `data`.
/// `None` covers both a malformed or empty signature and a signature that
/// matches nowhere; `Pattern::compile` and `Pattern::find` tell the two
/// apart.
pub fn find_pattern(data: &[u8], pattern: &str) -> (r: Option<usize>)
    ensures
        match sig_tokens(pattern@) {
            Some(toks) => {
                if toks.len() == 0 {
                    r is None
                } else {
                    match r {
                        Some(m) => first_match(data@, toks) == Some(m as int),
                        None => first_match(data@, toks) is None,
                    }
                }
            },
            None => r is None,
        },
{
    match Pattern::compile(pattern) {
        Ok(p) => p.find(data),
        Err(_) => None,
    }
}

/// Parse a whitespace-separated list of hex-byte tokens into the bytes
/// they denote, for replacement byte lists. The wildcard is no byte, so a
/// `?` token is rejected here; an empty list is allowed and denotes no
/// bytes.
pub fn parse_hex_bytes(s: &str) -> (r: Result<Vec<u8>, PatchError>)
    ensures
        match r {
            Ok(v) => match sig_tokens(s@) {
                Some(toks) => no_wildcards(toks) && v@ == literal_bytes(toks),
                None => false,
            },
            Err(e) => {
                &&& e == PatchError::InvalidPattern
                &&& match sig_tokens(s@) {
                    Some(toks) => !no_wildcards(toks),
                    None => true,
                }
            },
        },
{
    let toks = match tokenize(s) {
        Ok(toks) => toks,
        Err(e) => {
            return Err(e);
        },
    };
    let n = toks.len();
    let mut bytes: Vec<u8> = Vec::new();
    let mut k: usize = 0;
    while k < n
        invariant
            sig_tokens(s@) == Some(toks@),
            n == toks@.len(),
            k <= n,
            bytes@.len() == k,
            forall|t: int| 0 <= t < k ==> (#[trigger] toks@[t]) is Byte,
            forall|t: int| 0 <= t < k ==> bytes@[t] == literal_bytes(toks@)[t],
        decreases n - k,
    {
        match toks[k] {
            PatToken::Byte(v) => {
                bytes.push(v);
            },
            PatToken::Any => {
                proof {
                    assert(!((toks@[k as int]) is Byte));
                    assert(!no_wildcards(toks@));
                }
                return Err(PatchError::InvalidPattern);
            },
        }
        k += 1;
    }
    proof {
        assert(bytes@ =~= literal_bytes(toks@));
    }
    Ok(bytes)
}

} // verus!
