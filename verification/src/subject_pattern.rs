//! Subscription patterns: dot-separated tokens where `*` matches exactly one
//! token and a trailing `>` matches one or more tokens.

use vstd::prelude::*;
use vstd::utf8::*;

use crate::error::CoreError;
use crate::subject::{Subject, SubjectView, subject_wf, all_nonempty};
use crate::text::{chars_of, split_chars, split_on, string_of, trim, trim_str, views};

verus! {

/// The longest pattern accepted, in bytes.
pub const MAX_PATTERN_LEN: usize = 512;

/// The most tokens a pattern may have.
pub const MAX_PATTERN_TOKENS: usize = 32;

/// The abstract value of one pattern token.
pub enum PTok {
    Lit(Seq<char>),
    Star,
    Gt,
}

/// The abstract value of a pattern: its text and its tokens.
pub struct PatternView {
    pub raw: Seq<char>,
    pub tokens: Seq<PTok>,
}

/// The token that the text `t` denotes: `*` and `>` are wildcards, anything else is literal.
pub open spec fn tok_of(t: Seq<char>) -> PTok {
    if t == seq!['*'] {
        PTok::Star
    } else if t == seq!['>'] {
        PTok::Gt
    } else {
        PTok::Lit(t)
    }
}

/// The tokens of the pieces `ts`.
pub open spec fn toks_of(ts: Seq<Seq<char>>) -> Seq<PTok> {
    ts.map_values(|t: Seq<char>| tok_of(t))
}

/// `>` occurs, if at all, only as the last piece.
pub open spec fn gt_only_last(ts: Seq<Seq<char>>) -> bool {
    forall|i: int| 0 <= i < ts.len() - 1 ==> #[trigger] ts[i] != seq!['>']
}

/// The (already trimmed) text `t` is a valid subscription pattern.
pub open spec fn valid_pattern(t: Seq<char>) -> bool {
    &&& t.len() > 0
    &&& encode_utf8(t).len() <= MAX_PATTERN_LEN
    &&& split_on(t, '.').len() <= MAX_PATTERN_TOKENS
    &&& all_nonempty(split_on(t, '.'))
    &&& gt_only_last(split_on(t, '.'))
}

/// The pattern that `SubjectPattern::parse` makes of `input`, when it accepts it.
pub open spec fn parsed_pattern(input: Seq<char>) -> PatternView {
    PatternView { raw: trim(input), tokens: toks_of(split_on(trim(input), '.')) }
}

/// A pattern value is well formed.
pub open spec fn pattern_wf(v: PatternView) -> bool {
    valid_pattern(v.raw) && v.tokens == toks_of(split_on(v.raw, '.'))
}

/// Whether the pattern tokens `p` match the subject tokens `s`.
pub open spec fn pattern_matches(p: Seq<PTok>, s: Seq<Seq<char>>) -> bool
    decreases p.len(),
{
    if p.len() == 0 {
        s.len() == 0
    } else {
        match p[0] {
            PTok::Gt => s.len() >= 1,
            PTok::Star => s.len() >= 1 && pattern_matches(p.drop_first(), s.drop_first()),
            PTok::Lit(l) => s.len() >= 1 && s[0] == l && pattern_matches(
                p.drop_first(),
                s.drop_first(),
            ),
        }
    }
}

/// One token of a parsed pattern.
#[derive(Clone, Debug, PartialEq, Eq, Hash)]
pub enum PatternToken {
    Literal(String),
    SingleWildcard,
    MultiWildcard,
}

impl View for PatternToken {
    type V = PTok;

    open spec fn view(&self) -> PTok {
        match self {
            PatternToken::Literal(s) => PTok::Lit(s@),
            PatternToken::SingleWildcard => PTok::Star,
            PatternToken::MultiWildcard => PTok::Gt,
        }
    }
}

/// The views of a sequence of pattern tokens.
pub open spec fn tok_views(v: Seq<PatternToken>) -> Seq<PTok> {
    v.map_values(|t: PatternToken| t@)
}

/// A validated subscription pattern such as `orders.*` or `metrics.>`.
#[derive(Debug, PartialEq, Eq, Hash)]
pub struct SubjectPattern {
    raw: String,
    tokens: Vec<PatternToken>,
}

impl View for SubjectPattern {
    type V = PatternView;

    closed spec fn view(&self) -> PatternView {
        PatternView { raw: self.raw@, tokens: tok_views(self.tokens@) }
    }
}

impl Clone for SubjectPattern {
    fn clone(&self) -> (r: Self)
        ensures
            r@ == self@,
    {
        proof {
            use_type_invariant(self);
        }
        let raw = self.raw.clone();
        let mut tokens: Vec<PatternToken> = Vec::new();
        let mut i: usize = 0;
        while i < self.tokens.len()
            invariant
                i <= self.tokens@.len(),
                tokens@.len() == i,
                forall|j: int| 0 <= j < i ==> #[trigger] tokens@[j]@ == self.tokens@[j]@,
            decreases self.tokens@.len() - i,
        {
            let t = match &self.tokens[i] {
                PatternToken::Literal(s) => PatternToken::Literal(s.clone()),
                PatternToken::SingleWildcard => PatternToken::SingleWildcard,
                PatternToken::MultiWildcard => PatternToken::MultiWildcard,
            };
            tokens.push(t);
            i = i + 1;
        }
        assert(tok_views(tokens@) =~= tok_views(self.tokens@));
        SubjectPattern { raw, tokens }
    }
}

/// Whether the characters `t` are exactly the one character `c`.
fn is_single(t: &Vec<char>, c: char) -> (r: bool)
    ensures
        r == (t@ == seq![c]),
{
    if t.len() == 1 && t[0] == c {
        assert(t@ =~= seq![c]);
        true
    } else {
        false
    }
}

impl SubjectPattern {
    #[verifier::type_invariant]
    closed spec fn inv(self) -> bool {
        pattern_wf(self@)
    }

    /// Parses and validates a subscription pattern. Surrounding whitespace is
    /// trimmed; the result must be non-empty, at most 512 bytes, made of at most
    /// 32 non-empty dot-separated tokens, with `>` only as the last token.
    pub fn parse(input: &str) -> (r: Result<SubjectPattern, CoreError>)
        ensures
            match r {
                Ok(p) => valid_pattern(trim(input@)) && p@ == parsed_pattern(input@),
                Err(CoreError::InvalidSubjectPattern(_)) => !valid_pattern(trim(input@)),
                Err(_) => false,
            },
    {
        let trimmed = trim_str(input);
        let chars = chars_of(trimmed);
        if chars.len() == 0 {
            return Err(CoreError::InvalidSubjectPattern("pattern cannot be empty".to_owned()));
        }
        if trimmed.as_bytes().len() > MAX_PATTERN_LEN {
            return Err(
                CoreError::InvalidSubjectPattern("pattern exceeds max length".to_owned()),
            );
        }
        let parts = split_chars(chars.as_slice(), '.');
        let ghost pv = parts@.map_values(|t: Vec<char>| t@);
        assert(pv.len() == parts@.len());
        if parts.len() > MAX_PATTERN_TOKENS {
            return Err(
                CoreError::InvalidSubjectPattern("pattern exceeds max tokens".to_owned()),
            );
        }
        let mut tokens: Vec<PatternToken> = Vec::new();
        let mut i: usize = 0;
        while i < parts.len()
            invariant
                i <= parts@.len(),
                pv == parts@.map_values(|t: Vec<char>| t@),
                pv == split_on(trim(input@), '.'),
                trim(input@).len() > 0,
                encode_utf8(trim(input@)).len() <= MAX_PATTERN_LEN,
                pv.len() <= MAX_PATTERN_TOKENS,
                tokens@.len() == i,
                forall|j: int|
                    0 <= j < i ==> #[trigger] tokens@[j]@ == tok_of(pv[j]) && pv[j].len() > 0,
                forall|j: int| 0 <= j < i && j < pv.len() - 1 ==> #[trigger] pv[j] != seq!['>'],
                forall|j: int| 0 <= j < i ==> #[trigger] pv[j].len() > 0,
            decreases parts@.len() - i,
        {
            assert(pv[i as int] == parts@[i as int]@);
            let part = &parts[i];
            if part.len() == 0 {
                assert(pv[i as int].len() == 0);
                return Err(
                    CoreError::InvalidSubjectPattern("pattern contains empty token".to_owned()),
                );
            }
            if is_single(part, '*') {
                assert(seq!['*'][0] != seq!['>'][0]);
                tokens.push(PatternToken::SingleWildcard);
            } else if is_single(part, '>') {
                if i != parts.len() - 1 {
                    assert(pv[i as int] == seq!['>']);
                    return Err(
                        CoreError::InvalidSubjectPattern(
                            "'>' wildcard must be the last token".to_owned(),
                        ),
                    );
                }
                tokens.push(PatternToken::MultiWildcard);
            } else {
                tokens.push(PatternToken::Literal(string_of(part.as_slice())));
            }
            i = i + 1;
        }
        assert(tok_views(tokens@) =~= toks_of(pv));
        let p = SubjectPattern { raw: trimmed.to_owned(), tokens };
        Ok(p)
    }

    /// Whether the pattern matches the subject: literals must be equal, `*`
    /// matches one token, and `>` matches one or more remaining tokens.
    pub fn matches(&self, subject: &Subject) -> (r: bool)
        ensures
            r == pattern_matches(self@.tokens, subject@.tokens),
    {
        proof {
            use_type_invariant(self);
        }
        let st = subject.tokens();
        let pt = &self.tokens;
        let ghost p = self@.tokens;
        let ghost s = subject@.tokens;
        let mut i: usize = 0;
        assert(p.skip(0) =~= p);
        assert(s.skip(0) =~= s);
        while i < pt.len() && i < st.len()
            invariant
                p == tok_views(pt@),
                s == views(st@),
                p == self@.tokens,
                s == subject@.tokens,
                i <= p.len(),
                i <= s.len(),
                pattern_matches(p, s) == pattern_matches(p.skip(i as int), s.skip(i as int)),
            decreases p.len() - i,
        {
            assert(p.skip(i as int)[0] == p[i as int]);
            assert(s.skip(i as int)[0] == s[i as int]);
            assert(p.skip(i as int).drop_first() == p.skip(i + 1));
            assert(s.skip(i as int).drop_first() == s.skip(i + 1));
            match &pt[i] {
                PatternToken::Literal(lit) => {
                    assert(p[i as int] == PTok::Lit(lit@));
                    assert(s[i as int] == st@[i as int]@);
                    if !(st[i] == *lit) {
                        return false;
                    }
                },
                PatternToken::SingleWildcard => {},
                PatternToken::MultiWildcard => {
                    assert(p[i as int] == PTok::Gt);
                    return true;
                },
            }
            i = i + 1;
        }
        proof {
            if i < p.len() {
                assert(s.skip(i as int).len() == 0);
            }
            if i < s.len() {
                assert(p.skip(i as int).len() == 0);
            }
        }
        i == pt.len() && i == st.len()
    }

    /// The pattern's text.
    pub fn as_str(&self) -> (r: &str)
        ensures
            r@ == self@.raw,
            pattern_wf(self@),
    {
        proof {
            use_type_invariant(self);
        }
        self.raw.as_str()
    }

    /// The pattern's tokens.
    pub fn tokens(&self) -> (r: &[PatternToken])
        ensures
            tok_views(r@) == self@.tokens,
            pattern_wf(self@),
    {
        proof {
            use_type_invariant(self);
        }
        self.tokens.as_slice()
    }

    /// The pattern's text, as `Display` writes it.
    pub fn to_string(&self) -> (r: String)
        ensures
            r@ == self@.raw,
    {
        self.raw.clone()
    }
}

} // verus!
