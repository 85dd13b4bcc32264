//! Publish subjects: dot-separated tokens without wildcards.

use vstd::prelude::*;
use vstd::utf8::*;

use crate::error::CoreError;
use crate::text::{chars_of, contains_char, split_chars, split_on, str_eq, string_of, trim, trim_str, views};

verus! {

/// The longest subject accepted, in bytes.
pub const MAX_SUBJECT_LEN: usize = 512;

/// The most tokens a subject may have.
pub const MAX_TOKENS: usize = 32;

/// The abstract value of a subject: its text and its tokens.
pub struct SubjectView {
    pub raw: Seq<char>,
    pub tokens: Seq<Seq<char>>,
}

/// Every piece is non-empty.
pub open spec fn all_nonempty(ts: Seq<Seq<char>>) -> bool {
    forall|i: int| 0 <= i < ts.len() ==> #[trigger] ts[i].len() > 0
}

/// The (already trimmed) text `t` is a valid publish subject.
pub open spec fn valid_subject(t: Seq<char>) -> bool {
    &&& t.len() > 0
    &&& encode_utf8(t).len() <= MAX_SUBJECT_LEN
    &&& !t.contains('*')
    &&& !t.contains('>')
    &&& split_on(t, '.').len() <= MAX_TOKENS
    &&& all_nonempty(split_on(t, '.'))
}

/// A subject value is well formed: valid text, and its tokens are the text split on dots.
pub open spec fn subject_wf(v: SubjectView) -> bool {
    valid_subject(v.raw) && v.tokens == split_on(v.raw, '.')
}

/// The subject that `Subject::parse` makes of `input`, when it accepts it.
pub open spec fn parsed_subject(input: Seq<char>) -> SubjectView {
    SubjectView { raw: trim(input), tokens: split_on(trim(input), '.') }
}

/// Parsing the text of a parsed subject gives the same subject: the text
/// is valid again, and its value is the subject's.
pub proof fn lemma_subject_reparse(input: Seq<char>)
    requires
        valid_subject(trim(input)),
    ensures
        valid_subject(trim(parsed_subject(input).raw)),
        parsed_subject(parsed_subject(input).raw) == parsed_subject(input),
{
    crate::text::lemma_trim_idempotent(input);
}

/// What parsing `input` as a subject gives: the subject when the trimmed
/// text is valid; `SubjectTooLong` when it is non-empty and longer than the
/// limit in bytes; `InvalidSubject` otherwise.
pub open spec fn subject_parse_result(input: Seq<char>, r: Result<Subject, CoreError>) -> bool {
    match r {
        Ok(s) => valid_subject(trim(input)) && s@ == parsed_subject(input),
        Err(CoreError::SubjectTooLong { len, limit }) => {
            &&& trim(input).len() > 0
            &&& encode_utf8(trim(input)).len() > MAX_SUBJECT_LEN
            &&& len == encode_utf8(trim(input)).len()
            &&& limit == MAX_SUBJECT_LEN
        },
        Err(CoreError::InvalidSubject(_)) => {
            &&& !valid_subject(trim(input))
            &&& !(trim(input).len() > 0 && encode_utf8(trim(input)).len() > MAX_SUBJECT_LEN)
        },
        Err(_) => false,
    }
}

/// A validated publish subject such as `orders.created`.
#[derive(Debug, PartialEq, Eq, Hash)]
pub struct Subject {
    raw: String,
    tokens: Vec<String>,
}

impl View for Subject {
    type V = SubjectView;

    closed spec fn view(&self) -> SubjectView {
        SubjectView { raw: self.raw@, tokens: views(self.tokens@) }
    }
}

impl Clone for Subject {
    fn clone(&self) -> (r: Self)
        ensures
            r@ == self@,
    {
        proof {
            use_type_invariant(self);
        }
        let raw = self.raw.clone();
        let tokens = clone_strings(&self.tokens);
        Subject { raw, tokens }
    }
}

/// A copy of a vector of strings.
pub fn clone_strings(v: &Vec<String>) -> (r: Vec<String>)
    ensures
        views(r@) == views(v@),
        r@.len() == v@.len(),
{
    let mut r: Vec<String> = Vec::new();
    let mut i: usize = 0;
    while i < v.len()
        invariant
            i <= v@.len(),
            r@.len() == i,
            forall|j: int| 0 <= j < i ==> #[trigger] r@[j]@ == v@[j]@,
        decreases v@.len() - i,
    {
        r.push(v[i].clone());
        i = i + 1;
    }
    assert(views(r@) =~= views(v@));
    r
}

impl Subject {
    #[verifier::type_invariant]
    closed spec fn inv(self) -> bool {
        subject_wf(self@)
    }

    /// Parses and validates a publish subject. Surrounding whitespace is
    /// trimmed; the result must be non-empty, at most 512 bytes, free of
    /// `*` and `>`, and made of at most 32 non-empty dot-separated tokens.
    pub fn parse(input: &str) -> (r: Result<Subject, CoreError>)
        ensures
            subject_parse_result(input@, r),
    {
        let trimmed = trim_str(input);
        let chars = chars_of(trimmed);
        if chars.len() == 0 {
            return Err(CoreError::InvalidSubject("subject cannot be empty".to_owned()));
        }
        let byte_len = trimmed.as_bytes().len();
        if byte_len > MAX_SUBJECT_LEN {
            return Err(CoreError::SubjectTooLong { len: byte_len, limit: MAX_SUBJECT_LEN });
        }
        if contains_char(chars.as_slice(), '*') || contains_char(chars.as_slice(), '>') {
            return Err(
                CoreError::InvalidSubject("publish subject cannot contain wildcards".to_owned()),
            );
        }
        let parts = split_chars(chars.as_slice(), '.');
        let ghost pv = parts@.map_values(|t: Vec<char>| t@);
        assert(pv.len() == parts@.len());
        if parts.len() > MAX_TOKENS {
            return Err(CoreError::InvalidSubject("subject exceeds max tokens".to_owned()));
        }
        let mut tokens: Vec<String> = Vec::new();
        let mut i: usize = 0;
        while i < parts.len()
            invariant
                i <= parts@.len(),
                pv == parts@.map_values(|t: Vec<char>| t@),
                pv == split_on(trim(input@), '.'),
                trim(input@).len() > 0,
                encode_utf8(trim(input@)).len() <= MAX_SUBJECT_LEN,
                !trim(input@).contains('*'),
                !trim(input@).contains('>'),
                pv.len() <= MAX_TOKENS,
                tokens@.len() == i,
                forall|j: int| 0 <= j < i ==> #[trigger] tokens@[j]@ == pv[j] && pv[j].len() > 0,
            decreases parts@.len() - i,
        {
            assert(pv[i as int] == parts@[i as int]@);
            if parts[i].len() == 0 {
                assert(pv[i as int].len() == 0);
                return Err(CoreError::InvalidSubject("subject contains empty token".to_owned()));
            }
            tokens.push(string_of(parts[i].as_slice()));
            i = i + 1;
        }
        assert(views(tokens@) =~= pv);
        let s = Subject { raw: trimmed.to_owned(), tokens };
        Ok(s)
    }

    /// The subject's text.
    pub fn as_str(&self) -> (r: &str)
        ensures
            r@ == self@.raw,
            subject_wf(self@),
    {
        proof {
            use_type_invariant(self);
        }
        self.raw.as_str()
    }

    /// The subject's tokens.
    pub fn tokens(&self) -> (r: &[String])
        ensures
            views(r@) == self@.tokens,
            subject_wf(self@),
    {
        proof {
            use_type_invariant(self);
        }
        self.tokens.as_slice()
    }

    /// The number of tokens.
    pub fn token_count(&self) -> (r: usize)
        ensures
            r == self@.tokens.len(),
            subject_wf(self@),
    {
        proof {
            use_type_invariant(self);
        }
        self.tokens.len()
    }

    /// Whether two subjects have the same text.
    pub fn same_as(&self, other: &Subject) -> (r: bool)
        ensures
            r == (self@ == other@),
    {
        proof {
            use_type_invariant(self);
            use_type_invariant(other);
        }
        str_eq(self.raw.as_str(), other.raw.as_str())
    }

    /// The subject's text, as `Display` writes it.
    pub fn to_string(&self) -> (r: String)
        ensures
            r@ == self@.raw,
    {
        self.raw.clone()
    }
}

} // verus!
