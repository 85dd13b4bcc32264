//! Text helpers: whitespace trimming, splitting on a delimiter, conversion
//! between strings, characters and bytes, and decimal rendering of numbers.

use vstd::prelude::*;
use vstd::utf8::*;

verus! {

/// Unicode `White_Space`, the property that `char::is_whitespace` and
/// `str::trim` test.
pub open spec fn is_ws(c: char) -> bool {
    let u = c as u32;
    ||| (0x09 <= u && u <= 0x0D)
    ||| u == 0x20
    ||| u == 0x85
    ||| u == 0xA0
    ||| u == 0x1680
    ||| (0x2000 <= u && u <= 0x200A)
    ||| u == 0x2028
    ||| u == 0x2029
    ||| u == 0x202F
    ||| u == 0x205F
    ||| u == 0x3000
}

/// `s` without its leading whitespace.
pub open spec fn trim_start(s: Seq<char>) -> Seq<char>
    decreases s.len(),
{
    if s.len() > 0 && is_ws(s[0]) {
        trim_start(s.drop_first())
    } else {
        s
    }
}

/// `s` without its trailing whitespace.
pub open spec fn trim_end(s: Seq<char>) -> Seq<char>
    decreases s.len(),
{
    if s.len() > 0 && is_ws(s.last()) {
        trim_end(s.drop_last())
    } else {
        s
    }
}

/// `s` without leading and trailing whitespace.
pub open spec fn trim(s: Seq<char>) -> Seq<char> {
    trim_end(trim_start(s))
}

proof fn lemma_trim_start_front(s: Seq<char>)
    ensures
        trim_start(s).len() == 0 || !is_ws(trim_start(s)[0]),
    decreases s.len(),
{
    if s.len() > 0 && is_ws(s[0]) {
        lemma_trim_start_front(s.drop_first());
    }
}

proof fn lemma_trim_end_prefix(s: Seq<char>)
    ensures
        trim_end(s).len() <= s.len(),
        forall|i: int| 0 <= i < trim_end(s).len() ==> #[trigger] trim_end(s)[i] == s[i],
        trim_end(s).len() == 0 || !is_ws(trim_end(s).last()),
    decreases s.len(),
{
    if s.len() > 0 && is_ws(s.last()) {
        lemma_trim_end_prefix(s.drop_last());
    }
}

/// Trimming trimmed text changes nothing.
pub proof fn lemma_trim_idempotent(s: Seq<char>)
    ensures
        trim(trim(s)) == trim(s),
{
    let t = trim_start(s);
    let u = trim_end(t);
    lemma_trim_start_front(s);
    lemma_trim_end_prefix(t);
    if u.len() > 0 {
        assert(u[0] == t[0]);
    }
    assert(trim_start(u) == u);
    assert(trim_end(u) == u);
}

/// The pieces of `s` between occurrences of `d`, as `str::split` yields them:
/// an empty input gives one empty piece, and adjacent delimiters give empty pieces.
pub open spec fn split_on(s: Seq<char>, d: char) -> Seq<Seq<char>>
    decreases s.len(),
{
    if s.len() == 0 {
        seq![Seq::<char>::empty()]
    } else {
        let r = split_on(s.drop_last(), d);
        if s.last() == d {
            r.push(Seq::<char>::empty())
        } else {
            r.update(r.len() - 1, r.last().push(s.last()))
        }
    }
}

/// The pieces of `s` joined with `d` between them.
pub open spec fn join_on(parts: Seq<Seq<char>>, d: char) -> Seq<char>
    decreases parts.len(),
{
    if parts.len() == 0 {
        Seq::<char>::empty()
    } else if parts.len() == 1 {
        parts[0]
    } else {
        join_on(parts.drop_last(), d) + seq![d] + parts.last()
    }
}

/// The views of a sequence of strings.
pub open spec fn views(v: Seq<String>) -> Seq<Seq<char>> {
    v.map_values(|t: String| t@)
}

/// The decimal digits of `n`, most significant first, without leading zeros.
pub open spec fn decimal(n: nat) -> Seq<char>
    decreases n,
{
    if n < 10 {
        seq![digit_char(n)]
    } else {
        decimal(n / 10) + seq![digit_char(n % 10)]
    }
}

/// The character of the decimal digit `d`.
pub open spec fn digit_char(d: nat) -> char {
    if d == 0 {
        '0'
    } else if d == 1 {
        '1'
    } else if d == 2 {
        '2'
    } else if d == 3 {
        '3'
    } else if d == 4 {
        '4'
    } else if d == 5 {
        '5'
    } else if d == 6 {
        '6'
    } else if d == 7 {
        '7'
    } else if d == 8 {
        '8'
    } else {
        '9'
    }
}

/// What `String::from_utf8_lossy` makes of `bytes`: each invalid sequence
/// becomes U+FFFD.
pub uninterp spec fn utf8_lossy(bytes: Seq<u8>) -> Seq<char>;

/// `str::trim`: the sub-slice of `s` without leading and trailing Unicode
/// whitespace. The contract states the documented result over `is_ws`.
#[verifier::external_body]
pub(crate) fn trim_str(s: &str) -> (r: &str)
    ensures
        r@ == trim(s@),
{
    s.trim()
}

/// `FromIterator<char> for String`: the string of the given characters.
#[verifier::external_body]
pub(crate) fn string_of(chars: &[char]) -> (r: String)
    ensures
        r@ == chars@,
{
    chars.iter().collect()
}

/// `String::from_utf8_lossy`: decodes `bytes` as UTF-8, replacing invalid
/// sequences. Its documentation promises that valid UTF-8 comes back
/// unchanged; what replaces invalid input is left to the name `utf8_lossy`.
#[verifier::external_body]
pub(crate) fn lossy_string(bytes: &[u8]) -> (r: String)
    ensures
        r@ == utf8_lossy(bytes@),
        valid_utf8(bytes@) ==> r@ == decode_utf8(bytes@),
{
    String::from_utf8_lossy(bytes).into_owned()
}

/// The text `a` followed by the text `b`.
pub fn concat_text(a: &str, b: &str) -> (r: String)
    ensures
        r@ == a@ + b@,
{
    let mut out: Vec<char> = Vec::new();
    push_str_chars(&mut out, a);
    push_str_chars(&mut out, b);
    string_of(out.as_slice())
}

/// The text `prefix` followed by the decimal digits of `n`.
pub fn text_then_number(prefix: &str, n: u64) -> (r: String)
    ensures
        r@ == prefix@ + decimal(n as nat),
{
    let mut out: Vec<char> = Vec::new();
    push_str_chars(&mut out, prefix);
    let digits = decimal_chars(n);
    push_chars(&mut out, digits.as_slice());
    string_of(out.as_slice())
}

/// `std::str::from_utf8`: the text the bytes encode, when they are valid
/// UTF-8, and nothing otherwise, as its documentation states.
#[verifier::external_body]
pub(crate) fn utf8_text(bytes: &[u8]) -> (r: Option<String>)
    ensures
        match r {
            Some(s) => valid_utf8(bytes@) && s@ == decode_utf8(bytes@),
            None => !valid_utf8(bytes@),
        },
{
    match std::str::from_utf8(bytes) {
        Ok(s) => Some(s.to_owned()),
        Err(_) => None,
    }
}

/// The text that lossy decoding makes of `bytes`: the characters they
/// encode when they are valid UTF-8, and otherwise the lossy result.
pub open spec fn lossy_text(bytes: Seq<u8>) -> Seq<char> {
    if valid_utf8(bytes) {
        decode_utf8(bytes)
    } else {
        utf8_lossy(bytes)
    }
}

/// Decodes `bytes` as UTF-8 text, replacing invalid sequences.
pub fn decode_text(bytes: &[u8]) -> (r: String)
    ensures
        r@ == lossy_text(bytes@),
{
    lossy_string(bytes)
}

/// The bytes of a text decode back to the text.
pub proof fn lemma_text_roundtrip(s: Seq<char>)
    ensures
        lossy_text(encode_utf8(s)) == s,
{
    encode_utf8_valid_utf8(s);
    encode_utf8_decode_utf8(s);
}

/// The characters of `s`, in order.
pub fn chars_of(s: &str) -> (r: Vec<char>)
    ensures
        r@ == s@,
{
    let mut r: Vec<char> = Vec::new();
    for c in it: s.chars()
        invariant
            r@ == it.seq().take(it.index() as int),
            it.seq() == s@,
    {
        r.push(c);
        assert(it.seq().take(it.index() + 1) == it.seq().take(it.index() as int).push(c));
    }
    r
}

/// Whether two character sequences are equal.
pub fn chars_eq(a: &[char], b: &[char]) -> (r: bool)
    ensures
        r == (a@ == b@),
{
    if a.len() != b.len() {
        return false;
    }
    let mut i: usize = 0;
    while i < a.len()
        invariant
            a@.len() == b@.len(),
            i <= a@.len(),
            forall|j: int| 0 <= j < i ==> a@[j] == b@[j],
        decreases a@.len() - i,
    {
        if a[i] != b[i] {
            return false;
        }
        i = i + 1;
    }
    assert(a@ =~= b@);
    true
}

/// Whether two strings hold the same characters.
pub fn str_eq(a: &str, b: &str) -> (r: bool)
    ensures
        r == (a@ == b@),
{
    let x = chars_of(a);
    let y = chars_of(b);
    chars_eq(x.as_slice(), y.as_slice())
}

/// Whether `c` occurs in `s`.
pub fn contains_char(s: &[char], c: char) -> (r: bool)
    ensures
        r == s@.contains(c),
{
    let mut i: usize = 0;
    while i < s.len()
        invariant
            i <= s@.len(),
            forall|j: int| 0 <= j < i ==> s@[j] != c,
        decreases s@.len() - i,
    {
        if s[i] == c {
            return true;
        }
        i = i + 1;
    }
    false
}

/// Splits `s` on the delimiter `d`.
pub fn split_chars(s: &[char], d: char) -> (r: Vec<Vec<char>>)
    ensures
        r@.map_values(|t: Vec<char>| t@) == split_on(s@, d),
{
    let mut done: Vec<Vec<char>> = Vec::new();
    let mut cur: Vec<char> = Vec::new();
    let mut i: usize = 0;
    while i < s.len()
        invariant
            i <= s@.len(),
            done@.map_values(|t: Vec<char>| t@).push(cur@) == split_on(s@.subrange(0, i as int), d),
        decreases s@.len() - i,
    {
        let ghost before = done@.map_values(|t: Vec<char>| t@).push(cur@);
        assert(s@.subrange(0, i + 1).drop_last() == s@.subrange(0, i as int));
        if s[i] == d {
            let finished = cur;
            done.push(finished);
            cur = Vec::new();
            assert(done@.map_values(|t: Vec<char>| t@).push(cur@) == before.push(Seq::<char>::empty()));
        } else {
            cur.push(s[i]);
            assert(done@.map_values(|t: Vec<char>| t@).push(cur@) == before.update(
                before.len() - 1,
                before.last().push(s@[i as int]),
            ));
        }
        i = i + 1;
    }
    assert(s@.subrange(0, s@.len() as int) == s@);
    let ghost prev = done@;
    done.push(cur);
    assert(done@.drop_last() == prev);
    proof {
        r_eq(done@);
    }
    done
}

proof fn r_eq(v: Seq<Vec<char>>)
    ensures
        v.map_values(|t: Vec<char>| t@) == v.drop_last().map_values(|t: Vec<char>| t@).push(
            v.last()@,
        ) || v.len() == 0,
{
    if v.len() > 0 {
        assert(v.map_values(|t: Vec<char>| t@) =~= v.drop_last().map_values(|t: Vec<char>| t@).push(
            v.last()@,
        ));
    }
}

/// The decimal rendering of `n`.
pub fn decimal_chars(n: u64) -> (r: Vec<char>)
    ensures
        r@ == decimal(n as nat),
    decreases n,
{
    if n < 10 {
        let mut r = Vec::new();
        r.push(digit(n));
        r
    } else {
        let mut r = decimal_chars(n / 10);
        r.push(digit(n % 10));
        r
    }
}

/// The character of a decimal digit.
pub fn digit(d: u64) -> (c: char)
    requires
        d < 10,
    ensures
        c == digit_char(d as nat),
{
    if d == 0 {
        '0'
    } else if d == 1 {
        '1'
    } else if d == 2 {
        '2'
    } else if d == 3 {
        '3'
    } else if d == 4 {
        '4'
    } else if d == 5 {
        '5'
    } else if d == 6 {
        '6'
    } else if d == 7 {
        '7'
    } else if d == 8 {
        '8'
    } else {
        '9'
    }
}

/// Appends the characters of `s` to `out`.
pub fn push_str_chars(out: &mut Vec<char>, s: &str)
    ensures
        final(out)@ == old(out)@ + s@,
{
    let cs = chars_of(s);
    push_chars(out, cs.as_slice());
}

/// Appends `cs` to `out`.
pub fn push_chars(out: &mut Vec<char>, cs: &[char])
    ensures
        final(out)@ == old(out)@ + cs@,
{
    let ghost start = out@;
    let mut i: usize = 0;
    while i < cs.len()
        invariant
            i <= cs@.len(),
            out@ == start + cs@.subrange(0, i as int),
        decreases cs@.len() - i,
    {
        out.push(cs[i]);
        i = i + 1;
        assert(cs@.subrange(0, i as int) == cs@.subrange(0, i - 1) + seq![cs@[i - 1]]);
    }
    assert(cs@.subrange(0, cs@.len() as int) == cs@);
}


/// Splitting never yields zero pieces.
pub proof fn lemma_split_nonempty(s: Seq<char>, d: char)
    ensures
        split_on(s, d).len() >= 1,
    decreases s.len(),
{
    if s.len() > 0 {
        lemma_split_nonempty(s.drop_last(), d);
    }
}

/// Joining the pieces of a split gives back the text.
pub proof fn lemma_join_split(s: Seq<char>, d: char)
    ensures
        join_on(split_on(s, d), d) == s,
    decreases s.len(),
{
    if s.len() > 0 {
        let t = s.drop_last();
        let r = split_on(t, d);
        lemma_join_split(t, d);
        lemma_split_nonempty(t, d);
        if s.last() == d {
            let r2 = r.push(Seq::<char>::empty());
            assert(r2.drop_last() == r);
            assert(join_on(r2, d) == join_on(r, d) + seq![d] + Seq::<char>::empty());
            assert(s =~= t + seq![d]);
        } else {
            let r2 = r.update(r.len() - 1, r.last().push(s.last()));
            lemma_join_last(r, s.last(), d);
            assert(s =~= t.push(s.last()));
        }
    } else {
        assert(split_on(s, d) =~= seq![Seq::<char>::empty()]);
    }
}

/// Extending the last piece extends the join.
proof fn lemma_join_last(r: Seq<Seq<char>>, c: char, d: char)
    requires
        r.len() >= 1,
    ensures
        join_on(r.update(r.len() - 1, r.last().push(c)), d) == join_on(r, d).push(c),
{
    let r2 = r.update(r.len() - 1, r.last().push(c));
    if r.len() == 1 {
        assert(r2[0] == r[0].push(c));
    } else {
        assert(r2.drop_last() =~= r.drop_last());
        assert(join_on(r2, d) == join_on(r.drop_last(), d) + seq![d] + r.last().push(c));
        assert(join_on(r2, d) =~= join_on(r, d).push(c));
    }
}

/// Texts with the same pieces are the same text.
pub proof fn lemma_split_injective(a: Seq<char>, b: Seq<char>, d: char)
    requires
        split_on(a, d) == split_on(b, d),
    ensures
        a == b,
{
    lemma_join_split(a, d);
    lemma_join_split(b, d);
}
} // verus!
