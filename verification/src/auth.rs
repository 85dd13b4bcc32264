//! Authentication of connections and their publish and subscribe permissions.

use vstd::prelude::*;

use crate::broker::BrokerCore;
use crate::command::{AuthInfo, AuthView};
use crate::config::{PermissionsConfig, ServerConfig, none_text};
use crate::delivery::DeliveryHandle;
use crate::error::{CoreError, ProtocolError, core_error_text};
use crate::subject::{Subject, parsed_subject, valid_subject};
use crate::subject_pattern::{PTok, PatternToken, SubjectPattern, parsed_pattern, pattern_matches, pattern_wf, valid_pattern};
use crate::text::{concat_text, str_eq, trim, utf8_text};

verus! {

/// Whether the allowed pattern tokens `a` cover the requested tokens `r`:
/// walking both, `>` in `a` covers whatever remains, `*` covers one
/// literal or `*` (but not `>`), a literal covers the same literal, and
/// otherwise both must end together.
pub open spec fn covers(a: Seq<PTok>, r: Seq<PTok>) -> bool
    decreases a.len(),
{
    if a.len() == 0 || r.len() == 0 {
        a.len() == 0 && r.len() == 0
    } else {
        match (a[0], r[0]) {
            (PTok::Gt, _) => true,
            (PTok::Star, PTok::Lit(_)) => covers(a.drop_first(), r.drop_first()),
            (PTok::Star, PTok::Star) => covers(a.drop_first(), r.drop_first()),
            (PTok::Star, PTok::Gt) => false,
            (PTok::Lit(x), PTok::Lit(y)) => x == y && covers(a.drop_first(), r.drop_first()),
            _ => false,
        }
    }
}

/// Covering is sound: when `allowed` covers `requested`, every subject the
/// requested pattern matches is matched by the allowed one.
pub proof fn lemma_covered_sound(a: Seq<PTok>, r: Seq<PTok>, s: Seq<Seq<char>>)
    requires
        covers(a, r),
        pattern_matches(r, s),
    ensures
        pattern_matches(a, s),
    decreases a.len(),
{
    if a.len() > 0 && r.len() > 0 {
        match (a[0], r[0]) {
            (PTok::Gt, _) => {},
            (PTok::Star, PTok::Lit(_)) => {
                lemma_covered_sound(a.drop_first(), r.drop_first(), s.drop_first());
            },
            (PTok::Star, PTok::Star) => {
                lemma_covered_sound(a.drop_first(), r.drop_first(), s.drop_first());
            },
            (PTok::Lit(x), PTok::Lit(y)) => {
                lemma_covered_sound(a.drop_first(), r.drop_first(), s.drop_first());
            },
            _ => {},
        }
    }
}

/// Covering is reflexive: every pattern covers itself, so a permission for
/// exactly the requested pattern allows it.
pub proof fn lemma_covers_itself(p: Seq<PTok>)
    ensures
        covers(p, p),
    decreases p.len(),
{
    if p.len() > 0 {
        lemma_covers_itself(p.drop_first());
    }
}

/// A subject the pattern `r` matches: each literal itself, `a` for `*`,
/// and one token `a` for `>`.
spec fn some_match(r: Seq<PTok>) -> Seq<Seq<char>>
    decreases r.len(),
{
    if r.len() == 0 {
        Seq::empty()
    } else {
        match r[0] {
            PTok::Gt => seq![seq!['a']],
            PTok::Star => seq![seq!['a']] + some_match(r.drop_first()),
            PTok::Lit(l) => seq![l] + some_match(r.drop_first()),
        }
    }
}

proof fn lemma_some_match(r: Seq<PTok>)
    ensures
        pattern_matches(r, some_match(r)),
        r.len() > 0 ==> some_match(r).len() > 0,
    decreases r.len(),
{
    if r.len() > 0 {
        lemma_some_match(r.drop_first());
        let s = some_match(r);
        match r[0] {
            PTok::Gt => {},
            PTok::Star => {
                assert(s.drop_first() =~= some_match(r.drop_first()));
            },
            PTok::Lit(l) => {
                assert(s.drop_first() =~= some_match(r.drop_first()));
            },
        }
    }
}

/// When `a` does not cover `r`, a subject that `r` matches and `a` does not.
proof fn lemma_uncovered_witness(a: Seq<PTok>, r: Seq<PTok>) -> (s: Seq<Seq<char>>)
    requires
        !covers(a, r),
    ensures
        pattern_matches(r, s),
        !pattern_matches(a, s),
    decreases a.len(),
{
    if a.len() == 0 || r.len() == 0 {
        lemma_some_match(r);
        some_match(r)
    } else {
        let a1 = a.drop_first();
        let r1 = r.drop_first();
        match (a[0], r[0]) {
            (PTok::Gt, _) => {
                assert(false);
                Seq::empty()
            },
            (PTok::Star, PTok::Gt) => {
                let one = seq![seq!['a']];
                if pattern_matches(a1, one) {
                    assert(one.drop_first() =~= Seq::<Seq<char>>::empty());
                    assert(a1.len() > 0);
                    assert(!pattern_matches(a1, Seq::<Seq<char>>::empty()));
                    assert(!pattern_matches(a, one));
                    one
                } else {
                    let two = seq![seq!['a'], seq!['a']];
                    assert(two.drop_first() =~= one);
                    assert(!pattern_matches(a, two));
                    two
                }
            },
            (PTok::Star, PTok::Lit(y)) => {
                let s1 = lemma_uncovered_witness(a1, r1);
                let s = seq![y] + s1;
                assert(s.drop_first() =~= s1);
                s
            },
            (PTok::Star, PTok::Star) => {
                let s1 = lemma_uncovered_witness(a1, r1);
                let s = seq![seq!['a']] + s1;
                assert(s.drop_first() =~= s1);
                s
            },
            (PTok::Lit(x), PTok::Lit(y)) => {
                if x == y {
                    let s1 = lemma_uncovered_witness(a1, r1);
                    let s = seq![y] + s1;
                    assert(s.drop_first() =~= s1);
                    s
                } else {
                    lemma_some_match(r1);
                    let s = seq![y] + some_match(r1);
                    assert(s.drop_first() =~= some_match(r1));
                    s
                }
            },
            (PTok::Lit(x), _) => {
                let t = x.push('a');
                assert(t.len() != x.len());
                lemma_some_match(r1);
                let s = seq![t] + some_match(r1);
                assert(s.drop_first() =~= some_match(r1));
                assert(s[0] == t);
                s
            },
        }
    }
}

/// Covering is complete: when every subject the requested pattern matches
/// is matched by the allowed one, the allowed pattern covers it. With
/// soundness, `covers` is exactly inclusion of the subjects matched.
pub proof fn lemma_covers_complete(a: Seq<PTok>, r: Seq<PTok>)
    requires
        forall|s: Seq<Seq<char>>| #[trigger] pattern_matches(r, s) ==> pattern_matches(a, s),
    ensures
        covers(a, r),
{
    if !covers(a, r) {
        let s = lemma_uncovered_witness(a, r);
        assert(pattern_matches(r, s));
    }
}

/// Whether the `allowed` pattern covers the `requested` one.
pub fn is_pattern_covered(requested: &SubjectPattern, allowed: &SubjectPattern) -> (r: bool)
    ensures
        r == covers(allowed@.tokens, requested@.tokens),
{
    let req = requested.tokens();
    let all = allowed.tokens();
    let ghost rs = requested@.tokens;
    let ghost als = allowed@.tokens;
    let mut i: usize = 0;
    proof {
        assert(rs.skip(0) =~= rs);
        assert(als.skip(0) =~= als);
    }
    while i < all.len() && i < req.len()
        invariant
            rs == crate::subject_pattern::tok_views(req@),
            als == crate::subject_pattern::tok_views(all@),
            rs == requested@.tokens,
            als == allowed@.tokens,
            rs.len() == req@.len(),
            als.len() == all@.len(),
            i <= rs.len(),
            i <= als.len(),
            covers(als, rs) == covers(als.skip(i as int), rs.skip(i as int)),
        decreases als.len() - i,
    {
        assert(als.skip(i as int)[0] == als[i as int]);
        assert(rs.skip(i as int)[0] == rs[i as int]);
        assert(als.skip(i as int).drop_first() =~= als.skip(i + 1));
        assert(rs.skip(i as int).drop_first() =~= rs.skip(i + 1));
        assert(als[i as int] == all@[i as int]@);
        assert(rs[i as int] == req@[i as int]@);
        match (&all[i], &req[i]) {
            (PatternToken::MultiWildcard, _) => {
                assert(als[i as int] == PTok::Gt);
                return true;
            },
            (PatternToken::SingleWildcard, PatternToken::Literal(_)) => {},
            (PatternToken::SingleWildcard, PatternToken::SingleWildcard) => {},
            (PatternToken::SingleWildcard, PatternToken::MultiWildcard) => {
                assert(als[i as int] == PTok::Star && rs[i as int] == PTok::Gt);
                return false;
            },
            (PatternToken::Literal(a), PatternToken::Literal(b)) => {
                if !str_eq(a.as_str(), b.as_str()) {
                    assert(als[i as int] == PTok::Lit(a@) && rs[i as int] == PTok::Lit(b@));
                    return false;
                }
            },
            (PatternToken::Literal(a), _) => {
                assert(als[i as int] == PTok::Lit(a@) && !(rs[i as int] is Lit));
                return false;
            },
        }
        i = i + 1;
    }
    proof {
        if i < als.len() {
            assert(rs.skip(i as int).len() == 0);
        }
        if i < rs.len() {
            assert(als.skip(i as int).len() == 0);
        }
    }
    i == all.len() && i == req.len()
}

/// The patterns a connection may publish and subscribe with; no patterns
/// means no restriction.
pub struct AuthContext {
    pub username: Option<String>,
    pub publish_patterns: Vec<SubjectPattern>,
    pub subscribe_patterns: Vec<SubjectPattern>,
}

/// Every text parses as a pattern, to the patterns given, in order.
pub open spec fn parsed_all(texts: Seq<String>, pats: Seq<SubjectPattern>) -> bool {
    &&& texts.len() == pats.len()
    &&& forall|i: int| 0 <= i < texts.len() ==> valid_pattern(trim(#[trigger] texts[i]@)) && pats[i]@ == parsed_pattern(texts[i]@)
}

/// Some text does not parse as a pattern.
pub open spec fn some_invalid(texts: Seq<String>) -> bool {
    exists|i: int| 0 <= i < texts.len() && !valid_pattern(trim(#[trigger] texts[i]@))
}

/// The position of the first text that does not parse as a pattern.
pub open spec fn first_invalid(texts: Seq<String>) -> int {
    choose|k: int| 0 <= k < texts.len() && !valid_pattern(trim(#[trigger] texts[k]@))
        && forall|j: int| 0 <= j < k ==> valid_pattern(trim(#[trigger] texts[j]@))
}

/// `m` refuses the pattern `text` of kind `what` (`publish` or
/// `subscribe`), with the reason the pattern did not parse.
pub open spec fn invalid_pattern_message(what: Seq<char>, text: Seq<char>, m: Seq<char>) -> bool {
    exists|reason: String| m == "invalid "@ + what + " pattern '"@ + text + "': "@
        + #[trigger] core_error_text(CoreError::InvalidSubjectPattern(reason))
}

/// The message refusing the first invalid pattern of `texts`.
pub open spec fn refuses_first_invalid(texts: Seq<String>, what: Seq<char>, m: Seq<char>) -> bool {
    &&& some_invalid(texts)
    &&& invalid_pattern_message(what, texts[first_invalid(texts)]@, m)
}

/// Parses every pattern text; the first invalid one fails, with a message
/// naming its kind (`what`), the text and the reason.
fn parse_patterns(texts: &Vec<String>, what: &str) -> (r: Result<Vec<SubjectPattern>, String>)
    ensures
        match r {
            Ok(v) => parsed_all(texts@, v@),
            Err(m) => refuses_first_invalid(texts@, what@, m@),
        },
{
    let mut out: Vec<SubjectPattern> = Vec::new();
    let mut i: usize = 0;
    while i < texts.len()
        invariant
            i <= texts@.len(),
            out@.len() == i,
            forall|j: int| 0 <= j < i ==> valid_pattern(trim(#[trigger] texts@[j]@)) && out@[j]@ == parsed_pattern(texts@[j]@),
        decreases texts@.len() - i,
    {
        match SubjectPattern::parse(texts[i].as_str()) {
            Ok(p) => {
                out.push(p);
            },
            Err(e) => {
                let a = concat_text("invalid ", what);
                let b = concat_text(a.as_str(), " pattern '");
                let c = concat_text(b.as_str(), texts[i].as_str());
                let d = concat_text(c.as_str(), "': ");
                let m = e.to_string();
                let msg = concat_text(d.as_str(), m.as_str());
                proof {
                    let k = first_invalid(texts@);
                    assert(!valid_pattern(trim(texts@[i as int]@)));
                    assert(0 <= k < texts@.len() && !valid_pattern(trim(texts@[k]@)));
                    if k < i {
                        assert(valid_pattern(trim(texts@[k]@)));
                    } else if k > i {
                        assert(valid_pattern(trim(texts@[i as int]@)));
                    }
                    match e {
                        CoreError::InvalidSubjectPattern(reason) => {
                            assert(msg@ =~= "invalid "@ + what@ + " pattern '"@ + texts@[k]@ + "': "@
                                + core_error_text(CoreError::InvalidSubjectPattern(reason)));
                        },
                        _ => {},
                    }
                }
                return Err(msg);
            },
        }
        i = i + 1;
    }
    Ok(out)
}

/// `m` refuses the first invalid publish pattern, or, where all publish
/// patterns are valid, the first invalid subscribe pattern.
pub open spec fn perm_refusal(perms: &PermissionsConfig, m: Seq<char>) -> bool {
    if some_invalid(perms.publish@) {
        refuses_first_invalid(perms.publish@, "publish"@, m)
    } else {
        refuses_first_invalid(perms.subscribe@, "subscribe"@, m)
    }
}

impl AuthContext {
    /// No restriction and no user.
    pub fn unrestricted() -> (r: AuthContext)
        ensures
            r.username is None,
            r.publish_patterns@.len() == 0,
            r.subscribe_patterns@.len() == 0,
    {
        AuthContext { username: None, publish_patterns: Vec::new(), subscribe_patterns: Vec::new() }
    }

    /// The context of a user with the given permissions; an invalid pattern
    /// fails.
    pub fn from_permissions(username: String, perms: &PermissionsConfig) -> (r: Result<AuthContext, String>)
        ensures
            match r {
                Ok(c) => c.username == Some(username) && parsed_all(perms.publish@, c.publish_patterns@)
                    && parsed_all(perms.subscribe@, c.subscribe_patterns@),
                Err(m) => perm_refusal(perms, m@),
            },
    {
        let publish_patterns = match parse_patterns(&perms.publish, "publish") {
            Ok(v) => v,
            Err(e) => {
                return Err(e);
            },
        };
        let subscribe_patterns = match parse_patterns(&perms.subscribe, "subscribe") {
            Ok(v) => v,
            Err(e) => {
                return Err(e);
            },
        };
        Ok(AuthContext { username: Some(username), publish_patterns, subscribe_patterns })
    }

    /// Whether publishing is unrestricted: no publish patterns.
    pub fn is_publish_unrestricted(&self) -> (r: bool)
        ensures
            r == (self.publish_patterns@.len() == 0),
    {
        self.publish_patterns.len() == 0
    }

    /// Whether publishing to the subject is allowed: no publish patterns,
    /// or one of them matches the subject.
    pub fn can_publish(&self, subject: &Subject) -> (r: bool)
        ensures
            r == (self.publish_patterns@.len() == 0 || exists|i: int|
                0 <= i < self.publish_patterns@.len() && pattern_matches(
                    #[trigger] self.publish_patterns@[i]@.tokens,
                    subject@.tokens,
                )),
    {
        if self.publish_patterns.len() == 0 {
            return true;
        }
        let mut i: usize = 0;
        while i < self.publish_patterns.len()
            invariant
                i <= self.publish_patterns@.len(),
                forall|j: int| 0 <= j < i ==> !pattern_matches(#[trigger] self.publish_patterns@[j]@.tokens, subject@.tokens),
            decreases self.publish_patterns@.len() - i,
        {
            if self.publish_patterns[i].matches(subject) {
                return true;
            }
            i = i + 1;
        }
        false
    }

    /// Whether subscribing with the pattern is allowed: no subscribe
    /// patterns, or one of them covers it.
    pub fn can_subscribe(&self, pattern: &SubjectPattern) -> (r: bool)
        ensures
            r == (self.subscribe_patterns@.len() == 0 || exists|i: int|
                0 <= i < self.subscribe_patterns@.len() && covers(
                    #[trigger] self.subscribe_patterns@[i]@.tokens,
                    pattern@.tokens,
                )),
    {
        if self.subscribe_patterns.len() == 0 {
            return true;
        }
        let mut i: usize = 0;
        while i < self.subscribe_patterns.len()
            invariant
                i <= self.subscribe_patterns@.len(),
                forall|j: int| 0 <= j < i ==> !covers(#[trigger] self.subscribe_patterns@[j]@.tokens, pattern@.tokens),
            decreases self.subscribe_patterns@.len() - i,
        {
            if is_pattern_covered(pattern, &self.subscribe_patterns[i]) {
                return true;
            }
            i = i + 1;
        }
        false
    }
}

/// Permission law: a subscription the context allows only ever receives
/// subjects that some allowed subscribe pattern matches.
pub proof fn lemma_subscribe_permission_sound(ctx: &AuthContext, requested: Seq<PTok>, s: Seq<Seq<char>>)
    requires
        ctx.subscribe_patterns@.len() > 0,
        exists|i: int| 0 <= i < ctx.subscribe_patterns@.len() && covers(#[trigger] ctx.subscribe_patterns@[i]@.tokens, requested),
        pattern_matches(requested, s),
    ensures
        exists|i: int| 0 <= i < ctx.subscribe_patterns@.len() && pattern_matches(#[trigger] ctx.subscribe_patterns@[i]@.tokens, s),
{
    let i = choose|i: int| 0 <= i < ctx.subscribe_patterns@.len() && covers(#[trigger] ctx.subscribe_patterns@[i]@.tokens, requested);
    lemma_covered_sound(ctx.subscribe_patterns@[i]@.tokens, requested, s);
}

/// `token`.
pub open spec fn token_text() -> Seq<char> {
    seq!['t', 'o', 'k', 'e', 'n']
}

/// `userpass`.
pub open spec fn userpass_text() -> Seq<char> {
    seq!['u', 's', 'e', 'r', 'p', 'a', 's', 's']
}

/// The token the configuration expects: its token, or the empty text.
pub open spec fn expected_token(config: &ServerConfig) -> Seq<char> {
    match config.auth.token {
        Some(t) => t@,
        None => Seq::empty(),
    }
}

/// Some configured user has this username and password.
pub open spec fn user_matches(config: &ServerConfig, i: int, u: Seq<char>, p: Seq<char>) -> bool {
    config.auth.users@[i].username@ == u && config.auth.users@[i].password@ == p
}

/// The position of the first configured user with this username and password.
pub open spec fn first_user(config: &ServerConfig, u: Seq<char>, p: Seq<char>) -> int {
    choose|i: int| 0 <= i < config.auth.users@.len() && #[trigger] user_matches(config, i, u, p)
        && forall|j: int| 0 <= j < i ==> !user_matches(config, j, u, p)
}

/// What authenticating a connection gives: with authentication off, or of
/// an unknown type, no restriction; with `token`, no restriction for the
/// expected token and a refusal otherwise; with `userpass`, the context of
/// the first user whose username and password match, and a refusal when
/// none does or no username and password were sent.
pub open spec fn auth_outcome(auth: AuthView, config: &ServerConfig, r: Result<AuthContext, String>) -> bool {
    if config.auth.auth_type@ == none_text() {
        r matches Ok(c) && c.username is None && c.publish_patterns@.len() == 0 && c.subscribe_patterns@.len() == 0
    } else if config.auth.auth_type@ == token_text() {
        match auth {
            AuthView::Token(t) if t == expected_token(config) => r matches Ok(c) && c.username is None
                && c.publish_patterns@.len() == 0 && c.subscribe_patterns@.len() == 0,
            _ => r matches Err(m) && m@ == "authentication failed: invalid token"@,
        }
    } else if config.auth.auth_type@ == userpass_text() {
        match auth {
            AuthView::UserPass(u, p) => if exists|i: int| 0 <= i < config.auth.users@.len() && #[trigger] user_matches(config, i, u, p) {
                let i = first_user(config, u, p);
                let perms = config.auth.users@[i].permissions;
                match r {
                    Ok(c) => (c.username matches Some(n) && n@ == u) && parsed_all(perms.publish@, c.publish_patterns@) && parsed_all(perms.subscribe@, c.subscribe_patterns@),
                    Err(m) => perm_refusal(&perms, m@),
                }
            } else {
                r matches Err(m) && m@ == "authentication failed: invalid username or password"@
            },
            _ => r matches Err(m) && m@ == "authentication failed: username/password required"@,
        }
    } else {
        r matches Ok(c) && c.username is None && c.publish_patterns@.len() == 0 && c.subscribe_patterns@.len() == 0
    }
}

/// Authenticates the credentials of a CONNECT against the configuration.
pub fn validate_auth(auth: &AuthInfo, config: &ServerConfig) -> (r: Result<AuthContext, String>)
    ensures
        auth_outcome(auth@, config, r),
{
    proof {
        reveal_strlit("token");
        reveal_strlit("userpass");
        assert("token"@ =~= token_text());
        assert("userpass"@ =~= userpass_text());
    }
    if !config.auth.is_enabled() {
        return Ok(AuthContext::unrestricted());
    }
    if str_eq(config.auth.auth_type.as_str(), "token") {
        let expected: &str = match &config.auth.token {
            Some(t) => t.as_str(),
            None => "",
        };
        proof {
            reveal_strlit("");
            assert(""@ =~= Seq::<char>::empty());
        }
        match auth {
            AuthInfo::Token(t) => {
                if str_eq(t.as_str(), expected) {
                    Ok(AuthContext::unrestricted())
                } else {
                    Err("authentication failed: invalid token".to_owned())
                }
            },
            _ => Err("authentication failed: invalid token".to_owned()),
        }
    } else if str_eq(config.auth.auth_type.as_str(), "userpass") {
        match auth {
            AuthInfo::UserPass { username, password } => {
                let users = &config.auth.users;
                let mut i: usize = 0;
                while i < users.len()
                    invariant
                        i <= users@.len(),
                        users == &config.auth.users,
                        config.auth.auth_type@ == userpass_text(),
                        config.auth.auth_type@ != none_text(),
                        config.auth.auth_type@ != token_text(),
                        auth@ == AuthView::UserPass(username@, password@),
                        forall|j: int| 0 <= j < i ==> !user_matches(config, j, username@, password@),
                    decreases users@.len() - i,
                {
                    if str_eq(users[i].username.as_str(), username.as_str()) && str_eq(users[i].password.as_str(), password.as_str()) {
                        proof {
                            assert(user_matches(config, i as int, username@, password@));
                            let k = first_user(config, username@, password@);
                            if k < i {
                                assert(!user_matches(config, k, username@, password@));
                            } else if k > i {
                                assert(!user_matches(config, i as int, username@, password@));
                            }
                        }
                        return AuthContext::from_permissions(username.clone(), &users[i].permissions);
                    }
                    i = i + 1;
                }
                Err("authentication failed: invalid username or password".to_owned())
            },
            _ => Err("authentication failed: username/password required".to_owned()),
        }
    } else {
        Ok(AuthContext::unrestricted())
    }
}

/// Whether a publish to the subject bytes is allowed: always when
/// publishing is unrestricted; otherwise the bytes must be UTF-8 text that
/// parses as a subject that the context lets the connection publish to.
pub fn publish_allowed<D: DeliveryHandle>(broker: &mut BrokerCore<D>, auth_ctx: &AuthContext, subject_bytes: &[u8]) -> (r: Result<bool, ProtocolError>)
    requires
        old(broker).wf(),
    ensures
        final(broker).wf(),
        final(broker).subs() == old(broker).subs(),
        final(broker).router_view() == old(broker).router_view(),
        final(broker).groups() == old(broker).groups(),
        final(broker).counters() == old(broker).counters(),
        final(broker).next_id() == old(broker).next_id(),
        final(broker).sent_log() == old(broker).sent_log(),
        final(broker).outcome_log() == old(broker).outcome_log(),
        r matches Ok(b) && b == (auth_ctx.publish_patterns@.len() == 0 || {
            &&& vstd::utf8::valid_utf8(subject_bytes@)
            &&& valid_subject(trim(vstd::utf8::decode_utf8(subject_bytes@)))
            &&& exists|i: int| 0 <= i < auth_ctx.publish_patterns@.len() && pattern_matches(
                #[trigger] auth_ctx.publish_patterns@[i]@.tokens,
                parsed_subject(vstd::utf8::decode_utf8(subject_bytes@)).tokens,
            )
        }),
{
    if auth_ctx.is_publish_unrestricted() {
        return Ok(true);
    }
    let text = match utf8_text(subject_bytes) {
        Some(t) => t,
        None => {
            return Ok(false);
        },
    };
    let subject = match broker.parse_subject(text.as_str()) {
        Ok(s) => s,
        Err(_) => {
            return Ok(false);
        },
    };
    Ok(auth_ctx.can_publish(&subject))
}

} // verus!
