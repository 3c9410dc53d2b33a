//! Authentication: API keys and HS256 bearer tokens.

use vstd::prelude::*;
use vstd::string::*;
use crate::keyed::{first_key, has_key, keyed_map, lemma_keyed_map_index, lemma_keyed_push, lemma_keyed_update, unique_keys};
use crate::embedding::text_starts_with;
use crate::leader_election::seconds_of;
use crate::text::{owned, push_str, split_on, split_once_char, split_once_spec, starts_with, trim_spec, trim_text, lemma_split_on_step};
use jsonwebtoken::errors::Error as JwtError;

verus! {

/// Claims extracted from a successful authentication.
#[derive(Debug, Clone)]
pub struct Claims {
    pub sub: String,
    pub role: String,
}

/// The value of [`Claims`].
pub struct ClaimsView {
    pub sub: Seq<char>,
    pub role: Seq<char>,
}

impl View for Claims {
    type V = ClaimsView;

    open spec fn view(&self) -> ClaimsView {
        ClaimsView { sub: self.sub@, role: self.role@ }
    }
}

impl Claims {
    /// A copy of these claims.
    pub fn duplicate(&self) -> (r: Self)
        ensures
            r@ == self@,
    {
        Claims { sub: self.sub.clone(), role: self.role.clone() }
    }
}

/// Authentication error types.
#[derive(Debug)]
pub enum AuthError {
    MissingCredentials,
    InvalidCredentials(String),
    ExpiredToken,
}

/// The human-readable message of an authentication error.
pub open spec fn auth_error_message(e: &AuthError) -> Seq<char> {
    match e {
        AuthError::MissingCredentials => "missing credentials"@,
        AuthError::InvalidCredentials(m) => "invalid credentials: "@ + m@,
        AuthError::ExpiredToken => "token expired"@,
    }
}

impl AuthError {
    /// The human-readable message of this error.
    pub fn to_string(&self) -> (r: String)
        ensures
            r@ == auth_error_message(self),
    {
        match self {
            AuthError::MissingCredentials => owned("missing credentials"),
            AuthError::InvalidCredentials(m) => {
                let mut s = owned("invalid credentials: ");
                push_str(&mut s, m.as_str());
                s
            },
            AuthError::ExpiredToken => owned("token expired"),
        }
    }
}

/// The value of an [`AuthError`].
pub enum AuthErrorView {
    MissingCredentials,
    InvalidCredentials(Seq<char>),
    ExpiredToken,
}

impl View for AuthError {
    type V = AuthErrorView;

    open spec fn view(&self) -> AuthErrorView {
        match self {
            AuthError::MissingCredentials => AuthErrorView::MissingCredentials,
            AuthError::InvalidCredentials(m) => AuthErrorView::InvalidCredentials(m@),
            AuthError::ExpiredToken => AuthErrorView::ExpiredToken,
        }
    }
}

/// The value of an authentication outcome.
pub open spec fn outcome_view(r: Result<Claims, AuthError>) -> Result<ClaimsView, AuthErrorView> {
    match r {
        Ok(c) => Ok(c@),
        Err(e) => Err(e@),
    }
}

/// The text of an optional header value.
pub open spec fn text_option(o: Option<&str>) -> Option<Seq<char>> {
    match o {
        Some(t) => Some(t@),
        None => None,
    }
}

/// What a table of API keys answers for the `x-api-key` value `key`.
pub open spec fn api_key_outcome(keys: Map<Seq<char>, ClaimsView>, key: Option<Seq<char>>) -> Result<
    ClaimsView,
    AuthErrorView,
> {
    match key {
        None => Err(AuthErrorView::MissingCredentials),
        Some(k) => if keys.contains_key(k) {
            Ok(keys[k])
        } else {
            Err(AuthErrorView::InvalidCredentials("invalid API key"@))
        },
    }
}

/// An outcome a bearer-token check can give for the `Authorization` value
/// `authorization`: `MissingCredentials` without a `Bearer ` token, and
/// otherwise claims or `InvalidCredentials`.
pub open spec fn bearer_outcome_possible(
    secret: Seq<char>,
    authorization: Option<Seq<char>>,
    o: Result<ClaimsView, AuthErrorView>,
) -> bool {
    match authorization {
        None => o == Err::<ClaimsView, AuthErrorView>(AuthErrorView::MissingCredentials),
        Some(h) => match bearer_token_spec(h) {
            None => o == Err::<ClaimsView, AuthErrorView>(AuthErrorView::MissingCredentials),
            Some(t) => match o {
                Ok(c) => hs256_signature_ok(t, secret) && c == token_claims(t),
                Err(e) => e is InvalidCredentials,
            },
        },
    }
}

/// Whether the HS256 signature of JWT `token` verifies under the key made of
/// the bytes of `key`.
pub uninterp spec fn hs256_signature_ok(token: Seq<char>, key: Seq<char>) -> bool;

/// The text of field `field` of the JSON payload of JWT `token`, `None` when
/// the field is missing or not a string.
pub uninterp spec fn jwt_text_claim(token: Seq<char>, field: Seq<char>) -> Option<Seq<char>>;

/// The claims an accepted token grants: its `sub` and `role` text fields,
/// defaulting to `unknown` and `user`.
pub open spec fn token_claims(token: Seq<char>) -> ClaimsView {
    ClaimsView {
        sub: match jwt_text_claim(token, "sub"@) {
            Some(s) => s,
            None => "unknown"@,
        },
        role: match jwt_text_claim(token, "role"@) {
            Some(s) => s,
            None => "user"@,
        },
    }
}

/// The values of a list of key/claims pairs.
pub open spec fn key_views(s: Seq<(String, Claims)>) -> Seq<(Seq<char>, ClaimsView)> {
    s.map_values(|p: (String, Claims)| (p.0@, p.1@))
}

/// The claims of each key, a later pair for the same key winning.
pub open spec fn key_table(s: Seq<(String, Claims)>) -> Map<Seq<char>, ClaimsView> {
    seconds_of(keyed_map(key_views(s), first_key()))
}

/// API key authentication: a table from key to the claims it grants.
pub struct ApiKeyAuth {
    keys: Vec<(String, Claims)>,
}

impl ApiKeyAuth {
    /// No key appears twice.
    pub closed spec fn wf(&self) -> bool {
        unique_keys(key_views(self.keys@), first_key())
    }

    /// The claims each key grants.
    pub closed spec fn keys(&self) -> Map<Seq<char>, ClaimsView> {
        key_table(self.keys@)
    }

    /// Create from a list of key/claims pairs (a later pair for the same key
    /// replaces an earlier one).
    pub fn new(keys: Vec<(String, Claims)>) -> (r: Self)
        ensures
            r.wf(),
            r.keys() == key_table(keys@),
    {
        let mut table: Vec<(String, Claims)> = Vec::new();
        let ghost input = key_views(keys@);
        let n = keys.len();
        let mut i: usize = 0;
        proof {
            assert(key_views(table@) =~= Seq::<(Seq<char>, ClaimsView)>::empty());
            assert(input.take(0) =~= Seq::<(Seq<char>, ClaimsView)>::empty());
        }
        while i < n
            invariant
                n == keys.len(),
                i <= n,
                input == key_views(keys@),
                unique_keys(key_views(table@), first_key()),
                keyed_map(key_views(table@), first_key()) == keyed_map(input.take(i as int), first_key()),
            decreases n - i,
        {
            let k = keys[i].0.clone();
            let c = keys[i].1.duplicate();
            let ghost x = (k@, c@);
            assert(x == input[i as int]);
            let ghost tv = key_views(table@);
            match find_key(&table, &k) {
                Some(j) => {
                    table.set(j, (k, c));
                    proof {
                        assert(key_views(table@) =~= tv.update(j as int, x));
                        lemma_keyed_update(tv, first_key(), j as int, x);
                    }
                },
                None => {
                    table.push((k, c));
                    proof {
                        assert(key_views(table@) =~= tv.push(x));
                        lemma_keyed_push(tv, first_key(), x);
                    }
                },
            }
            proof {
                assert(input.take(i + 1).drop_last() =~= input.take(i as int));
            }
            i = i + 1;
        }
        proof {
            assert(input.take(n as int) =~= input);
        }
        ApiKeyAuth { keys: table }
    }

    /// Authenticate the value of the `x-api-key` header (`None` when the
    /// request has no such header, or one that is not text).
    pub fn authenticate_key(&self, key: Option<&str>) -> (r: Result<Claims, AuthError>)
        requires
            self.wf(),
        ensures
            key is None ==> r matches Err(AuthError::MissingCredentials),
            key matches Some(k) ==> (if self.keys().contains_key(k@) {
                r matches Ok(c) && c@ == self.keys()[k@]
            } else {
                r matches Err(AuthError::InvalidCredentials(m)) && m@ == "invalid API key"@
            }),
            outcome_view(r) == api_key_outcome(self.keys(), text_option(key)),
    {
        match key {
            None => Err(AuthError::MissingCredentials),
            Some(k) => {
                let name = owned(k);
                proof {
                    lemma_keyed_map_index(key_views(self.keys@), first_key());
                }
                match find_key(&self.keys, &name) {
                    Some(j) => {
                        proof {
                            assert(key_views(self.keys@)[j as int] == (self.keys@[j as int].0@, self.keys@[j as int].1@));
                        }
                        Ok(self.keys[j].1.duplicate())
                    },
                    None => {
                        proof {
                            if has_key(key_views(self.keys@), first_key(), k@) {
                                let j = choose|j: int| 0 <= j < key_views(self.keys@).len() && first_key()(#[trigger] key_views(self.keys@)[j]) == k@;
                                assert(self.keys@[j].0@ == k@);
                            }
                        }
                        Err(AuthError::InvalidCredentials(owned("invalid API key")))
                    },
                }
            },
        }
    }
}

/// The position of the pair with key `k`, if any.
fn find_key(v: &Vec<(String, Claims)>, k: &String) -> (r: Option<usize>)
    ensures
        match r {
            Some(i) => i < v.len() && v@[i as int].0@ == k@,
            None => forall|j: int| 0 <= j < v.len() ==> #[trigger] v@[j].0@ != k@,
        },
{
    let n = v.len();
    let mut i: usize = 0;
    while i < n
        invariant
            n == v.len(),
            i <= n,
            forall|j: int| 0 <= j < i ==> #[trigger] v@[j].0@ != k@,
        decreases n - i,
    {
        if v[i].0 == *k {
            return Some(i);
        }
        i = i + 1;
    }
    None
}

/// The token of an `Authorization` header value of the form `Bearer <token>`.
pub open spec fn bearer_token_spec(header: Seq<char>) -> Option<Seq<char>> {
    if header.len() >= 7 && header.subrange(0, 7) == "Bearer "@ {
        Some(header.subrange(7, header.len() as int))
    } else {
        None
    }
}

/// The token of an `Authorization` header value: the text after a leading
/// `Bearer `, or `None` when the header is absent or lacks that prefix.
pub fn bearer_token(header: Option<&str>) -> (r: Option<&str>)
    ensures
        header is None ==> r is None,
        header matches Some(h) ==> match bearer_token_spec(h@) {
            Some(t) => r matches Some(x) && x@ == t,
            None => r is None,
        },
{
    match header {
        None => None,
        Some(h) => {
            let prefix = "Bearer ";
            proof {
                reveal_strlit("Bearer ");
            }
            let len = h.unicode_len();
            if len < 7 {
                return None;
            }
            let mut i: usize = 0;
            while i < 7
                invariant
                    i <= 7,
                    header == Some(h),
                    len == h@.len(),
                    len >= 7,
                    prefix@ == "Bearer "@,
                    prefix@.len() == 7,
                    forall|j: int| 0 <= j < i ==> h@[j] == prefix@[j],
                decreases 7 - i,
            {
                if h.get_char(i) != prefix.get_char(i) {
                    proof {
                        assert(h@.subrange(0, 7)[i as int] != "Bearer "@[i as int]);
                        assert(h@.subrange(0, 7) != "Bearer "@);
                        assert(bearer_token_spec(h@) is None);
                    }
                    return None;
                }
                i = i + 1;
            }
            proof {
                assert(h@.subrange(0, 7) =~= "Bearer "@);
            }
            Some(h.substring_char(7, len))
        },
    }
}

/// The claims of a verified token, from its `sub` and `role` fields when
/// they are text: `sub` defaults to `unknown` and `role` to `user`.
pub fn claims_from_fields(sub: Option<String>, role: Option<String>) -> (r: Claims)
    ensures
        r.sub@ == (match sub {
            Some(s) => s@,
            None => "unknown"@,
        }),
        r.role@ == (match role {
            Some(s) => s@,
            None => "user"@,
        }),
{
    let sub = match sub {
        Some(s) => s,
        None => owned("unknown"),
    };
    let role = match role {
        Some(s) => s,
        None => owned("user"),
    };
    Claims { sub, role }
}

/// The error type of the `jsonwebtoken` crate, carried through unread.
#[verifier::external_type_specification]
#[verifier::external_body]
pub struct ExJwtError(JwtError);

/// The text of an optional string.
pub open spec fn string_option(o: Option<String>) -> Option<Seq<char>> {
    match o {
        Some(s) => Some(s@),
        None => None,
    }
}

/// `jsonwebtoken::decode` of `token` as HS256 with the bytes of `secret` as
/// the key and the default validation of `Validation::new(Algorithm::HS256)`,
/// which checks the signature and that the `exp` claim lies in the future;
/// on success, the `sub` and `role` fields of the decoded claims, each read
/// as text with `serde_json`'s `Value` index and `as_str`. An accepted token
/// has a signature that verifies under the key, and the fields are those of
/// its payload. Whether a token with a good signature is accepted is not
/// stated: that depends on the clock.
#[verifier::external_body]
fn decode_hs256(token: &str, secret: &str) -> (r: Result<(Option<String>, Option<String>), JwtError>)
    ensures
        r matches Ok((sub, role)) ==> hs256_signature_ok(token@, secret@)
            && string_option(sub) == jwt_text_claim(token@, "sub"@)
            && string_option(role) == jwt_text_claim(token@, "role"@),
{
    jsonwebtoken::decode::<serde_json::Value>(
        token,
        &jsonwebtoken::DecodingKey::from_secret(secret.as_bytes()),
        &jsonwebtoken::Validation::new(jsonwebtoken::Algorithm::HS256),
    ).map(|data| (
        data.claims["sub"].as_str().map(|s| s.to_string()),
        data.claims["role"].as_str().map(|s| s.to_string()),
    ))
}

/// The text of a `jsonwebtoken` error (its `Display`). Nothing is stated of it.
#[verifier::external_body]
fn jwt_error_text(e: &JwtError) -> String {
    e.to_string()
}

/// HS256 bearer-token authentication with a shared secret.
pub struct JwtAuth {
    secret: String,
}

impl JwtAuth {
    /// The shared secret.
    pub closed spec fn secret_spec(&self) -> Seq<char> {
        self.secret@
    }

    /// Create from a pre-set secret.
    pub fn new(secret: String) -> (r: Self)
        ensures
            r.secret_spec() == secret@,
    {
        JwtAuth { secret }
    }

    /// Authenticate the value of the `Authorization` header (`None` when the
    /// request has no such header, or one that is not text).
    ///
    /// Without a `Bearer ` token the result is `MissingCredentials`. The token
    /// is then decoded and checked with the secret; a refused token gives
    /// `InvalidCredentials`, and an accepted one the claims of its `sub` and
    /// `role` fields (defaulting to `unknown` and `user`).
    pub fn authenticate_bearer(&self, authorization: Option<&str>) -> (r: Result<Claims, AuthError>)
        ensures
            match authorization {
                None => r matches Err(AuthError::MissingCredentials),
                Some(h) => bearer_token_spec(h@) is None ==> r matches Err(AuthError::MissingCredentials),
            },
            r is Err ==> r matches Err(AuthError::MissingCredentials) || r matches Err(AuthError::InvalidCredentials(_)),
            bearer_outcome_possible(self.secret_spec(), text_option(authorization), outcome_view(r)),
    {
        let token = match bearer_token(authorization) {
            Some(t) => t,
            None => {
                return Err(AuthError::MissingCredentials);
            },
        };
        match decode_hs256(token, self.secret.as_str()) {
            Ok((sub, role)) => {
                proof {
                    reveal_strlit("unknown");
                    reveal_strlit("user");
                }
                Ok(claims_from_fields(sub, role))
            },
            Err(e) => Err(AuthError::InvalidCredentials(jwt_error_text(&e))),
        }
    }
}

/// The key and claims that an entry `key:role` of an API key list grants,
/// with white space around key and role removed; `None` for an entry
/// without `:`.
pub open spec fn key_entry(piece: Seq<char>) -> Option<(Seq<char>, ClaimsView)> {
    match split_once_spec(piece, ':') {
        Some((k, r)) => Some((trim_spec(k), ClaimsView { sub: trim_spec(k), role: trim_spec(r) })),
        None => None,
    }
}

/// The entries that the pieces of an API key list declare, in order.
pub open spec fn key_entries(pieces: Seq<Seq<char>>) -> Seq<(Seq<char>, ClaimsView)>
    decreases pieces.len(),
{
    if pieces.len() == 0 {
        Seq::empty()
    } else {
        let e = key_entries(pieces.drop_last());
        match key_entry(pieces.last()) {
            Some(x) => e.push(x),
            None => e,
        }
    }
}

/// The entries that an API key list `key1:role1,key2:role2` declares, in
/// order.
pub open spec fn api_key_list(csv: Seq<char>) -> Seq<(Seq<char>, ClaimsView)> {
    key_entries(split_on(csv, ','))
}

/// The claims each key of an API key list grants, a later entry for the
/// same key winning.
pub open spec fn api_key_table(csv: Seq<char>) -> Map<Seq<char>, ClaimsView> {
    seconds_of(keyed_map(api_key_list(csv), first_key()))
}

/// Appends the entry that one piece of an API key list declares, if any.
fn push_key_entry(out: &mut Vec<(String, Claims)>, piece: &str)
    ensures
        key_views(final(out)@) == match key_entry(piece@) {
            Some(x) => key_views(old(out)@).push(x),
            None => key_views(old(out)@),
        },
{
    match split_once_char(piece, ':') {
        Some((k, r)) => {
            let key = trim_text(k);
            let role = trim_text(r);
            let ghost before = key_views(out@);
            out.push((owned(key), Claims { sub: owned(key), role: owned(role) }));
            proof {
                assert(key_views(out@) =~= before.push((key@, ClaimsView { sub: key@, role: role@ })));
            }
        },
        None => {},
    }
}

/// The entries of an API key list `key1:role1,key2:role2`, in order: the
/// list is cut at each `,`, each piece at its first `:` into key and role,
/// both trimmed of white space, and pieces without `:` are skipped.
pub fn parse_api_keys(csv: &str) -> (r: Vec<(String, Claims)>)
    ensures
        key_views(r@) == api_key_list(csv@),
{
    let n = csv.unicode_len();
    let mut out: Vec<(String, Claims)> = Vec::new();
    let mut start: usize = 0;
    let mut i: usize = 0;
    let ghost mut done: Seq<Seq<char>> = Seq::empty();
    proof {
        assert(csv@.take(0) =~= Seq::<char>::empty());
        assert(csv@.subrange(0, 0) =~= Seq::<char>::empty());
        assert(split_on(csv@.take(0), ',') =~= done.push(csv@.subrange(0, 0)));
        assert(key_views(out@) =~= key_entries(done));
    }
    while i < n
        invariant
            n == csv@.len(),
            start <= i <= n,
            split_on(csv@.take(i as int), ',') == done.push(csv@.subrange(start as int, i as int)),
            key_views(out@) == key_entries(done),
        decreases n - i,
    {
        proof {
            lemma_split_on_step(csv@, ',', i as int);
        }
        if csv.get_char(i) == ',' {
            let piece = csv.substring_char(start, i);
            push_key_entry(&mut out, piece);
            proof {
                let d2 = done.push(piece@);
                assert(d2.drop_last() =~= done);
                done = d2;
                assert(csv@.subrange(i + 1, i + 1) =~= Seq::<char>::empty());
                assert(split_on(csv@.take(i + 1), ',') =~= done.push(csv@.subrange(i + 1, i + 1)));
            }
            start = i + 1;
        } else {
            proof {
                assert(csv@.subrange(start as int, i + 1) =~= csv@.subrange(start as int, i as int).push(csv@[i as int]));
                assert(split_on(csv@.take(i + 1), ',') =~= done.push(csv@.subrange(start as int, i + 1)));
            }
        }
        i = i + 1;
    }
    let piece = csv.substring_char(start, n);
    push_key_entry(&mut out, piece);
    proof {
        let d2 = done.push(piece@);
        assert(d2.drop_last() =~= done);
        assert(csv@.take(n as int) =~= csv@);
        assert(split_on(csv@, ',') == d2);
    }
    out
}

impl ApiKeyAuth {
    /// Create from an API key list `key1:role1,key2:role2` (see
    /// [`parse_api_keys`]); each key's claims name the key as subject.
    pub fn from_csv(csv: &str) -> (r: Self)
        ensures
            r.wf(),
            r.keys() == api_key_table(csv@),
    {
        let keys = parse_api_keys(csv);
        ApiKeyAuth::new(keys)
    }
}

/// The secret used when none is configured.
pub open spec fn default_jwt_secret() -> Seq<char> {
    "dev-secret-do-not-use-in-prod"@
}

impl JwtAuth {
    /// Create from a configured secret, or the development default when none
    /// is configured.
    pub fn from_secret_setting(secret: Option<String>) -> (r: Self)
        ensures
            r.secret_spec() == match secret {
                Some(s) => s@,
                None => default_jwt_secret(),
            },
    {
        match secret {
            Some(s) => JwtAuth::new(s),
            None => JwtAuth::new(owned("dev-secret-do-not-use-in-prod")),
        }
    }
}

/// One way of authenticating a request.
pub enum AuthMethod {
    /// By the `x-api-key` header.
    ApiKey(ApiKeyAuth),
    /// By an HS256 bearer token in the `Authorization` header.
    Jwt(JwtAuth),
}

/// The method's own invariant holds.
pub open spec fn method_wf(m: AuthMethod) -> bool {
    match m {
        AuthMethod::ApiKey(a) => a.wf(),
        AuthMethod::Jwt(_) => true,
    }
}

/// An outcome that method `m` can give for a request with the given
/// `x-api-key` and `Authorization` values.
pub open spec fn method_outcome_possible(
    m: AuthMethod,
    api_key: Option<Seq<char>>,
    authorization: Option<Seq<char>>,
    o: Result<ClaimsView, AuthErrorView>,
) -> bool {
    match m {
        AuthMethod::ApiKey(a) => o == api_key_outcome(a.keys(), api_key),
        AuthMethod::Jwt(j) => bearer_outcome_possible(j.secret_spec(), authorization, o),
    }
}

/// The answer of outcomes tried in turn: the first success, else the last
/// failure, and `MissingCredentials` when nothing was tried.
pub open spec fn first_success(outs: Seq<Result<ClaimsView, AuthErrorView>>) -> Result<
    ClaimsView,
    AuthErrorView,
>
    decreases outs.len(),
{
    if outs.len() == 0 {
        Err(AuthErrorView::MissingCredentials)
    } else if outs[0] is Ok || outs.len() == 1 {
        outs[0]
    } else {
        first_success(outs.drop_first())
    }
}

/// `outs` are the outcomes of trying the methods `ms` in turn until one
/// succeeds: one outcome per method tried, all failures but the last, and
/// the methods not tried only after a success.
pub open spec fn tried_in_turn(
    ms: Seq<AuthMethod>,
    api_key: Option<Seq<char>>,
    authorization: Option<Seq<char>>,
    outs: Seq<Result<ClaimsView, AuthErrorView>>,
) -> bool {
    &&& outs.len() <= ms.len()
    &&& forall|i: int| 0 <= i < outs.len() ==> method_outcome_possible(ms[i], api_key, authorization, #[trigger] outs[i])
    &&& forall|i: int| 0 <= i < outs.len() - 1 ==> #[trigger] outs[i] is Err
    &&& outs.len() < ms.len() ==> outs.len() > 0 && outs.last() is Ok
}

/// When all outcomes but the last failed, trying them in turn answers the
/// last one.
proof fn lemma_first_success_last(outs: Seq<Result<ClaimsView, AuthErrorView>>)
    requires
        outs.len() > 0,
        forall|i: int| 0 <= i < outs.len() - 1 ==> #[trigger] outs[i] is Err,
    ensures
        first_success(outs) == outs.last(),
    decreases outs.len(),
{
    if outs.len() > 1 {
        let t = outs.drop_first();
        assert forall|i: int| 0 <= i < t.len() - 1 implies #[trigger] t[i] is Err by {
            assert(t[i] == outs[i + 1]);
        }
        lemma_first_success_last(t);
        assert(outs[0] is Err);
    }
}

/// Tries several authentication methods in turn, accepting the first success.
pub struct MultiAuth {
    providers: Vec<AuthMethod>,
}

impl MultiAuth {
    /// Every method's invariant holds.
    pub closed spec fn wf(&self) -> bool {
        forall|j: int| 0 <= j < self.providers.len() ==> method_wf(#[trigger] self.providers@[j])
    }

    /// The methods, in the order they are tried.
    pub closed spec fn methods(&self) -> Seq<AuthMethod> {
        self.providers@
    }

    /// Create from the methods to try, in order.
    pub fn new(providers: Vec<AuthMethod>) -> (r: Self)
        requires
            forall|j: int| 0 <= j < providers.len() ==> method_wf(#[trigger] providers@[j]),
        ensures
            r.wf(),
            r.methods() == providers@,
    {
        MultiAuth { providers }
    }

    /// Authenticate a request with the given `x-api-key` and `Authorization`
    /// header values: the methods are tried in turn, the first success is the
    /// answer, and when all fail the last failure is (`MissingCredentials`
    /// when there is no method).
    pub fn authenticate(&self, api_key: Option<&str>, authorization: Option<&str>) -> (r: Result<Claims, AuthError>)
        requires
            self.wf(),
        ensures
            exists|outs: Seq<Result<ClaimsView, AuthErrorView>>|
                tried_in_turn(self.methods(), text_option(api_key), text_option(authorization), outs)
                    && #[trigger] first_success(outs) == outcome_view(r),
    {
        let ghost key = text_option(api_key);
        let ghost authz = text_option(authorization);
        let mut last = AuthError::MissingCredentials;
        let ghost mut outs: Seq<Result<ClaimsView, AuthErrorView>> = Seq::empty();
        let n = self.providers.len();
        let mut i: usize = 0;
        while i < n
            invariant
                n == self.providers.len(),
                self.wf(),
                i <= n,
                key == text_option(api_key),
                authz == text_option(authorization),
                outs.len() == i,
                forall|j: int| 0 <= j < i ==> method_outcome_possible(self.providers@[j], key, authz, #[trigger] outs[j]),
                forall|j: int| 0 <= j < i ==> #[trigger] outs[j] is Err,
                i == 0 ==> last@ == AuthErrorView::MissingCredentials,
                i > 0 ==> outs.last() == Err::<ClaimsView, AuthErrorView>(last@),
            decreases n - i,
        {
            let o = match &self.providers[i] {
                AuthMethod::ApiKey(a) => a.authenticate_key(api_key),
                AuthMethod::Jwt(j) => j.authenticate_bearer(authorization),
            };
            proof {
                assert(method_wf(self.providers@[i as int]));
                outs = outs.push(outcome_view(o));
            }
            match o {
                Ok(c) => {
                    proof {
                        lemma_first_success_last(outs);
                        assert(tried_in_turn(self.providers@, key, authz, outs));
                    }
                    return Ok(c);
                },
                Err(e) => {
                    last = e;
                },
            }
            i = i + 1;
        }
        proof {
            if n > 0 {
                lemma_first_success_last(outs);
            }
            assert(tried_in_turn(self.providers@, key, authz, outs));
        }
        Err(last)
    }
}

/// `m` checks API keys against `table`.
pub open spec fn is_api_key_method(m: AuthMethod, table: Map<Seq<char>, ClaimsView>) -> bool {
    m matches AuthMethod::ApiKey(a) && a.keys() == table
}

/// `m` checks bearer tokens with `secret`.
pub open spec fn is_jwt_method(m: AuthMethod, secret: Seq<char>) -> bool {
    m matches AuthMethod::Jwt(j) && j.secret_spec() == secret
}

/// `a` and `b` hold the same text.
fn same_text(a: &str, b: &str) -> (r: bool)
    ensures
        r == (a@ == b@),
{
    let r = a.unicode_len() == b.unicode_len() && starts_with(a, b);
    proof {
        if a@.len() == b@.len() {
            assert(a@.subrange(0, b@.len() as int) =~= a@);
        }
    }
    r
}

/// The authentication that an authentication mode setting asks for:
/// `api-key` (the keys of the list `api_keys`), `jwt` (the given secret, or
/// the development default), or `both` (API key first, then bearer token);
/// any other setting, or none, means no authentication.
pub fn create_auth_provider(mode: Option<&str>, api_keys: &str, jwt_secret: Option<String>) -> (r: Option<
    MultiAuth,
>)
    ensures
        ({
            let secret = match jwt_secret {
                Some(s) => s@,
                None => default_jwt_secret(),
            };
            match text_option(mode) {
                Some(m) if m == "api-key"@ => r is Some && r->0.wf() && r->0.methods().len() == 1
                    && is_api_key_method(r->0.methods()[0], api_key_table(api_keys@)),
                Some(m) if m == "jwt"@ => r is Some && r->0.wf() && r->0.methods().len() == 1
                    && is_jwt_method(r->0.methods()[0], secret),
                Some(m) if m == "both"@ => r is Some && r->0.wf() && r->0.methods().len() == 2
                    && is_api_key_method(r->0.methods()[0], api_key_table(api_keys@))
                    && is_jwt_method(r->0.methods()[1], secret),
                _ => r is None,
            }
        }),
{
    match mode {
        None => None,
        Some(m) => {
            if same_text(m, "api-key") {
                let a = ApiKeyAuth::from_csv(api_keys);
                let mut v: Vec<AuthMethod> = Vec::new();
                v.push(AuthMethod::ApiKey(a));
                Some(MultiAuth::new(v))
            } else if same_text(m, "jwt") {
                let mut v: Vec<AuthMethod> = Vec::new();
                v.push(AuthMethod::Jwt(JwtAuth::from_secret_setting(jwt_secret)));
                Some(MultiAuth::new(v))
            } else if same_text(m, "both") {
                let a = ApiKeyAuth::from_csv(api_keys);
                let mut v: Vec<AuthMethod> = Vec::new();
                v.push(AuthMethod::ApiKey(a));
                v.push(AuthMethod::Jwt(JwtAuth::from_secret_setting(jwt_secret)));
                Some(MultiAuth::new(v))
            } else {
                None
            }
        },
    }
}

/// Requests to these paths need no authentication: the health endpoints
/// (every path under `/health`) and `/metrics`.
pub fn is_public_path(path: &str) -> (r: bool)
    ensures
        r == (text_starts_with(path@, "/health"@) || path@ == "/metrics"@),
{
    starts_with(path, "/health") || same_text(path, "/metrics")
}

impl AuthError {
    /// What a refused request is answered (with status 401): the kind of
    /// failure, without its details.
    pub fn public_message(&self) -> (r: String)
        ensures
            r@ == match self {
                AuthError::MissingCredentials => "missing credentials"@,
                AuthError::InvalidCredentials(_) => "invalid credentials"@,
                AuthError::ExpiredToken => "token expired"@,
            },
    {
        match self {
            AuthError::MissingCredentials => owned("missing credentials"),
            AuthError::InvalidCredentials(_) => owned("invalid credentials"),
            AuthError::ExpiredToken => owned("token expired"),
        }
    }
}

} // verus!
