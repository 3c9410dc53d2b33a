use serde_json::Value;
use tesseract::auth::{
    bearer_token, claims_from_fields, create_auth_provider, is_public_path, parse_api_keys, ApiKeyAuth, AuthError, AuthMethod, Claims,
    JwtAuth, MultiAuth,
};

fn token_for(claims: Value, secret: &str) -> String {
    jsonwebtoken::encode(
        &jsonwebtoken::Header::default(),
        &claims,
        &jsonwebtoken::EncodingKey::from_secret(secret.as_bytes()),
    )
    .expect("failed to create test JWT")
}

fn claims_object(fields: &[(&str, Value)]) -> Value {
    let mut m = serde_json::Map::new();
    for (k, v) in fields {
        m.insert(k.to_string(), v.clone());
    }
    Value::Object(m)
}

fn standard_claims() -> Value {
    claims_object(&[
        ("sub", Value::from("user123")),
        ("role", Value::from("admin")),
        ("exp", Value::from(9999999999u64)),
    ])
}

#[test]
fn api_key_auth_valid_key() {
    let keys = vec![
        ("sk-abc".to_string(), Claims { sub: "sk-abc".to_string(), role: "admin".to_string() }),
        ("sk-def".to_string(), Claims { sub: "sk-def".to_string(), role: "reader".to_string() }),
    ];
    let auth = ApiKeyAuth::new(keys);

    let result = auth.authenticate_key(Some("sk-abc"));
    assert!(result.is_ok());
    let claims = result.unwrap();
    assert_eq!(claims.sub, "sk-abc");
    assert_eq!(claims.role, "admin");
}

#[test]
fn api_key_auth_invalid_key() {
    let keys = vec![("sk-abc".to_string(), Claims { sub: "sk-abc".to_string(), role: "admin".to_string() })];
    let auth = ApiKeyAuth::new(keys);

    let result = auth.authenticate_key(Some("sk-wrong"));
    assert!(result.is_err());
    assert!(matches!(result.unwrap_err(), AuthError::InvalidCredentials(_)));
}

#[test]
fn api_key_auth_missing_header() {
    let keys = vec![("sk-abc".to_string(), Claims { sub: "sk-abc".to_string(), role: "admin".to_string() })];
    let auth = ApiKeyAuth::new(keys);

    let result = auth.authenticate_key(None);
    assert!(result.is_err());
    assert!(matches!(result.unwrap_err(), AuthError::MissingCredentials));
}

#[test]
fn jwt_auth_valid_token() {
    let token = token_for(standard_claims(), "test-secret");

    let auth = JwtAuth::new("test-secret".to_string());
    let header = format!("Bearer {token}");

    let result = auth.authenticate_bearer(Some(&header));
    assert!(result.is_ok());
    let claims = result.unwrap();
    assert_eq!(claims.sub, "user123");
    assert_eq!(claims.role, "admin");
}

#[test]
fn jwt_auth_invalid_secret() {
    let token = token_for(standard_claims(), "real-secret");

    let auth = JwtAuth::new("wrong-secret".to_string());
    let header = format!("Bearer {token}");

    let result = auth.authenticate_bearer(Some(&header));
    assert!(result.is_err());
    assert!(matches!(result.unwrap_err(), AuthError::InvalidCredentials(_)));
}

#[test]
fn jwt_auth_missing_bearer_prefix() {
    let auth = JwtAuth::new("test-secret".to_string());

    let result = auth.authenticate_bearer(Some("no-bearer-token"));
    assert!(result.is_err());
    assert!(matches!(result.unwrap_err(), AuthError::MissingCredentials));
}

#[test]
fn jwt_claims_default_when_fields_missing() {
    let token = token_for(claims_object(&[("exp", Value::from(9999999999u64)), ("role", Value::from(7))]), "s");
    let header = format!("Bearer {token}");
    let claims = JwtAuth::new("s".to_string()).authenticate_bearer(Some(&header)).unwrap();
    assert_eq!(claims.sub, "unknown");
    assert_eq!(claims.role, "user");
}

#[test]
fn jwt_expired_token_is_refused() {
    let token = token_for(claims_object(&[("sub", Value::from("u")), ("exp", Value::from(1u64))]), "s");
    let header = format!("Bearer {token}");
    let err = JwtAuth::new("s".to_string()).authenticate_bearer(Some(&header)).unwrap_err();
    assert!(matches!(&err, AuthError::InvalidCredentials(m) if !m.is_empty()));
    assert!(err.to_string().starts_with("invalid credentials: "));
}

#[test]
fn bearer_token_extraction() {
    assert_eq!(bearer_token(None), None);
    assert_eq!(bearer_token(Some("Bearer abc")), Some("abc"));
    assert_eq!(bearer_token(Some("Bearer ")), Some(""));
    assert_eq!(bearer_token(Some("bearer abc")), None);
    assert_eq!(bearer_token(Some("Bearer")), None);
    assert_eq!(bearer_token(Some("Bearer é☃")), Some("é☃"));
}

#[test]
fn claims_from_fields_defaults() {
    let c = claims_from_fields(None, None);
    assert_eq!((c.sub.as_str(), c.role.as_str()), ("unknown", "user"));
    let c = claims_from_fields(Some("a".into()), Some("b".into()));
    assert_eq!((c.sub.as_str(), c.role.as_str()), ("a", "b"));
}

#[test]
fn later_key_replaces_earlier() {
    let keys = vec![
        ("k".to_string(), Claims { sub: "k".into(), role: "reader".into() }),
        ("k".to_string(), Claims { sub: "k".into(), role: "admin".into() }),
    ];
    let auth = ApiKeyAuth::new(keys);
    assert_eq!(auth.authenticate_key(Some("k")).unwrap().role, "admin");
}

#[test]
fn auth_error_messages() {
    assert_eq!(AuthError::MissingCredentials.to_string(), "missing credentials");
    assert_eq!(AuthError::InvalidCredentials("invalid API key".into()).to_string(), "invalid credentials: invalid API key");
    assert_eq!(AuthError::ExpiredToken.to_string(), "token expired");
}

#[test]
fn multi_auth_accepts_first_success() {
    let keys = vec![("multi-key".to_string(), Claims { sub: "multi-key".to_string(), role: "admin".to_string() })];
    let multi = MultiAuth::new(vec![
        AuthMethod::ApiKey(ApiKeyAuth::new(keys)),
        AuthMethod::Jwt(JwtAuth::new("multi-secret".to_string())),
    ]);

    let result = multi.authenticate(Some("multi-key"), None);
    assert!(result.is_ok());
    let claims = result.unwrap();
    assert_eq!(claims.sub, "multi-key");
    assert_eq!(claims.role, "admin");
}

#[test]
fn multi_auth_fails_when_all_fail() {
    let keys = vec![("key".to_string(), Claims { sub: "key".to_string(), role: "admin".to_string() })];
    let multi = MultiAuth::new(vec![
        AuthMethod::ApiKey(ApiKeyAuth::new(keys)),
        AuthMethod::Jwt(JwtAuth::new("secret".to_string())),
    ]);

    let result = multi.authenticate(None, None);
    assert!(result.is_err());
}

#[test]
fn create_auth_provider_defaults_to_none() {
    assert!(create_auth_provider(None, "", None).is_none());
    assert!(create_auth_provider(Some("none"), "k:r", None).is_none());
    assert!(create_auth_provider(Some("API-KEY"), "k:r", None).is_none());
}

#[test]
fn multi_auth_reports_last_failure() {
    let keys = vec![("key".to_string(), Claims { sub: "key".to_string(), role: "admin".to_string() })];
    let multi = MultiAuth::new(vec![
        AuthMethod::ApiKey(ApiKeyAuth::new(keys)),
        AuthMethod::Jwt(JwtAuth::new("secret".to_string())),
    ]);
    // Wrong key, no bearer token: the bearer check's failure is the answer.
    assert!(matches!(multi.authenticate(Some("nope"), None), Err(AuthError::MissingCredentials)));
    let only_keys = MultiAuth::new(vec![AuthMethod::ApiKey(ApiKeyAuth::from_csv("key:admin"))]);
    assert!(matches!(only_keys.authenticate(Some("nope"), None),
        Err(AuthError::InvalidCredentials(m)) if m == "invalid API key"));
    assert!(matches!(MultiAuth::new(vec![]).authenticate(Some("key"), None), Err(AuthError::MissingCredentials)));
}

#[test]
fn multi_auth_falls_through_to_bearer_token() {
    let token = token_for(standard_claims(), "s3");
    let header = format!("Bearer {token}");
    let multi = create_auth_provider(Some("both"), "other:reader", Some("s3".to_string())).unwrap();
    let claims = multi.authenticate(Some("wrong"), Some(&header)).unwrap();
    assert_eq!((claims.sub.as_str(), claims.role.as_str()), ("user123", "admin"));
    let claims = multi.authenticate(Some("other"), Some(&header)).unwrap();
    assert_eq!((claims.sub.as_str(), claims.role.as_str()), ("other", "reader"));
}

#[test]
fn create_auth_provider_modes() {
    let token = token_for(standard_claims(), "dev-secret-do-not-use-in-prod");
    let header = format!("Bearer {token}");
    let jwt = create_auth_provider(Some("jwt"), "k:admin", None).unwrap();
    assert_eq!(jwt.authenticate(Some("k"), Some(&header)).unwrap().sub, "user123");
    assert!(matches!(jwt.authenticate(Some("k"), None), Err(AuthError::MissingCredentials)));
    let keys = create_auth_provider(Some("api-key"), "k:admin", None).unwrap();
    assert_eq!(keys.authenticate(Some("k"), Some(&header)).unwrap().role, "admin");
    assert!(keys.authenticate(None, Some(&header)).is_err());
}

#[test]
fn api_key_list_parsing() {
    let parsed = parse_api_keys(" sk-1 : admin ,sk-2:reader,,broken, sk-1:writer:x");
    let got: Vec<(String, String, String)> =
        parsed.into_iter().map(|(k, c)| (k, c.sub, c.role)).collect();
    assert_eq!(
        got,
        vec![
            ("sk-1".to_string(), "sk-1".to_string(), "admin".to_string()),
            ("sk-2".to_string(), "sk-2".to_string(), "reader".to_string()),
            ("sk-1".to_string(), "sk-1".to_string(), "writer:x".to_string()),
        ]
    );
    assert!(parse_api_keys("").is_empty());
    assert_eq!(parse_api_keys(":").len(), 1);
    let auth = ApiKeyAuth::from_csv(" sk-1 : admin ,sk-2:reader, sk-1:writer");
    assert_eq!(auth.authenticate_key(Some("sk-1")).unwrap().role, "writer");
    assert_eq!(auth.authenticate_key(Some("sk-2")).unwrap().sub, "sk-2");
    assert!(auth.authenticate_key(Some(" sk-1 ")).is_err());
}

#[test]
fn jwt_secret_setting() {
    let token = token_for(standard_claims(), "dev-secret-do-not-use-in-prod");
    let header = format!("Bearer {token}");
    assert!(JwtAuth::from_secret_setting(None).authenticate_bearer(Some(&header)).is_ok());
    assert!(JwtAuth::from_secret_setting(Some("x".into())).authenticate_bearer(Some(&header)).is_err());
}

#[test]
fn public_paths_and_refusal_messages() {
    assert!(is_public_path("/health"));
    assert!(is_public_path("/health/liveness"));
    assert!(is_public_path("/healthz"));
    assert!(is_public_path("/metrics"));
    assert!(!is_public_path("/metrics/x"));
    assert!(!is_public_path("/query"));
    assert!(!is_public_path("/Health"));
    assert_eq!(AuthError::MissingCredentials.public_message(), "missing credentials");
    assert_eq!(AuthError::InvalidCredentials("bad sig".into()).public_message(), "invalid credentials");
    assert_eq!(AuthError::ExpiredToken.public_message(), "token expired");
}
