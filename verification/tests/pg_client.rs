use tesseract::pg_client::{response_error, sql_error, ClientError, InsertResponse, QueryArgs, SqlErrorClass};
use tesseract::rate_limiter::RateLimiter;

#[test]
fn client_error_messages() {
    assert_eq!(ClientError::ConnectionError("refused".into()).to_string(), "connection error: refused");
    assert_eq!(
        ClientError::RequestError { status: 500, message: "internal".into() }.to_string(),
        "request failed (500): internal"
    );
    assert_eq!(ClientError::ParseError("eof".into()).to_string(), "parse error: eof");
}

#[test]
fn request_bodies_hold_their_fields() {
    let q = QueryArgs { vql: "FIND SIMILARITY".into(), user_id: None };
    assert_eq!(q.vql, "FIND SIMILARITY");
    let r = InsertResponse { success: true, id: 42, error: None };
    assert!(r.success && r.id == 42 && r.error.is_none());
}

#[test]
fn rate_limiter_admits_every_request() {
    let limiter = RateLimiter::new(60);
    assert_eq!(limiter.check(), Ok(()));
}

#[test]
fn response_errors() {
    assert!(response_error(200, true, None).is_none());
    assert!(response_error(201, true, Some("ignored".into())).is_none());
    assert!(matches!(response_error(200, false, None),
        Some(ClientError::RequestError { status: 200, message }) if message == "unknown error"));
    assert!(matches!(response_error(500, true, Some("boom".into())),
        Some(ClientError::RequestError { status: 500, message }) if message == "boom"));
    assert_eq!(response_error(404, false, None).unwrap().to_string(), "request failed (404): unknown error");
}

#[test]
fn sql_errors() {

    assert_eq!(
        sql_error(&ClientError::ConnectionError("refused".into())),
        (SqlErrorClass::ConnectionFailure, "tesseract_fdw: connection refused: refused".to_string())
    );
    assert_eq!(
        sql_error(&ClientError::RequestError { status: 400, message: "bad vql".into() }),
        (SqlErrorClass::DataException, "tesseract_fdw: bad vql".to_string())
    );
    assert_eq!(
        sql_error(&ClientError::ParseError("eof".into())),
        (SqlErrorClass::DataException, "tesseract_fdw: parse error: eof".to_string())
    );
}
