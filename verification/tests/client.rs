//! Where requests go, and what replies and errors mean.

use rkev::client::{orders_sent, read, undecodable, Client, SYSTEM_ONE, SYSTEM_ONE_SEPARATE};
use rkev::error::Error;
use rkev::types::SystemOneRequest;
use rkev::value::Value;

#[test]
fn an_address_loses_its_slashes() {
    let client = Client::new("https://kev.example//").unwrap();

    assert_eq!(client.url(SYSTEM_ONE), "https://kev.example/v1/systemone");
    assert_eq!(
        Client::local().unwrap().url(SYSTEM_ONE_SEPARATE),
        "http://127.0.0.1:8009/v1/systemone/separate"
    );
}

#[test]
fn an_address_without_a_scheme_is_refused() {
    for url in ["", "kev.example", "ftp://kev.example", "HTTP://kev"] {
        assert!(matches!(
            Client::new(url),
            Err(Error::InvalidBaseUrl(ref got)) if got == url
        ));
    }
    assert_eq!(
        Client::new("kev\n").unwrap_err().message(),
        "base url must start with http:// or https://, got \"kev\\n\""
    );
}

#[test]
fn a_request_is_sent_with_a_model() {
    let client = Client::local()
        .unwrap()
        .with_model("kev-9b")
        .with_api_key("SECRET-REDACTED");
    assert_eq!(client.api_key.as_deref(), Some("SECRET-REDACTED"));

    let request = || SystemOneRequest::new(Value::text("x"));
    let filled = client.with_model_filled_in(request());
    assert_eq!(filled.model.as_deref(), Some("kev-9b"));
    let pinned = client.with_model_filled_in(request().model("kev-4b"));
    assert_eq!(pinned.model.as_deref(), Some("kev-4b"));
}

#[test]
fn orders_are_sent_as_a_server_takes_them() {
    assert_eq!(
        [0, 1, 64, 65, 255].map(orders_sent),
        [1, 1, 64, 64, 64]
    );
}

#[test]
fn a_reply_is_a_body_or_an_error() {
    let body = || String::from("{}");
    let id = || Some(String::from("r-1"));

    assert_eq!(read(200, id(), body()).unwrap(), (id(), body()));
    assert!(read(299, None, body()).is_ok());
    for status in [199, 300, 404, 500] {
        assert!(matches!(
            read(status, id(), body()),
            Err(Error::Api { status: got, .. }) if got == status
        ));
    }
}

#[test]
fn every_error_says_what_it_is() {
    let text = |s: &str| String::from(s);
    let api = |status: u16, id: Option<&str>| Error::Api {
        status,
        request_id: id.map(String::from),
        body: String::from("no"),
    };

    assert_eq!(
        Error::Transport(text("timed out")).message(),
        "request to the kev server failed: timed out"
    );
    assert_eq!(
        api(503, Some("r-1")).message(),
        "kev server returned HTTP 503 (request id r-1): no"
    );
    assert_eq!(
        api(401, None).message(),
        "kev server returned HTTP 401: no"
    );
    assert_eq!(
        Error::Invalid(text("m")).message(),
        "invalid request: m"
    );
    assert_eq!(
        Error::ContextOverflow(text("m")).message(),
        "the request does not fit the model context: m"
    );
    assert_eq!(
        Error::Engine(text("m")).message(),
        "the local kev engine failed: m"
    );
    assert_eq!(Error::Model(text("m")).message(), "the model failed: m");
    assert_eq!(
        undecodable(text("expected value"), text("<html>")).message(),
        "could not decode the kev response (expected value): <html>"
    );

    assert!(api(422, None).is_validation() && !api(400, None).is_validation());
    assert!(api(401, None).is_unauthorized() && api(403, None).is_unauthorized());
    assert!(!api(404, None).is_unauthorized() && !Error::Engine(text("")).is_unauthorized());
    assert_eq!(api(500, Some("r-2")).request_id(), Some("r-2"));
    assert_eq!(api(500, None).request_id(), None);
    assert_eq!(Error::Model(text("")).request_id(), None);
}
