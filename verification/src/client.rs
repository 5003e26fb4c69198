//! What is sent to a server, and what its replies mean.
//!
//! Sending is the caller's business. What is here is where a request goes, what
//! model it names, and how a reply is read before it is decoded.

use vstd::prelude::*;

use crate::error::Error;
use crate::local::DEFAULT_MODEL;
use crate::permute;
use crate::text;
use crate::types::SystemOneRequest;

verus! {

/// Default address of a locally served model.
pub const DEFAULT_BASE_URL: &'static str = "http://127.0.0.1:8009";

/// The reply header that carries the server-side request id.
pub const REQUEST_ID_HEADER: &'static str = "x-typesafe-request-id";

/// Where all questions are asked in one forward pass: the normal call.
pub const SYSTEM_ONE: &'static str = "/v1/systemone";

/// Where each question is asked in its own forward pass.
pub const SYSTEM_ONE_SEPARATE: &'static str = "/v1/systemone/separate";

/// Where one question is asked under several option orders.
pub const SYSTEM_ONE_PERMUTE: &'static str = "/v1/systemone/permute";

/// Where the server lists its models.
pub const MODELS: &'static str = "/v1/models";

/// How a server is talked to.
#[derive(Debug)]
pub struct Client {
    /// Where the server is, without a slash at the end.
    pub base_url: String,
    /// What is sent as `Authorization: Bearer <key>`, if anything.
    pub api_key: Option<String>,
    /// The model sent with requests that do not name one themselves.
    pub model: String,
}

/// This is an absolute URL that a request can be sent to.
pub open spec fn absolute(url: Seq<char>) -> bool {
    text::begins_with(url, "http://"@) || text::begins_with(url, "https://"@)
}

impl Client {
    /// A client for a server at `base_url`, e.g. `http://127.0.0.1:8009`.
    pub fn new(base_url: &str) -> (out: Result<Self, Error>)
        ensures
            out is Ok <==> absolute(base_url@),
            out matches Ok(client) ==> client.base_url@ == text::trimmed_slashes(base_url@)
                && client.api_key is None && client.model@ == DEFAULT_MODEL@,
            out matches Err(e) ==> e matches Error::InvalidBaseUrl(url) && url@ == base_url@,
    {
        if !(text::starts_with(base_url, "http://") || text::starts_with(base_url, "https://")) {
            return Err(Error::InvalidBaseUrl(base_url.to_owned()));
        }
        Ok(
            Client {
                base_url: text::trim_end_slashes(base_url),
                api_key: None,
                model: DEFAULT_MODEL.to_owned(),
            },
        )
    }

    /// A client for a server on the default local port.
    pub fn local() -> (out: Result<Self, Error>)
        ensures
            out matches Ok(client) && client.base_url@ == DEFAULT_BASE_URL@ && client.api_key
                is None && client.model@ == DEFAULT_MODEL@,
    {
        proof {
            reveal_strlit("http://127.0.0.1:8009");
            reveal_strlit("http://");
            assert(DEFAULT_BASE_URL@.take("http://"@.len() as int) =~= "http://"@);
        }
        Self::new(DEFAULT_BASE_URL)
    }

    /// Send `Authorization: Bearer <key>`. Required when the server runs with a
    /// key of its own; harmless otherwise.
    pub fn with_api_key(self, api_key: &str) -> (out: Self)
        ensures
            out.base_url == self.base_url,
            out.api_key matches Some(key) && key@ == api_key@,
            out.model == self.model,
    {
        Client { api_key: Some(api_key.to_owned()), ..self }
    }

    /// The model sent with requests that do not name one themselves.
    pub fn with_model(self, model: &str) -> (out: Self)
        ensures
            out.base_url == self.base_url,
            out.api_key == self.api_key,
            out.model@ == model@,
    {
        Client { model: model.to_owned(), ..self }
    }

    /// Where a call goes.
    pub fn url(&self, path: &str) -> (out: String)
        ensures
            out@ == self.base_url@ + path@,
    {
        self.base_url.clone().concat(path)
    }

    /// The request with a model: its own, or this client's.
    pub fn with_model_filled_in(&self, request: SystemOneRequest) -> (out: SystemOneRequest)
        ensures
            out.state == request.state,
            out.questions == request.questions,
            out.model == match request.model {
                Some(model) => Some(model),
                None => Some(self.model),
            },
    {
        let model = match request.model {
            Some(model) => model,
            None => self.model.clone(),
        };
        SystemOneRequest { state: request.state, model: Some(model), questions: request.questions }
    }
}

/// A number of orders as a server takes it: one to 64.
pub fn orders_sent(n_perm: u8) -> (out: u8)
    ensures
        out == permute::rounds_run(n_perm as nat),
        1 <= out <= 64,
        1 <= n_perm <= 64 ==> out == n_perm,
{
    if n_perm < 1 {
        1
    } else if n_perm > 64 {
        64
    } else {
        n_perm
    }
}

/// A status that stands for success.
pub open spec fn success(status: u16) -> bool {
    200 <= status < 300
}

/// What a reply means: its body is to be decoded where the status stands for
/// success, and is an error otherwise.
pub fn read(status: u16, request_id: Option<String>, body: String) -> (out: Result<
    (Option<String>, String),
    Error,
>)
    ensures
        out == if success(status) {
            Ok::<(Option<String>, String), Error>((request_id, body))
        } else {
            Err::<(Option<String>, String), Error>(Error::Api { status, request_id, body })
        },
        out is Ok <==> 200 <= status <= 299,
{
    if status < 200 || status >= 300 {
        return Err(Error::Api { status, request_id, body });
    }
    Ok((request_id, body))
}

/// What is said of a reply that does not have the expected shape, and of a request
/// that cannot be written.
pub fn undecodable(source: String, body: String) -> (out: Error)
    ensures
        out == (Error::Decode { source, body }),
{
    Error::Decode { source, body }
}

/// The address of a client ends in no slash, so a call's path follows with one.
pub proof fn law_an_address_ends_in_no_slash(url: Seq<char>)
    ensures
        ({
            let base = text::trimmed_slashes(url);
            &&& base.len() == 0 || base.last() != '/'
            &&& text::begins_with(url, base)
            &&& forall|i: int| base.len() <= i < url.len() ==> #[trigger] url[i] == '/'
        }),
    decreases url.len(),
{
    if url.len() > 0 && url.last() == '/' {
        law_an_address_ends_in_no_slash(url.drop_last());
        let base = text::trimmed_slashes(url);
        let rest = url.drop_last();
        assert(base == text::trimmed_slashes(rest));
        assert(url.take(base.len() as int) =~= rest.take(base.len() as int));
        assert forall|i: int| base.len() <= i < url.len() implies #[trigger] url[i] == '/' by {
            if i < rest.len() {
                assert(rest[i] == url[i]);
            }
        }
    } else {
        assert(url.take(url.len() as int) =~= url);
    }
}

/// An address counts as absolute just where it begins with one of the two schemes.
pub proof fn law_an_absolute_address_begins_with_its_scheme(rest: Seq<char>, url: Seq<char>)
    ensures
        absolute("http://"@ + rest),
        absolute("https://"@ + rest),
        absolute(url) ==> text::begins_with(url, "http://"@) || text::begins_with(url, "https://"@),
{
    text::law_what_begins_so_goes_on(url, "http://"@, rest);
    text::law_what_begins_so_goes_on(url, "https://"@, rest);
}

/// A server's answer is a success by its status alone, in the two hundreds.
pub proof fn law_success_is_in_the_two_hundreds(status: u16)
    ensures
        success(status) <==> status as int / 100 == 2,
{
}

/// Requests go to one address by default, on this machine, each kind of call to its own path.
pub proof fn law_every_call_has_its_own_path()
    ensures
        DEFAULT_BASE_URL@ == "http://127.0.0.1:8009"@,
        SYSTEM_ONE@ == "/v1/systemone"@,
        SYSTEM_ONE_SEPARATE@ == "/v1/systemone/separate"@,
        SYSTEM_ONE_PERMUTE@ == "/v1/systemone/permute"@,
        MODELS@ == "/v1/models"@,
        REQUEST_ID_HEADER@ == "x-typesafe-request-id"@,
        DEFAULT_MODEL@ == "kev-latest"@,
{
}

} // verus!
