//! Everything that can go wrong answering a System One request.

use vstd::prelude::*;

use crate::text;

verus! {

/// Everything that can go wrong answering a System One request, in this process
/// or over HTTP.
///
/// What another crate reports is carried as the text it reports: the library
/// passes it on and never looks inside.
#[derive(Debug)]
pub enum Error {
    /// The base URL was not an absolute `http://` or `https://` URL.
    InvalidBaseUrl(String),
    /// The request never completed (connection refused, timeout, TLS, ...).
    Transport(String),
    /// The server answered with a non-2xx status. Kev returns `422` for
    /// invalid requests, `401` when `KEV_API_KEY` is set and the bearer
    /// token is missing or wrong.
    Api {
        status: u16,
        /// Value of the `x-typesafe-request-id` response header, if present.
        request_id: Option<String>,
        body: String,
    },
    /// The request itself does not make sense; a server answers `422` for it.
    Invalid(String),
    /// A question did not fit the context: the state plus that one question
    /// exceeded the row limit. A server answers `422` for this, so
    /// [`Error::is_validation`] is true here too.
    ContextOverflow(String),
    /// The local engine failed: loading the model, tokenising, or the
    /// forward pass itself.
    Engine(String),
    /// The backbone failed: loading weights, or the forward pass itself.
    Model(String),
    /// The response was 2xx but did not match the expected shape.
    Decode { source: String, body: String },
}

/// The text of a string as Rust's debug formatting writes it: quoted and escaped.
pub uninterp spec fn debug_chars(shown: Seq<char>) -> Seq<char>;

/// `format!("{:?}")` of a string slice, from the standard library. The contract
/// only gives the result a name; how each character is escaped is not stated.
#[verifier::external_body]
pub(crate) fn debug_text(shown: &str) -> (out: String)
    ensures
        out@ == debug_chars(shown@),
{
    format!("{shown:?}")
}

impl Error {
    /// Whether a server would answer `422`: a malformed request, or one that
    /// does not fit the context.
    pub open spec fn validation(self) -> bool {
        match self {
            Error::Invalid(_) => true,
            Error::ContextOverflow(_) => true,
            Error::Api { status, .. } => status == 422,
            _ => false,
        }
    }

    /// The text an error is shown as.
    pub open spec fn shown(self) -> Seq<char> {
        match self {
            Error::InvalidBaseUrl(url) => "base url must start with http:// or https://, got "@
                + debug_chars(url@),
            Error::Transport(e) => "request to the kev server failed: "@ + e@,
            Error::Api { status, request_id, body } => {
                let head = "kev server returned HTTP "@ + text::decimal(status as nat);
                let named = match request_id {
                    Some(id) => head + " (request id "@ + id@ + ")"@,
                    None => head,
                };
                named + ": "@ + body@
            },
            Error::Invalid(message) => "invalid request: "@ + message@,
            Error::ContextOverflow(message) => "the request does not fit the model context: "@
                + message@,
            Error::Engine(message) => "the local kev engine failed: "@ + message@,
            Error::Model(e) => "the model failed: "@ + e@,
            Error::Decode { source, body } => "could not decode the kev response ("@ + source@
                + "): "@ + body@,
        }
    }

    /// `true` for what a server answers `422` to: a malformed request, or one
    /// that does not fit the context.
    pub fn is_validation(&self) -> (yes: bool)
        ensures
            yes == self.validation(),
    {
        match self {
            Error::Invalid(_) => true,
            Error::ContextOverflow(_) => true,
            Error::Api { status, .. } => *status == 422,
            _ => false,
        }
    }

    /// `true` when the server demands a bearer token (`KEV_API_KEY` is set).
    pub fn is_unauthorized(&self) -> (yes: bool)
        ensures
            yes == (self matches Error::Api { status, .. } && (status == 401 || status == 403)),
    {
        match self {
            Error::Api { status, .. } => *status == 401 || *status == 403,
            _ => false,
        }
    }

    /// The server-side request id, for correlating with the server log.
    pub fn request_id(&self) -> (id: Option<&str>)
        ensures
            match (*self, id) {
                (Error::Api { request_id: Some(given), .. }, Some(id)) => id@ == given@,
                (Error::Api { request_id: Some(_), .. }, None) => false,
                (_, id) => id is None,
            },
    {
        match self {
            Error::Api { request_id: Some(id), .. } => Some(id.as_str()),
            _ => None,
        }
    }

    /// The text this error is shown as.
    pub fn message(&self) -> (out: String)
        ensures
            out@ == self.shown(),
    {
        match self {
            Error::InvalidBaseUrl(url) => "base url must start with http:// or https://, got ".to_owned().concat(
                debug_text(url.as_str()).as_str(),
            ),
            Error::Transport(e) => "request to the kev server failed: ".to_owned().concat(
                e.as_str(),
            ),
            Error::Api { status, request_id, body } => {
                let mut out = "kev server returned HTTP ".to_owned();
                out.append(text::decimal_text(*status as usize).as_str());
                if let Some(id) = request_id {
                    out.append(" (request id ");
                    out.append(id.as_str());
                    out.append(")");
                }
                out.append(": ");
                out.append(body.as_str());
                out
            },
            Error::Invalid(message) => "invalid request: ".to_owned().concat(message.as_str()),
            Error::ContextOverflow(message) => "the request does not fit the model context: ".to_owned().concat(
                message.as_str(),
            ),
            Error::Engine(message) => "the local kev engine failed: ".to_owned().concat(
                message.as_str(),
            ),
            Error::Model(e) => "the model failed: ".to_owned().concat(e.as_str()),
            Error::Decode { source, body } => {
                let mut out = "could not decode the kev response (".to_owned();
                out.append(source.as_str());
                out.append("): ");
                out.append(body.as_str());
                out
            },
        }
    }

    /// The engine failed, saying this.
    pub open spec fn is_engine(self, message: Seq<char>) -> bool {
        self matches Error::Engine(m) && m@ == message
    }

    /// The request is invalid, saying this.
    pub open spec fn is_invalid(self, message: Seq<char>) -> bool {
        self matches Error::Invalid(m) && m@ == message
    }

    /// The request does not fit, saying this.
    pub open spec fn is_overflow(self, message: Seq<char>) -> bool {
        self matches Error::ContextOverflow(m) && m@ == message
    }
}

/// A server answers 422 to an invalid request and to one that does not fit the context, and to
/// nothing else that goes wrong here; what a server answered counts by its status.
pub proof fn law_a_malformed_request_is_a_validation_error(e: Error)
    ensures
        e is Invalid || e is ContextOverflow ==> e.validation(),
        e matches Error::Api { status, .. } ==> (e.validation() <==> status == 422),
        e is InvalidBaseUrl || e is Transport || e is Engine || e is Model || e is Decode
            ==> !e.validation(),
{
}

/// An error of a kind that says something is of that kind and says just that.
pub proof fn law_an_error_is_known_by_its_kind_and_its_words(e: Error, said: Seq<char>)
    ensures
        e.is_engine(said) <==> (e matches Error::Engine(m) && m@ == said),
        e.is_invalid(said) <==> (e matches Error::Invalid(m) && m@ == said),
        e.is_overflow(said) <==> (e matches Error::ContextOverflow(m) && m@ == said),
        e.is_invalid(said) || e.is_overflow(said) ==> e.validation(),
        e.is_engine(said) ==> !e.validation(),
{
}

/// What an error is shown as ends with what it was given to say, whole, behind words that tell
/// what went wrong.
pub proof fn law_an_error_shows_what_it_was_given(e: Error)
    ensures
        e matches Error::Transport(m) ==> text::ends_in(e.shown(), m@),
        e matches Error::Invalid(m) ==> text::ends_in(e.shown(), m@) && text::begins_with(
            e.shown(),
            "invalid request: "@,
        ),
        e matches Error::ContextOverflow(m) ==> text::ends_in(e.shown(), m@),
        e matches Error::Engine(m) ==> text::ends_in(e.shown(), m@) && text::begins_with(
            e.shown(),
            "the local kev engine failed: "@,
        ),
        e matches Error::Model(m) ==> text::ends_in(e.shown(), m@),
        e matches Error::Decode { body, .. } ==> text::ends_in(e.shown(), body@),
        e matches Error::Api { status, body, .. } ==> text::ends_in(e.shown(), body@)
            && text::begins_with(
            e.shown(),
            "kev server returned HTTP "@ + text::decimal(status as nat),
        ),
        e matches Error::Api { request_id: Some(id), status, body } ==> e.shown()
            == "kev server returned HTTP "@ + text::decimal(status as nat) + " (request id "@ + id@
            + ")"@ + ": "@ + body@,
        e matches Error::Api { request_id: None, status, body } ==> e.shown()
            == "kev server returned HTTP "@ + text::decimal(status as nat) + ": "@ + body@,
{
    match e {
        Error::Transport(m) => {
            text::law_what_ends_so_began_somehow(
                e.shown(),
                m@,
                "request to the kev server failed: "@,
            );
        },
        Error::Invalid(m) => {
            text::law_what_ends_so_began_somehow(e.shown(), m@, "invalid request: "@);
            text::law_what_begins_so_goes_on(e.shown(), "invalid request: "@, m@);
        },
        Error::ContextOverflow(m) => {
            text::law_what_ends_so_began_somehow(
                e.shown(),
                m@,
                "the request does not fit the model context: "@,
            );
        },
        Error::Engine(m) => {
            text::law_what_ends_so_began_somehow(e.shown(), m@, "the local kev engine failed: "@);
            text::law_what_begins_so_goes_on(e.shown(), "the local kev engine failed: "@, m@);
        },
        Error::Model(m) => {
            text::law_what_ends_so_began_somehow(e.shown(), m@, "the model failed: "@);
        },
        Error::Decode { source, body } => {
            text::law_what_ends_so_began_somehow(
                e.shown(),
                body@,
                "could not decode the kev response ("@ + source@ + "): "@,
            );
        },
        Error::Api { status, request_id, body } => {
            let head = "kev server returned HTTP "@ + text::decimal(status as nat);
            let named = match request_id {
                Some(id) => head + " (request id "@ + id@ + ")"@,
                None => head,
            };
            text::law_what_ends_so_began_somehow(e.shown(), body@, named + ": "@);
            match request_id {
                Some(id) => {
                    let rest = " (request id "@ + id@ + ")"@ + ": "@ + body@;
                    assert(e.shown() =~= head + rest);
                    text::law_what_begins_so_goes_on(e.shown(), head, rest);
                },
                None => {
                    let rest = ": "@ + body@;
                    assert(e.shown() =~= head + rest);
                    text::law_what_begins_so_goes_on(e.shown(), head, rest);
                },
            }
        },
        _ => {},
    }
}

/// Every kind of error has its own words before what it was given to say.
pub proof fn law_every_error_is_shown_in_its_own_words(e: Error)
    ensures
        e matches Error::InvalidBaseUrl(url) ==> e.shown()
            == "base url must start with http:// or https://, got "@ + debug_chars(url@),
        e matches Error::Transport(m) ==> e.shown() == "request to the kev server failed: "@ + m@,
        e matches Error::ContextOverflow(m) ==> e.shown()
            == "the request does not fit the model context: "@ + m@,
        e matches Error::Model(m) ==> e.shown() == "the model failed: "@ + m@,
        e matches Error::Decode { source, body } ==> e.shown()
            == "could not decode the kev response ("@ + source@ + "): "@ + body@,
{
}

} // verus!
