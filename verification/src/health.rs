//! The HTTP surface: one liveness endpoint, and a refusal for everything
//! else.

use crate::text::same_text;
use vstd::prelude::*;

verus! {

/// Path of the liveness endpoint.
pub const HEALTH_PATH: &'static str = "/health";

/// The one method that the liveness endpoint answers.
pub const GET: &'static str = "GET";

/// Media type of the liveness body.
pub const JSON: &'static str = "application/json";

/// 200 OK.
pub const STATUS_OK: u16 = 200;

/// 404 Not Found.
pub const STATUS_NOT_FOUND: u16 = 404;

/// 405 Method Not Allowed.
pub const STATUS_METHOD_NOT_ALLOWED: u16 = 405;

/// The body of a reply: its media type and its text.
#[derive(Clone, Debug, PartialEq, Eq)]
pub struct Body {
    pub content_type: &'static str,
    pub text: String,
}

/// What the service answers: a status code and, where there is one, a body.
#[derive(Clone, Debug, PartialEq, Eq)]
pub struct Reply {
    pub status: u16,
    pub body: Option<Body>,
}

/// A body as plain text: media type first, then content.
pub struct BodyModel {
    pub content_type: Seq<char>,
    pub text: Seq<char>,
}

/// The body of every liveness reply: the JSON object `{"status":"ok"}`.
pub open spec fn health_body() -> BodyModel {
    BodyModel { content_type: JSON@, text: "{\"status\":\"ok\"}"@ }
}

/// The status that a request gets. Only the method and the path of a
/// request count: headers and query string have no say.
pub open spec fn status_of(method: Seq<char>, path: Seq<char>) -> u16 {
    if path != HEALTH_PATH@ {
        STATUS_NOT_FOUND
    } else if method != GET@ {
        STATUS_METHOD_NOT_ALLOWED
    } else {
        STATUS_OK
    }
}

/// The body that goes with a status: the liveness body with 200, none with
/// any other.
pub open spec fn body_of(status: u16) -> Option<BodyModel> {
    if status == STATUS_OK {
        Some(health_body())
    } else {
        None
    }
}

impl Reply {
    /// The body as plain text, where there is one.
    pub open spec fn body_model(self) -> Option<BodyModel> {
        match self.body {
            Some(body) => Some(BodyModel { content_type: body.content_type@, text: body.text@ }),
            None => None,
        }
    }
}

/// Answers a liveness probe: always status 200 with the fixed JSON body.
pub fn health() -> (reply: Reply)
    ensures
        reply.status == 200,
        reply.body_model() == Some(health_body()),
{
    Reply {
        status: STATUS_OK,
        body: Some(Body { content_type: JSON, text: String::from_str("{\"status\":\"ok\"}") }),
    }
}

/// Answers a request, given its method and the path of its target without
/// the query string. `GET /health` gets the liveness reply; any other
/// method on that path gets 405, any other path 404, both without a body.
pub fn respond(method: &str, path: &str) -> (reply: Reply)
    ensures
        reply.status == status_of(method@, path@),
        reply.body_model() == body_of(status_of(method@, path@)),
{
    if !same_text(path, HEALTH_PATH) {
        Reply { status: STATUS_NOT_FOUND, body: None }
    } else if !same_text(method, GET) {
        Reply { status: STATUS_METHOD_NOT_ALLOWED, body: None }
    } else {
        health()
    }
}

/// The liveness endpoint answers 200 to `GET /health`, and nothing else is
/// answered with 200: every other request gets 404 or 405.
pub proof fn lemma_only_health_is_ok(method: Seq<char>, path: Seq<char>)
    ensures
        status_of(method, path) == 200 <==> (method == GET@ && path == HEALTH_PATH@),
        status_of(method, path) != 200 ==> status_of(method, path) == 404 || status_of(method, path)
            == 405,
        status_of(method, path) == 200 <==> body_of(status_of(method, path)) == Some(health_body()),
        status_of(method, path) != 200 <==> body_of(status_of(method, path)) is None,
{
}

} // verus!
