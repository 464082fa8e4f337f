//! The chat-delivery side of feedback: the request a message becomes,
//! and what the service's reply means. The HTTP transport itself lives
//! with the caller.
use vstd::prelude::*;

use crate::feedback::FeedbackLevel;

verus! {

/// The reply body of a message post.
#[derive(Debug)]
pub struct JsonResponse {
    pub ok: bool,
    pub warning: Option<String>,
    pub error: Option<String>,
}

/// What a reply means for the caller.
pub enum SlackOutcome {
    /// The message was accepted.
    Delivered,
    /// The message was accepted with a warning worth logging.
    DeliveredWithWarning(String),
    /// The message was rejected, with the reported reason.
    Failed(String),
}

/// Reads a reply: a warning of `missing_charset` is routine and
/// suppressed; a rejection without a reason reports an unknown error.
pub fn response_outcome(r: JsonResponse) -> (out: SlackOutcome)
    ensures
        r.ok && (r.warning is None || r.warning->Some_0@ == "missing_charset"@) ==> out
            is Delivered,
        (r.ok && r.warning is Some && r.warning->Some_0@ != "missing_charset"@) ==> (out
            is DeliveredWithWarning && out->DeliveredWithWarning_0 == r.warning->Some_0),
        (!r.ok && r.error is Some) ==> (out is Failed && out->Failed_0 == r.error->Some_0),
        (!r.ok && r.error is None) ==> (out is Failed && out->Failed_0@ == "unknown error"@),
{
    if r.ok {
        match r.warning {
            Some(w) => {
                if crate::text::str_eq(w.as_str(), "missing_charset") {
                    SlackOutcome::Delivered
                } else {
                    SlackOutcome::DeliveredWithWarning(w)
                }
            },
            None => SlackOutcome::Delivered,
        }
    } else {
        match r.error {
            Some(e) => SlackOutcome::Failed(e),
            None => SlackOutcome::Failed("unknown error".to_owned()),
        }
    }
}

/// The authorization header value for a token.
pub fn bearer_token(token: &str) -> (r: String)
    ensures
        r@ == "Bearer "@ + token@,
{
    let mut out = "Bearer ".to_owned();
    out.append(token);
    out
}

/// The delivered text: the run's description, then the message.
pub fn message_text(desc: &str, message: &str) -> (r: String)
    ensures
        r@ == desc@ + ": "@ + message@,
{
    let mut out = desc.to_owned();
    out.append(": ");
    out.append(message);
    out
}

/// The body of a message post: the channel and the text, as key/value
/// pairs for the caller to serialize.
pub fn message_json(channel: &str, text: &str) -> (r: Vec<(String, String)>)
    ensures
        r@.len() == 2,
        r@[0].0@ == "channel"@ && r@[0].1@ == channel@,
        r@[1].0@ == "text"@ && r@[1].1@ == text@,
{
    let mut out: Vec<(String, String)> = Vec::new();
    out.push(("channel".to_owned(), channel.to_owned()));
    out.push(("text".to_owned(), text.to_owned()));
    out
}

/// Whether a sink configured to suppress below `min` delivers a message
/// of level `level`.
pub fn should_deliver(level: FeedbackLevel, min: FeedbackLevel) -> (r: bool)
    ensures
        r == (crate::feedback::severity(level) >= crate::feedback::severity(min)),
{
    crate::feedback::meets_level(level, min)
}

} // verus!
