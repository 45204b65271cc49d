//! Composition of push notifications.
//!
//! The push service takes a form POST with three fields — `token`, `user`
//! and `message`.  The credentials are fixed at construction; this module
//! builds the message text and the form fields, and the transport outside
//! the library delivers them.
use vstd::prelude::*;

verus! {

/// The text of one alert: the symbol and its formatted funding rate, with
/// a marker in front when the cycle is the startup debug push.
pub open spec fn message_text(symbol: Seq<char>, rate: Seq<char>, debug: bool) -> Seq<char> {
    (if debug {
        "[debug] "@
    } else {
        Seq::<char>::empty()
    }) + symbol + " current funding rate: "@ + rate + "%"@
}

/// Builds the alert text for one symbol's funding rate.
pub fn format_message(symbol: &str, rate: &str, debug: bool) -> (r: String)
    ensures
        r@ == message_text(symbol@, rate@, debug),
{
    let mut out = String::new();
    if debug {
        out.append("[debug] ");
    }
    out.append(symbol);
    out.append(" current funding rate: ");
    out.append(rate);
    out.append("%");
    proof {
        assert(out@ =~= message_text(symbol@, rate@, debug));
    }
    out
}

/// Holds the push service's application token and recipient key.
pub struct PushoverNotifier {
    pub token: String,
    pub user_key: String,
}

impl PushoverNotifier {
    pub fn new(token: String, user_key: String) -> (r: PushoverNotifier)
        ensures
            r.token == token,
            r.user_key == user_key,
    {
        PushoverNotifier { token, user_key }
    }

    /// The form fields of one push request: `token`, `user` and `message`,
    /// in that order.
    pub fn message_params(&self, message: &str) -> (r: Vec<(String, String)>)
        ensures
            r@.len() == 3,
            r@[0].0@ == "token"@ && r@[0].1@ == self.token@,
            r@[1].0@ == "user"@ && r@[1].1@ == self.user_key@,
            r@[2].0@ == "message"@ && r@[2].1@ == message@,
    {
        let mut fields: Vec<(String, String)> = Vec::new();
        fields.push((String::from_str("token"), self.token.clone()));
        fields.push((String::from_str("user"), self.user_key.clone()));
        fields.push((String::from_str("message"), String::from_str(message)));
        fields
    }
}

} // verus!
