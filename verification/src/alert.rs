//! The notification half: validate the sender and recipient addresses,
//! build the alert message word for word, and decide from a fetch outcome
//! and the threshold whether an alert is due at all.
use vstd::prelude::*;
use vstd::string::StringExecFns;

use crate::decimal::Decimal;
use crate::decimal::spec_fmt_2dp;
use crate::json::FetchError;

verus! {

/// Whether a string is a valid email address under the relay library's
/// grammar; the verdict depends on the characters alone.
pub uninterp spec fn address_ok(s: Seq<char>) -> bool;

/// Relies on `lettre::Address`'s `FromStr`: it accepts a string exactly
/// when `user@domain` splits off a well-formed user part and domain part,
/// a pure function of the string.
#[verifier::external_body]
fn check_address(s: &str) -> (r: bool)
    ensures
        r == address_ok(s@),
{
    s.parse::<lettre::Address>().is_ok()
}

/// Why an alert could not be delivered.
#[derive(Debug)]
pub enum NotifyError {
    /// The sender or the recipient address is malformed; nothing was sent.
    InvalidAddress,
    /// The relay could not be reached or refused the message; carries its
    /// diagnostic.
    DeliveryFailed(String),
}

/// One alert email, ready for the relay: all four fields are plain text.
pub struct AlertMessage {
    pub subject: String,
    pub body: String,
    pub from: String,
    pub to: String,
}

/// `Currency Alert: {base} to {target} Exchange Rate`
pub open spec fn spec_subject(base: Seq<char>, target: Seq<char>) -> Seq<char> {
    "Currency Alert: "@ + base + " to "@ + target + " Exchange Rate"@
}

/// `The {base} to {target} exchange rate has reached {rate:.2}!`
pub open spec fn spec_body_text(base: Seq<char>, target: Seq<char>, rate: int) -> Seq<char> {
    "The "@ + base + " to "@ + target + " exchange rate has reached "@ + spec_fmt_2dp(rate)
        + "!"@
}

/// The alert's subject line, word for word.
pub fn subject_line(base: &str, target: &str) -> (s: String)
    ensures
        s@ == spec_subject(base@, target@),
{
    let mut s = String::new();
    s.append("Currency Alert: ");
    s.append(base);
    s.append(" to ");
    s.append(target);
    s.append(" Exchange Rate");
    proof {
        assert(s@ =~= spec_subject(base@, target@));
    }
    s
}

/// The alert's body line, word for word, the rate rendered to two places.
pub fn body_line(base: &str, target: &str, rate: &Decimal) -> (s: String)
    ensures
        s@ == spec_body_text(base@, target@, rate@),
{
    let mut s = String::new();
    s.append("The ");
    s.append(base);
    s.append(" to ");
    s.append(target);
    s.append(" exchange rate has reached ");
    let r = rate.fmt_2dp();
    s.append(r.as_str());
    s.append("!");
    proof {
        assert(s@ =~= spec_body_text(base@, target@, rate@));
    }
    s
}

/// Build the alert that is due for `rate`, from `from` to `to`. Succeeds
/// exactly when both addresses are valid; a malformed address fails before
/// any connection could be attempted.
pub fn build_alert(base: &str, target: &str, rate: &Decimal, from: &str, to: &str) -> (r: Result<
    AlertMessage,
    NotifyError,
>)
    ensures
        r is Ok <==> address_ok(from@) && address_ok(to@),
        !(address_ok(from@) && address_ok(to@)) ==> r matches Err(NotifyError::InvalidAddress),
        r matches Ok(m) ==> m.subject@ == spec_subject(base@, target@) && m.body@
            == spec_body_text(base@, target@, rate@) && m.from@ == from@ && m.to@ == to@,
{
    if !check_address(from) || !check_address(to) {
        return Err(NotifyError::InvalidAddress);
    }
    Ok(
        AlertMessage {
            subject: subject_line(base, target),
            body: body_line(base, target, rate),
            from: from.to_owned(),
            to: to.to_owned(),
        },
    )
}

/// What one run decides once the fetch has completed.
#[derive(Clone, Copy, PartialEq, Eq, Structural, Debug)]
pub enum Decision {
    /// A rate came back at or below the threshold: send the alert.
    SendAlert,
    /// A rate came back above the threshold: report and stop.
    NoAlert,
    /// No rate came back: report the fetch error and stop.
    FetchFailed,
}

/// The decision for a fetched rate (or none) against a threshold: an alert
/// is due exactly when a rate came back at or below the threshold.
pub open spec fn spec_decision(rate: Option<int>, threshold: int) -> Decision {
    match rate {
        Some(v) => if v <= threshold {
            Decision::SendAlert
        } else {
            Decision::NoAlert
        },
        None => Decision::FetchFailed,
    }
}

/// The rate a fetch outcome carries, if any.
pub open spec fn fetched_rate(r: Result<Decimal, FetchError>) -> Option<int> {
    match r {
        Ok(d) => Some(d@),
        Err(_) => None,
    }
}

/// Decide a run's outcome from its fetch result and the threshold.
pub fn alert_decision(fetch: &Result<Decimal, FetchError>, threshold: &Decimal) -> (d: Decision)
    ensures
        d == spec_decision(fetched_rate(*fetch), threshold@),
{
    match fetch {
        Ok(r) => if r.le(threshold) {
            Decision::SendAlert
        } else {
            Decision::NoAlert
        },
        Err(_) => Decision::FetchFailed,
    }
}

/// An alert is decided if and only if the rate is at or below the
/// threshold; in particular a rate equal to the threshold decides one.
pub proof fn lemma_alert_iff_at_or_below(v: int, t: int)
    ensures
        (spec_decision(Some(v), t) == Decision::SendAlert) <==> v <= t,
        spec_decision(Some(t), t) == Decision::SendAlert,
{
}

/// A failed fetch never decides an alert: the run reports and stops.
pub proof fn lemma_no_rate_no_alert(t: int)
    ensures
        spec_decision(None, t) == Decision::FetchFailed,
        spec_decision(None, t) != Decision::SendAlert,
{
}

/// The provider URL for a base currency: `{api_url}/{base}`.
pub fn request_url(api_url: &str, base: &str) -> (u: String)
    ensures
        u@ == api_url@ + "/"@ + base@,
{
    let mut u = String::new();
    u.append(api_url);
    u.append("/");
    u.append(base);
    proof {
        assert(u@ =~= api_url@ + "/"@ + base@);
    }
    u
}

/// Everything one run needs, gathered once at startup and passed by
/// reference into the fetch and notify halves.
pub struct Config {
    /// Base URL of the rate provider.
    pub api_url: String,
    /// Currency being priced.
    pub base: String,
    /// Currency the base is priced in.
    pub target: String,
    /// Alert when the rate is at or below this.
    pub threshold: Decimal,
    /// SMTP relay host.
    pub smtp_server: String,
    /// SMTP user name, also the sender address.
    pub smtp_username: String,
    /// SMTP password.
    pub smtp_password: String,
    /// Recipient of the alert.
    pub recipient: String,
}

} // verus!
