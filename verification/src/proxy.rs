//! The proxy handler's decision logic: what answer a request gets for each
//! combination of endpoint availability and forwarding outcome, and the
//! readiness answer backing the liveness query.

use vstd::prelude::*;

verus! {

/// What a successful forwarded call brought back: relayed verbatim.
pub struct ForwardReply {
    pub status: u16,
    pub headers: Vec<(String, Vec<u8>)>,
    pub body: String,
}

/// The outcome of handling one inbound request.
pub enum ProxyOutcome {
    /// No endpoint was alive; no network call was made.
    ServiceUnavailable,
    /// The backend answered; its status, headers and body are relayed.
    Relay(ForwardReply),
    /// The forwarded call failed in transport; answered as a generic
    /// internal error.
    InternalError,
}

/// Decide the outcome of one request. `target_found` says whether selection
/// yielded an endpoint; `forward` is the forwarded call's result (`None` for
/// a transport error), meaningful only when a target was found.
pub fn proxy_decide(target_found: bool, forward: Option<ForwardReply>) -> (r: ProxyOutcome)
    ensures
        !target_found ==> r is ServiceUnavailable,
        target_found ==> match forward {
            Some(reply) => r == ProxyOutcome::Relay(reply),
            None => r is InternalError,
        },
{
    if !target_found {
        ProxyOutcome::ServiceUnavailable
    } else {
        match forward {
            Some(reply) => ProxyOutcome::Relay(reply),
            None => ProxyOutcome::InternalError,
        }
    }
}

/// The readiness answer: unavailable when nothing is alive, else the count.
pub enum HealthStatus {
    Unavailable,
    Available(u32),
}

/// Decide the readiness answer from the current alive count.
pub fn health_status(available: u32) -> (r: HealthStatus)
    ensures
        available == 0 ==> r is Unavailable,
        available > 0 ==> r == HealthStatus::Available(available),
{
    if available == 0 {
        HealthStatus::Unavailable
    } else {
        HealthStatus::Available(available)
    }
}

} // verus!
