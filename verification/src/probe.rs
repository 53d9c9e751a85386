//! Health probes: per node role, the decisions that turn probe responses
//! into a liveness verdict.
//!
//! The network calls themselves are made by the caller that drives a probe;
//! this module owns every decision about what the responses mean. A missing
//! response (`None`) stands for a transport failure and is always judged
//! unhealthy: probing is total and never propagates an error.

use vstd::prelude::*;
use vstd::string::StrSliceExecFns;
use vstd::string::StringExecFns;
use crate::registry::str_eq;

verus! {

/// Whether every character of `s` is a decimal digit.
pub open spec fn is_dec_digits(s: Seq<char>) -> bool {
    forall|i: int| 0 <= i < s.len() ==> 48 <= #[trigger] (s[i] as u32) <= 57
}

/// The value of a sequence of decimal digits.
pub open spec fn dec_val(s: Seq<char>) -> nat
    decreases s.len(),
{
    if s.len() == 0 {
        0
    } else {
        (dec_val(s.drop_last()) * 10 + (s.last() as u32 - 48)) as nat
    }
}

/// The digit portion of a decimal numeral: everything after an optional
/// leading plus sign.
pub open spec fn digits_of(s: Seq<char>) -> Seq<char> {
    if s.len() > 0 && s[0] == '+' {
        s.subrange(1, s.len() as int)
    } else {
        s
    }
}

/// What parsing `s` as an unsigned 64-bit decimal numeral yields: its value,
/// when `s` is an optional plus sign followed by one or more digits and the
/// value fits; nothing otherwise.
pub open spec fn parse_u64_spec(s: Seq<char>) -> Option<u64> {
    let d = digits_of(s);
    if d.len() > 0 && is_dec_digits(d) && dec_val(d) <= u64::MAX {
        Some(dec_val(d) as u64)
    } else {
        None
    }
}

/// Parse a decimal numeral as a `u64`, rejecting anything malformed or
/// out of range.
pub fn parse_u64_dec(s: &str) -> (r: Option<u64>)
    ensures
        r == parse_u64_spec(s@),
{
    let len = s.unicode_len();
    let mut start: usize = 0;
    if len > 0 && s.get_char(0) == '+' {
        start = 1;
    }
    proof {
        assert(digits_of(s@) =~= s@.subrange(start as int, len as int));
    }
    if start == len {
        return None;
    }
    let ghost d = s@.subrange(start as int, len as int);
    let mut acc: u64 = 0;
    let mut overflowed: bool = false;
    let mut i: usize = start;
    while i < len
        invariant
            start <= i <= len,
            start < len,
            len == s@.len(),
            d == s@.subrange(start as int, len as int),
            d == digits_of(s@),
            is_dec_digits(s@.subrange(start as int, i as int)),
            !overflowed ==> acc == dec_val(s@.subrange(start as int, i as int)),
            overflowed ==> dec_val(s@.subrange(start as int, i as int)) > u64::MAX,
        decreases len - i,
    {
        let c = s.get_char(i);
        let cu = c as u32;
        if cu < 48 || cu > 57 {
            proof {
                assert(d[i - start] == s@[i as int]);
                assert(!(48 <= (d[i - start] as u32) <= 57));
            }
            return None;
        }
        let dig = (cu - 48) as u64;
        proof {
            let pre = s@.subrange(start as int, i as int);
            let post = s@.subrange(start as int, i + 1);
            assert(post.drop_last() =~= pre);
            assert(post.last() == s@[i as int]);
            assert forall|j: int| 0 <= j < post.len() implies 48 <= #[trigger] (post[j] as u32)
                <= 57 by {
                if j < post.len() - 1 {
                    assert(post[j] == pre[j]);
                } else {
                    assert(post[j] == s@[i as int]);
                }
            }
            assert(dec_val(post) == dec_val(pre) * 10 + (cu - 48));
        }
        if overflowed {
            proof {
                let pre = s@.subrange(start as int, i as int);
                assert(dec_val(pre) * 10 + (cu - 48) > u64::MAX) by (nonlinear_arith)
                    requires
                        dec_val(pre) > u64::MAX,
                        48 <= cu,
                ;
            }
        } else if acc > 1844674407370955161u64 || (acc == 1844674407370955161u64 && dig > 5) {
            proof {
                assert(acc * 10 + dig > u64::MAX) by (nonlinear_arith)
                    requires
                        acc > 1844674407370955161 || (acc == 1844674407370955161 && dig > 5),
                        dig <= 9,
                ;
            }
            overflowed = true;
        } else {
            proof {
                assert(acc * 10 + dig <= u64::MAX) by (nonlinear_arith)
                    requires
                        acc <= 1844674407370955161,
                        acc == 1844674407370955161 ==> dig <= 5,
                        dig <= 9,
                ;
            }
            acc = acc * 10 + dig;
        }
        i = i + 1;
    }
    if overflowed {
        None
    } else {
        Some(acc)
    }
}

/// What the execution-layer peer-count response's `result` member holds,
/// as serde_json reads it: the member as a string, when the body is valid
/// JSON whose `result` member is a string.
pub uninterp spec fn json_result_str(body: Seq<char>) -> Option<Seq<char>>;

/// Relies on serde_json::from_str and serde_json::Value::as_str: reads the
/// body as JSON and hands out its "result" member when that member is a
/// string; a malformed body, or any other shape, yields nothing. The result
/// depends on the body text alone.
#[verifier::external_body]
fn extract_result_str(body: &str) -> (r: Option<String>)
    ensures
        match r {
            Some(s) => json_result_str(body@) == Some(s@),
            None => json_result_str(body@) is None,
        },
{
    let v: serde_json::Value = serde_json::from_str(body).unwrap_or_default();
    v["result"].as_str().map(|s| s.to_string())
}

/// What the execution-layer syncing response's `result.syncing` member
/// holds, as serde_json reads it: the member, when the body is valid JSON
/// in which it is a boolean.
pub uninterp spec fn json_result_syncing(body: Seq<char>) -> Option<bool>;

/// Relies on serde_json::from_str and serde_json::Value::as_bool: reads the
/// body as JSON and hands out its "result"."syncing" member when that member
/// is a boolean; a malformed body, or any other shape, yields nothing. The
/// result depends on the body text alone.
#[verifier::external_body]
fn extract_result_syncing(body: &str) -> (r: Option<bool>)
    ensures
        r == json_result_syncing(body@),
{
    let v: serde_json::Value = serde_json::from_str(body).unwrap_or_default();
    v["result"]["syncing"].as_bool()
}

/// What the consensus-layer syncing response's `data.is_syncing` member
/// holds, as serde_json reads it: the member, when the body is valid JSON
/// in which it is a boolean.
pub uninterp spec fn json_data_is_syncing(body: Seq<char>) -> Option<bool>;

/// Relies on serde_json::from_str and serde_json::Value::as_bool: reads the
/// body as JSON and hands out its "data"."is_syncing" member when that
/// member is a boolean; a malformed body, or any other shape, yields
/// nothing. The result depends on the body text alone.
#[verifier::external_body]
fn extract_data_is_syncing(body: &str) -> (r: Option<bool>)
    ensures
        r == json_data_is_syncing(body@),
{
    let v: serde_json::Value = serde_json::from_str(body).unwrap_or_default();
    v["data"]["is_syncing"].as_bool()
}

/// The view of an optional owned string.
pub open spec fn opt_str_view(s: Option<String>) -> Option<Seq<char>> {
    match s {
        Some(x) => Some(x@),
        None => None,
    }
}

/// Whether an extracted peer-count field reports at least one peer: it must
/// be present and parse as a positive decimal numeral.
pub open spec fn peer_count_accepts(result_field: Option<Seq<char>>) -> bool {
    match result_field {
        Some(s) => match parse_u64_spec(s) {
            Some(v) => v > 0,
            None => false,
        },
        None => false,
    }
}

/// Where an execution-layer probe stands after its first response.
#[derive(Clone, Copy, PartialEq, Eq, Structural, Debug)]
pub enum ProbeStep {
    /// The probe is decided: the endpoint is unhealthy; no further call is
    /// to be made.
    Unhealthy,
    /// The peer count passed; the syncing response decides.
    CheckSyncing,
}

/// Decide the first probe stage from the extracted peer-count field: the
/// probe goes on to the syncing check exactly when the field is a positive
/// decimal numeral.
pub fn peer_count_step(result_field: &Option<String>) -> (r: ProbeStep)
    ensures
        (r is CheckSyncing) == peer_count_accepts(opt_str_view(*result_field)),
{
    match result_field {
        Some(s) => match parse_u64_dec(s.as_str()) {
            Some(v) => if v > 0 {
                ProbeStep::CheckSyncing
            } else {
                ProbeStep::Unhealthy
            },
            None => ProbeStep::Unhealthy,
        },
        None => ProbeStep::Unhealthy,
    }
}

/// Decide a syncing verdict from an extracted syncing field: healthy exactly
/// when the field is present and false. An absent or non-boolean field is
/// judged still-syncing.
pub fn syncing_verdict(field: Option<bool>) -> (r: bool)
    ensures
        r == (field == Some(false)),
{
    match field {
        Some(b) => !b,
        None => false,
    }
}

/// The probe for a generic HTTP service: one GET of `{url}/health`,
/// healthy exactly on a success status.
#[derive(Clone, Copy, PartialEq, Eq, Structural, Debug)]
pub struct BasicHealthCheck {}

impl BasicHealthCheck {
    /// The address the probe calls: the conventional health path.
    pub fn health_url(&self, url: &str) -> (r: String)
        ensures
            r@ == url@ + "/health"@,
    {
        let mut s = url.to_owned();
        s.append("/health");
        s
    }

    /// Judge the probe call's outcome: `status` is the response status, or
    /// nothing for a transport failure. Healthy exactly on a success status.
    pub fn interpret(&self, status: Option<u16>) -> (r: bool)
        ensures
            r == match status {
                Some(code) => 200 <= code < 300,
                None => false,
            },
    {
        match status {
            Some(code) => 200 <= code && code < 300,
            None => false,
        }
    }
}

/// The probe for a role with no meaningful check: always healthy.
#[derive(Clone, Copy, PartialEq, Eq, Structural, Debug)]
pub struct OpNodeHealthCheck {}

impl OpNodeHealthCheck {
    /// Judge the endpoint healthy unconditionally.
    pub fn interpret(&self) -> (r: bool)
        ensures
            r == true,
    {
        true
    }
}

/// The probe for an execution-layer node: a peer-count call, then — only
/// when peers are present — a syncing call.
#[derive(Clone, Copy, PartialEq, Eq, Structural, Debug)]
pub struct GethHealthCheck {}

impl GethHealthCheck {
    /// The JSON-RPC request body of the peer-count call.
    pub fn peer_count_request(&self) -> (r: &'static str)
        ensures
            r@ == "{\"jsonrpc\":\"2.0\",\"method\":\"net_peerCount\",\"params\":[],\"id\":1}"@,
    {
        "{\"jsonrpc\":\"2.0\",\"method\":\"net_peerCount\",\"params\":[],\"id\":1}"
    }

    /// The JSON-RPC request body of the syncing call.
    pub fn syncing_request(&self) -> (r: &'static str)
        ensures
            r@ == "{\"jsonrpc\":\"2.0\",\"method\":\"eth_syncing\",\"params\":[],\"id\":1}"@,
    {
        "{\"jsonrpc\":\"2.0\",\"method\":\"eth_syncing\",\"params\":[],\"id\":1}"
    }

    /// Judge the peer-count response: `response` is the response body, or
    /// nothing for a transport failure. The probe goes on to the syncing
    /// call exactly when the body's `result` member is a positive decimal
    /// numeral; otherwise the endpoint is unhealthy and no second call is
    /// made.
    pub fn on_peer_count(&self, response: Option<&str>) -> (r: ProbeStep)
        ensures
            match response {
                Some(body) => (r is CheckSyncing) == peer_count_accepts(json_result_str(body@)),
                None => r is Unhealthy,
            },
    {
        match response {
            Some(body) => {
                let field = extract_result_str(body);
                proof {
                    assert(opt_str_view(field) == json_result_str(body@));
                }
                peer_count_step(&field)
            },
            None => ProbeStep::Unhealthy,
        }
    }

    /// Judge the syncing response: healthy exactly when the body's
    /// `result.syncing` member is the boolean false. A transport failure, a
    /// malformed body or an absent member is judged still-syncing.
    pub fn on_syncing(&self, response: Option<&str>) -> (r: bool)
        ensures
            r == match response {
                Some(body) => json_result_syncing(body@) == Some(false),
                None => false,
            },
    {
        match response {
            Some(body) => syncing_verdict(extract_result_syncing(body)),
            None => false,
        }
    }
}

/// The probe for a consensus-layer (beacon) node: one GET of the node's
/// syncing status.
#[derive(Clone, Copy, PartialEq, Eq, Structural, Debug)]
pub struct BeaconHealthCheck {}

impl BeaconHealthCheck {
    /// The address the probe calls: the beacon node's syncing route.
    pub fn syncing_url(&self, url: &str) -> (r: String)
        ensures
            r@ == url@ + "/eth/v1/node/syncing"@,
    {
        let mut s = url.to_owned();
        s.append("/eth/v1/node/syncing");
        s
    }

    /// Judge the syncing response: healthy exactly when the body's
    /// `data.is_syncing` member is the boolean false. A transport failure,
    /// a malformed body or an absent member is judged still-syncing.
    pub fn on_syncing(&self, response: Option<&str>) -> (r: bool)
        ensures
            r == match response {
                Some(body) => json_data_is_syncing(body@) == Some(false),
                None => false,
            },
    {
        match response {
            Some(body) => syncing_verdict(extract_data_is_syncing(body)),
            None => false,
        }
    }
}

/// The closed set of probes, one variant per node role.
#[derive(Clone, Copy, PartialEq, Eq, Structural, Debug)]
pub enum HealthCheckEnum {
    Geth(GethHealthCheck),
    OpNode(OpNodeHealthCheck),
    Basic(BasicHealthCheck),
    Beacon(BeaconHealthCheck),
}

/// Which probe a configured role identifier selects: "el" the execution
/// layer probe, "cl" the consensus layer probe, "opnode" the no-op probe,
/// and anything else the basic probe.
pub open spec fn probe_for_role(role: Seq<char>) -> HealthCheckEnum {
    if role == "opnode"@ {
        HealthCheckEnum::OpNode(OpNodeHealthCheck {  })
    } else if role == "el"@ {
        HealthCheckEnum::Geth(GethHealthCheck {  })
    } else if role == "cl"@ {
        HealthCheckEnum::Beacon(BeaconHealthCheck {  })
    } else {
        HealthCheckEnum::Basic(BasicHealthCheck {  })
    }
}

impl HealthCheckEnum {
    /// Instantiate the probe a configured role identifier selects.
    pub fn for_client_type(client_type: &str) -> (r: Self)
        ensures
            r == probe_for_role(client_type@),
    {
        if str_eq(client_type, "opnode") {
            HealthCheckEnum::OpNode(OpNodeHealthCheck {  })
        } else if str_eq(client_type, "el") {
            HealthCheckEnum::Geth(GethHealthCheck {  })
        } else if str_eq(client_type, "cl") {
            HealthCheckEnum::Beacon(BeaconHealthCheck {  })
        } else {
            HealthCheckEnum::Basic(BasicHealthCheck {  })
        }
    }
}

} // verus!
