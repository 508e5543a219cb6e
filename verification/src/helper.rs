//! The elevation helper: a closed set of privileged operations the
//! unelevated app may request over a private pipe, the helper's decision for
//! each request line, and the pipe's name.
use vstd::prelude::*;

use crate::crypto::{hex_encode, hex_lower_chars, random_bytes};
use crate::text::{chars_of, push_chars};

verus! {

/// Current helper protocol version; a request of any other version is
/// refused rather than guessed at.
pub const HELPER_PROTOCOL_VERSION: u32 = 1;

/// A network to route into the adapter.
#[derive(Debug, Clone, Copy, PartialEq, Eq, Structural)]
pub struct RouteSpec {
    /// IPv4 network address, big-endian.
    pub network: u32,
    pub prefix: u8,
}

/// One privileged operation the app can ask the helper for.
#[derive(Debug, Clone, PartialEq, Eq)]
pub enum HelperRequest {
    /// Create the adapter and assign its IPv4 address.
    CreateAdapter { v: u32, name: String, virtual_ip: u32, prefix_len: u8 },
    ConfigureNetworkIntegration { v: u32, adapter_name: String },
    RemoveNetworkIntegration { v: u32, adapter_name: String },
    AddExtraRoutes { v: u32, adapter_name: String, routes: Vec<RouteSpec> },
    RemoveExtraRoutes { v: u32, adapter_name: String, routes: Vec<RouteSpec> },
    /// Ask the helper to exit.
    Shutdown { v: u32 },
}

/// The protocol version a request carries.
pub open spec fn request_version(r: HelperRequest) -> u32 {
    match r {
        HelperRequest::CreateAdapter { v, .. } => v,
        HelperRequest::ConfigureNetworkIntegration { v, .. } => v,
        HelperRequest::RemoveNetworkIntegration { v, .. } => v,
        HelperRequest::AddExtraRoutes { v, .. } => v,
        HelperRequest::RemoveExtraRoutes { v, .. } => v,
        HelperRequest::Shutdown { v } => v,
    }
}

impl HelperRequest {
    /// The protocol version this request was built with.
    pub fn version(&self) -> (v: u32)
        ensures
            v == request_version(*self),
    {
        match self {
            HelperRequest::CreateAdapter { v, .. } => *v,
            HelperRequest::ConfigureNetworkIntegration { v, .. } => *v,
            HelperRequest::RemoveNetworkIntegration { v, .. } => *v,
            HelperRequest::AddExtraRoutes { v, .. } => *v,
            HelperRequest::RemoveExtraRoutes { v, .. } => *v,
            HelperRequest::Shutdown { v } => *v,
        }
    }
}

/// The helper's reply to one request.
#[derive(Debug, Clone, PartialEq, Eq)]
pub enum HelperResponse {
    /// The operation succeeded (`Ok` on the wire).
    Okay,
    /// The request's version is not one this helper understands.
    UnsupportedVersion { supported: u32 },
    /// The operation was attempted and failed; the message is for display.
    Error { message: String },
}

/// A privileged operation to perform, taken from a request.
#[derive(Debug, Clone, PartialEq, Eq)]
pub enum HelperOperation {
    CreateAdapter { name: String, virtual_ip: u32, prefix_len: u8 },
    ConfigureNetworkIntegration { adapter_name: String },
    RemoveNetworkIntegration { adapter_name: String },
    AddExtraRoutes { adapter_name: String, routes: Vec<RouteSpec> },
    RemoveExtraRoutes { adapter_name: String, routes: Vec<RouteSpec> },
    /// Nothing to perform: the helper replies and exits.
    Shutdown,
}

/// The operation a request asks for.
pub open spec fn operation_of_request(r: HelperRequest) -> HelperOperation {
    match r {
        HelperRequest::CreateAdapter { name, virtual_ip, prefix_len, .. } => HelperOperation::CreateAdapter {
            name,
            virtual_ip,
            prefix_len,
        },
        HelperRequest::ConfigureNetworkIntegration { adapter_name, .. } => HelperOperation::ConfigureNetworkIntegration {
            adapter_name,
        },
        HelperRequest::RemoveNetworkIntegration { adapter_name, .. } => HelperOperation::RemoveNetworkIntegration {
            adapter_name,
        },
        HelperRequest::AddExtraRoutes { adapter_name, routes, .. } => HelperOperation::AddExtraRoutes {
            adapter_name,
            routes,
        },
        HelperRequest::RemoveExtraRoutes { adapter_name, routes, .. } => HelperOperation::RemoveExtraRoutes {
            adapter_name,
            routes,
        },
        HelperRequest::Shutdown { .. } => HelperOperation::Shutdown,
    }
}

/// What the helper does with one request line.
#[derive(Debug)]
pub enum HelperStep {
    /// Reply without performing anything, and read the next line.
    Reply(HelperResponse),
    /// Perform `operation`, reply with its outcome, and exit afterwards when
    /// `then_stop`.
    Perform { operation: HelperOperation, then_stop: bool },
}

/// The helper's decision for a line that decoded to `decoded` (or failed to,
/// with the parser's message): a decode failure is answered with an error, a
/// foreign version with the supported one, anything else is performed, and
/// `Shutdown` ends the session.
pub fn step_for(decoded: Result<HelperRequest, String>) -> (s: HelperStep)
    ensures
        decoded matches Err(m) ==> (s matches HelperStep::Reply(HelperResponse::Error { message }) && message == m),
        decoded matches Ok(r) ==> (request_version(r) != HELPER_PROTOCOL_VERSION ==> (s matches HelperStep::Reply(
            HelperResponse::UnsupportedVersion { supported },
        ) && supported == HELPER_PROTOCOL_VERSION)),
        decoded matches Ok(r) ==> (request_version(r) == HELPER_PROTOCOL_VERSION ==> (s matches HelperStep::Perform {
            operation,
            then_stop,
        } && operation == operation_of_request(r) && then_stop == r is Shutdown)),
{
    let request = match decoded {
        Ok(r) => r,
        Err(message) => {
            return HelperStep::Reply(HelperResponse::Error { message });
        },
    };
    if request.version() != HELPER_PROTOCOL_VERSION {
        return HelperStep::Reply(HelperResponse::UnsupportedVersion { supported: HELPER_PROTOCOL_VERSION });
    }
    let then_stop = match &request {
        HelperRequest::Shutdown { .. } => true,
        _ => false,
    };
    let operation = match request {
        HelperRequest::CreateAdapter { name, virtual_ip, prefix_len, .. } => HelperOperation::CreateAdapter {
            name,
            virtual_ip,
            prefix_len,
        },
        HelperRequest::ConfigureNetworkIntegration { adapter_name, .. } => HelperOperation::ConfigureNetworkIntegration {
            adapter_name,
        },
        HelperRequest::RemoveNetworkIntegration { adapter_name, .. } => HelperOperation::RemoveNetworkIntegration {
            adapter_name,
        },
        HelperRequest::AddExtraRoutes { adapter_name, routes, .. } => HelperOperation::AddExtraRoutes {
            adapter_name,
            routes,
        },
        HelperRequest::RemoveExtraRoutes { adapter_name, routes, .. } => HelperOperation::RemoveExtraRoutes {
            adapter_name,
            routes,
        },
        HelperRequest::Shutdown { .. } => HelperOperation::Shutdown,
    };
    HelperStep::Perform { operation, then_stop }
}

/// The reply to a performed operation: success, or its failure message.
pub fn response_of(outcome: Result<(), String>) -> (r: HelperResponse)
    ensures
        outcome is Ok ==> r == HelperResponse::Okay,
        outcome matches Err(m) ==> r == (HelperResponse::Error { message: m }),
{
    match outcome {
        Ok(()) => HelperResponse::Okay,
        Err(message) => HelperResponse::Error { message },
    }
}

/// The fixed part of every helper pipe name.
pub open spec fn pipe_prefix() -> Seq<char> {
    "\\\\.\\pipe\\PlayerClubVPN-Helper-"@
}

/// The pipe name for one launch's helper: a fixed prefix and `unique_suffix`.
pub fn pipe_name(unique_suffix: &str) -> (n: String)
    ensures
        n@ == pipe_prefix() + unique_suffix@,
{
    let mut n = "\\\\.\\pipe\\PlayerClubVPN-Helper-".to_owned();
    push_chars(&mut n, chars_of(unique_suffix).as_slice());
    n
}

/// Different suffixes give different pipe names, so two launches never share
/// a pipe.
pub proof fn law_pipe_names_are_distinct(a: Seq<char>, b: Seq<char>)
    ensures
        a != b ==> pipe_prefix() + a != pipe_prefix() + b,
{
    if a != b && pipe_prefix() + a == pipe_prefix() + b {
        let p = pipe_prefix();
        assert(a =~= (p + a).skip(p.len() as int));
        assert(b =~= (p + b).skip(p.len() as int));
    }
}

/// A fresh pipe-name suffix: sixteen lower-case hex digits of eight random
/// bytes.
pub fn random_suffix() -> (s: String)
    ensures
        exists|b: Seq<u8>| b.len() == 8 && s@ == hex_lower_chars(b),
        s@.len() == 16,
{
    let b = random_bytes(8);
    proof {
        crate::crypto::lemma_hex_len(b@);
    }
    hex_encode(b.as_slice())
}

} // verus!
