//! What the client's session methods decide around each exchange: whether a
//! request may go on the wire at all, and what the caller gets back.
use vstd::prelude::*;

use crate::client::RequestIds;
use crate::{DAEMON_CLIENT_VERSION, DAEMON_VERSION};

verus! {

/// Why a session call failed.
pub enum CallError<E> {
    /// No response came within the deadline.
    ServerTimeOut,
    /// The call cannot be carried over the network.
    Custom(String),
    /// The daemon's session refused the call.
    Session(E),
}

/// Calls whose arguments or results live only in the daemon's process.
#[derive(Clone, Copy, PartialEq, Eq, Structural, Debug)]
pub enum LocalOnly {
    RegisterAction,
    RemoveAction,
    ModuleStepElement,
    ModuleStepLocation,
    SetEnabledWithStorage,
}

/// Rows of the daemon's session, which a destroy or remove call would hand
/// back and which cannot travel.
#[derive(Clone, Copy, PartialEq, Eq, Structural, Debug)]
pub enum RowKind {
    Element,
    Location,
    Module,
}

pub open spec fn refusal_text(op: LocalOnly) -> Seq<char> {
    match op {
        LocalOnly::RegisterAction => "cannot register action over the network: a callback is not transferable"@,
        LocalOnly::RemoveAction => "cannot remove action over the network: actions cannot be registered"@,
        LocalOnly::ModuleStepElement => "cannot step an element over the network: Storage is not transferable"@,
        LocalOnly::ModuleStepLocation => "cannot step a location over the network: Storage is not transferable"@,
        LocalOnly::SetEnabledWithStorage => "cannot enable an element with Storage over the network: Storage is not transferable"@,
    }
}

pub open spec fn row_text(kind: RowKind) -> Seq<char> {
    match kind {
        RowKind::Element => "Cannot Transfer ERow"@,
        RowKind::Location => "LRow Cannot be transfered!"@,
        RowKind::Module => "Cannot be transfered"@,
    }
}

/// `r` is the `Custom` error with message `text`.
pub open spec fn is_custom<T, E>(r: Result<T, CallError<E>>, text: Seq<char>) -> bool {
    match r {
        Err(CallError::Custom(m)) => m@ == text,
        _ => false,
    }
}

pub open spec fn exhausted_text() -> Seq<char> {
    "request ids exhausted"@
}

/// The message of the error that a local-only call returns.
pub fn refusal(op: LocalOnly) -> (r: String)
    ensures
        r@ == refusal_text(op),
{
    let s = match op {
        LocalOnly::RegisterAction => "cannot register action over the network: a callback is not transferable",
        LocalOnly::RemoveAction => "cannot remove action over the network: actions cannot be registered",
        LocalOnly::ModuleStepElement => "cannot step an element over the network: Storage is not transferable",
        LocalOnly::ModuleStepLocation => "cannot step a location over the network: Storage is not transferable",
        LocalOnly::SetEnabledWithStorage => "cannot enable an element with Storage over the network: Storage is not transferable",
    };
    s.to_owned()
}

/// Which call `element_set_enabled` is: local-only when it carries storage.
pub fn set_enabled_call(with_storage: bool) -> (r: Option<LocalOnly>)
    ensures
        with_storage ==> r == Some(LocalOnly::SetEnabledWithStorage),
        !with_storage ==> r is None,
{
    if with_storage {
        Some(LocalOnly::SetEnabledWithStorage)
    } else {
        None
    }
}

/// What opening a call does to the request ids and what it returns (see
/// `start`).
pub open spec fn started<E>(ids: RequestIds, local_only: Option<LocalOnly>, ids2: RequestIds, r: Result<u128, CallError<E>>) -> bool {
    match local_only {
        Some(op) => ids2.peek() == ids.peek() && is_custom(r, refusal_text(op)),
        None => if ids.peek() < u128::MAX {
            r == Ok::<u128, CallError<E>>(ids.peek()) && ids2.peek() == ids.peek() + 1
        } else {
            ids2.peek() == ids.peek() && is_custom(r, exhausted_text())
        },
    }
}

/// Opens a call: a local-only call fails at once and takes no request id, so
/// nothing is sent; any other gets a fresh request id to send with.
pub fn start<E>(ids: &mut RequestIds, local_only: Option<LocalOnly>) -> (r: Result<u128, CallError<E>>)
    requires
        old(ids).wf(),
    ensures
        final(ids).wf(),
        started(*old(ids), local_only, *final(ids), r),
{
    match local_only {
        Some(op) => Err(CallError::Custom(refusal(op))),
        None => match ids.generate() {
            Some(id) => Ok(id),
            None => Err(CallError::Custom("request ids exhausted".to_owned())),
        },
    }
}

/// The caller's result from what the wait for a response gave: the
/// daemon's answer, or a time out when none came.
pub fn settle<T, E>(reply: Option<Result<T, E>>) -> (r: Result<T, CallError<E>>)
    ensures
        match reply {
            None => r matches Err(CallError::ServerTimeOut),
            Some(Ok(t)) => r == Ok::<T, CallError<E>>(t),
            Some(Err(e)) => r == Err::<T, CallError<E>>(CallError::Session(e)),
        },
{
    match reply {
        None => Err(CallError::ServerTimeOut),
        Some(Ok(t)) => Ok(t),
        Some(Err(e)) => Err(CallError::Session(e)),
    }
}

/// The caller's result from a destroy or remove call: its row stays with the
/// daemon, so success too is reported as an error that says so.
pub fn settle_row<E>(reply: Option<Result<(), E>>, kind: RowKind) -> (r: CallError<E>)
    ensures
        match reply {
            None => r is ServerTimeOut,
            Some(Ok(_)) => r matches CallError::Custom(m) && m@ == row_text(kind),
            Some(Err(e)) => r == CallError::Session(e),
        },
{
    match reply {
        None => CallError::ServerTimeOut,
        Some(Ok(_)) => {
            let s = match kind {
                RowKind::Element => "Cannot Transfer ERow",
                RowKind::Location => "LRow Cannot be transfered!",
                RowKind::Module => "Cannot be transfered",
            };
            CallError::Custom(s.to_owned())
        },
        Some(Err(e)) => CallError::Session(e),
    }
}

/// The decimal digits of `n`.
pub open spec fn decimal(n: nat) -> Seq<char>
    decreases n,
{
    if n < 10 {
        seq![digit_char(n)]
    } else {
        decimal(n / 10) + seq![digit_char(n % 10)]
    }
}

pub open spec fn digit_char(d: nat) -> char {
    if d < 10 {
        ((d + 48) as u8) as char
    } else {
        '?'
    }
}

fn digit_str(d: u64) -> (r: &'static str)
    requires
        d < 10,
    ensures
        r@ == seq![digit_char(d as nat)],
{
    proof {
        reveal_strlit("0");
        reveal_strlit("1");
        reveal_strlit("2");
        reveal_strlit("3");
        reveal_strlit("4");
        reveal_strlit("5");
        reveal_strlit("6");
        reveal_strlit("7");
        reveal_strlit("8");
        reveal_strlit("9");
    }
    let r = if d == 0 {
        "0"
    } else if d == 1 {
        "1"
    } else if d == 2 {
        "2"
    } else if d == 3 {
        "3"
    } else if d == 4 {
        "4"
    } else if d == 5 {
        "5"
    } else if d == 6 {
        "6"
    } else if d == 7 {
        "7"
    } else if d == 8 {
        "8"
    } else {
        "9"
    };
    assert(r@ =~= seq![digit_char(d as nat)]);
    r
}

/// Appends the decimal digits of `n` to `s`.
pub fn push_decimal(s: &mut String, n: u64)
    ensures
        final(s)@ == old(s)@ + decimal(n as nat),
    decreases n,
{
    if n >= 10 {
        push_decimal(s, n / 10);
    }
    s.append(digit_str(n % 10));
    proof {
        if n >= 10 {
            assert(final(s)@ =~= old(s)@ + decimal(n as nat));
        } else {
            assert(final(s)@ =~= old(s)@ + decimal(n as nat));
        }
    }
}

/// The daemon's version text: `"<session version>, Daemon: <daemon version>"`.
pub fn daemon_version_text(session_version: u64) -> (r: String)
    ensures
        r@ == decimal(session_version as nat) + ", Daemon: "@ + decimal(DAEMON_VERSION as nat),
{
    let mut s = String::new();
    push_decimal(&mut s, session_version);
    s.append(", Daemon: ");
    push_decimal(&mut s, DAEMON_VERSION);
    assert(s@ =~= decimal(session_version as nat) + ", Daemon: "@ + decimal(DAEMON_VERSION as nat));
    s
}

/// The version text that the client hands its caller: the daemon's text,
/// then `", DaemonClient: <client version>"`.
pub fn client_version_text(daemon_text: &str) -> (r: String)
    ensures
        r@ == daemon_text@ + ", DaemonClient: "@ + decimal(DAEMON_CLIENT_VERSION as nat),
{
    let mut s = daemon_text.to_owned();
    s.append(", DaemonClient: ");
    push_decimal(&mut s, DAEMON_CLIENT_VERSION);
    s
}

} // verus!
