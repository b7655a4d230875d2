//! What the network server decides: its address, its pool and engine, and
//! the server interface.
use crate::engine::EngineKind;
use crate::error::KvsError;
use crate::layout::decimal_of;
use crate::text::same_text;
use vstd::prelude::*;

verus! {

/// A server that can be run and closed from another thread.
pub trait IKvsServer {
    /// Serves connections until `close` is called.
    fn run(&self) -> Result<(), KvsError>;

    /// Asks the server to stop and waits until no connection is live.
    fn close(&self);
}

/// The thread pools a server can hand its connections to.
#[derive(Clone, Copy, Debug, PartialEq, Eq, Structural)]
pub enum PoolKind {
    SharedQueue,
    Rayon,
}

/// The pool and engine that the names `pool_name` and `engine_name` select,
/// among the combinations a server supports.
pub open spec fn server_kind_of(pool_name: Seq<char>, engine_name: Seq<char>) -> Option<(PoolKind, EngineKind)> {
    if pool_name == "shared_queue_pool"@ && engine_name == "kvs"@ {
        Some((PoolKind::SharedQueue, EngineKind::Kvs))
    } else if pool_name == "rayon"@ && engine_name == "kvs"@ {
        Some((PoolKind::Rayon, EngineKind::Kvs))
    } else if pool_name == "rayon"@ && engine_name == "sled"@ {
        Some((PoolKind::Rayon, EngineKind::Sled))
    } else {
        None
    }
}

/// The pool and engine of a supported server configuration.
pub fn server_kind(pool_name: &str, engine_name: &str) -> (r: (PoolKind, EngineKind))
    requires
        server_kind_of(pool_name@, engine_name@) is Some,
    ensures
        Some(r) == server_kind_of(pool_name@, engine_name@),
{
    let queue = same_text(pool_name, "shared_queue_pool");
    let kvs = same_text(engine_name, "kvs");
    if queue && kvs {
        (PoolKind::SharedQueue, EngineKind::Kvs)
    } else if kvs {
        (PoolKind::Rayon, EngineKind::Kvs)
    } else {
        (PoolKind::Rayon, EngineKind::Sled)
    }
}

/// What happens on the listener: a connection came in, none is waiting, or
/// accepting failed.
#[derive(Clone, Copy, Debug, PartialEq, Eq, Structural)]
pub enum AcceptEvent {
    Connection,
    WouldBlock,
    Failed,
}

/// What the accept loop does next: serve the connection on the pool, stop,
/// sleep before polling again, or fail.
#[derive(Clone, Copy, Debug, PartialEq, Eq, Structural)]
pub enum AcceptAction {
    Serve,
    Stop,
    Sleep { millis: u64 },
    Fail,
}

/// How long the accept loop sleeps when no connection is waiting.
pub const ACCEPT_POLL_MILLIS: u64 = 10;

/// How long `close` sleeps between two looks at the live connections.
pub const CLOSE_POLL_MILLIS: u64 = 100;

/// The accept loop's decision: serve each connection; when none is waiting,
/// stop once the server is closed and poll again later otherwise; give up
/// when accepting fails.
pub open spec fn accept_action(closed: bool, ev: AcceptEvent) -> AcceptAction {
    match ev {
        AcceptEvent::Connection => AcceptAction::Serve,
        AcceptEvent::WouldBlock => if closed {
            AcceptAction::Stop
        } else {
            AcceptAction::Sleep { millis: ACCEPT_POLL_MILLIS }
        },
        AcceptEvent::Failed => AcceptAction::Fail,
    }
}

/// One step of the accept loop (see [`accept_action`]).
pub fn accept_step(closed: bool, ev: AcceptEvent) -> (r: AcceptAction)
    ensures
        r == accept_action(closed, ev),
{
    match ev {
        AcceptEvent::Connection => AcceptAction::Serve,
        AcceptEvent::WouldBlock => if closed {
            AcceptAction::Stop
        } else {
            AcceptAction::Sleep { millis: ACCEPT_POLL_MILLIS }
        },
        AcceptEvent::Failed => AcceptAction::Fail,
    }
}

/// One step of `close`: with `live` connections still being served, how
/// long to sleep before looking again; `None` once none is live.
pub fn close_step(live: usize) -> (r: Option<u64>)
    ensures
        live == 0 ==> r is None,
        live > 0 ==> r == Some(CLOSE_POLL_MILLIS),
{
    if live == 0 {
        None
    } else {
        Some(CLOSE_POLL_MILLIS)
    }
}

/// What a connection handler does next.
#[derive(Clone, Copy, Debug, PartialEq, Eq, Structural)]
pub enum ConnectionAction {
    /// Decode and answer the request just read.
    Handle,
    /// Wait for the next request on the same connection.
    Continue,
    /// Shut the connection down.
    Shutdown,
    /// The client closed the connection: stop.
    Stop,
}

/// After a read of `n` bytes: a read of nothing means the client has closed
/// the connection.
pub fn read_step(n: usize) -> (r: ConnectionAction)
    ensures
        n == 0 ==> r == ConnectionAction::Stop,
        n > 0 ==> r == ConnectionAction::Handle,
{
    if n == 0 {
        ConnectionAction::Stop
    } else {
        ConnectionAction::Handle
    }
}

/// After a reply has been written: shut the connection down once the server
/// is closed, else wait for the next request.
pub fn reply_step(closed: bool) -> (r: ConnectionAction)
    ensures
        closed ==> r == ConnectionAction::Shutdown,
        !closed ==> r == ConnectionAction::Continue,
{
    if closed {
        ConnectionAction::Shutdown
    } else {
        ConnectionAction::Continue
    }
}

/// The index of the first `:` of `s` at or after `from`, or `s.len()`.
pub open spec fn colon_from(s: Seq<char>, from: int) -> int
    decreases s.len() - from,
{
    if from < 0 || from >= s.len() {
        s.len() as int
    } else if s[from] == ':' {
        from
    } else {
        colon_from(s, from + 1)
    }
}

/// The host and port of `HOST:PORT`: the host is what stands before the
/// first `:`, the port the decimal number between it and the next `:` (or
/// the end), which must fit in a `u16`.
pub open spec fn host_port_of(s: Seq<char>) -> Option<(Seq<char>, u16)> {
    let c = colon_from(s, 0);
    if c >= s.len() {
        None
    } else {
        match decimal_of(s.subrange(c + 1, colon_from(s, c + 1))) {
            Some(p) => if p <= u16::MAX {
                Some((s.subrange(0, c), p as u16))
            } else {
                None
            },
            None => None,
        }
    }
}

fn find_colon(s: &str, from: usize, len: usize) -> (r: usize)
    requires
        len == s@.len(),
        from <= len,
    ensures
        r == colon_from(s@, from as int),
        from <= r <= len,
    decreases len - from,
{
    if from == len {
        len
    } else if s.get_char(from) == ':' {
        from
    } else {
        find_colon(s, from + 1, len)
    }
}

/// Splits an address `HOST:PORT` (see [`host_port_of`]); fails with `Other`
/// when there is no port or it is not a `u16`. The host is read as an IP
/// address by the caller.
pub fn split_host_port(ip_port: &str) -> (r: Result<(String, u16), KvsError>)
    ensures
        match host_port_of(ip_port@) {
            Some((h, p)) => r matches Ok((host, port)) && host@ == h && port == p,
            None => r matches Err(KvsError::Other { .. }),
        },
{
    let len = ip_port.unicode_len();
    let c = find_colon(ip_port, 0, len);
    if c == len {
        return Err(KvsError::Other { message: "invalid port".to_owned() });
    }
    let e = find_colon(ip_port, c + 1, len);
    match crate::layout::parse_decimal(ip_port, c + 1, e) {
        Some(p) => {
            if p <= 65535 {
                Ok((ip_port.substring_char(0, c).to_owned(), p as u16))
            } else {
                Err(KvsError::Other { message: "invalid port".to_owned() })
            }
        },
        None => Err(KvsError::Other { message: "invalid port".to_owned() }),
    }
}

} // verus!
