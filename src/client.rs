//! Per-connection state: reading a request, then writing its response, then
//! reading again with a fresh parser; plus the idle-timeout sweep and the
//! choice of configuration for a listener. The socket itself is the
//! caller's.
use vstd::prelude::*;
use crate::bytes::slice_of;
use crate::config::ServerConfig;
use crate::http_parser::{
    empty_request, feed, initial_parser, run, HttpParser, HttpRequest, ParseError, ParserView,
    RequestView,
};

verus! {

/// Bytes read from a socket at a time.
pub const BUFFER_SIZE: usize = 8192;

/// Readiness events taken per wait.
pub const MAX_EVENTS: usize = 1024;

/// Milliseconds a wait for readiness may block; the timeout sweep runs
/// after each wait.
pub const WAIT_TIMEOUT_MS: i32 = 1000;

/// Milliseconds without I/O after which a connection is closed.
pub const CLIENT_TIMEOUT_MS: u64 = 30000;

/// Seconds a session lives without being used.
pub const SESSION_MAX_AGE_SECS: u64 = 3600;

pub enum ClientState {
    Reading,
    Writing { response: Vec<u8>, written: usize },
}

pub struct Client {
    pub state: ClientState,
    pub parser: HttpParser,
    pub request: HttpRequest,
    /// Milliseconds on the server's monotonic clock.
    pub last_activity: u64,
    /// Index of the server configuration whose listener accepted the connection.
    pub server: usize,
    /// The request could not be parsed: once its 400 response is written,
    /// the connection is closed.
    pub close_after_write: bool,
}

#[derive(Clone, Copy, PartialEq, Eq, Structural, Debug)]
pub enum ReadOutcome {
    /// More bytes are needed.
    Incomplete,
    /// The request is complete and can be dispatched.
    Complete,
    /// The bytes are not a request; the answer is 400.
    Malformed,
}

/// Milliseconds between `last` and `now` on a monotonic clock.
pub open spec fn idle_ms(now: u64, last: u64) -> int {
    if now >= last {
        now - last
    } else {
        0
    }
}

pub open spec fn is_timed_out(now: u64, last: u64) -> bool {
    idle_ms(now, last) > CLIENT_TIMEOUT_MS
}

impl Client {
    pub fn new(server: usize, now: u64) -> (r: Client)
        ensures
            r.state is Reading,
            r.parser@ == initial_parser(),
            r.request@ == empty_request(),
            r.last_activity == now,
            r.server == server,
            !r.close_after_write,
    {
        Client {
            state: ClientState::Reading,
            parser: HttpParser::new(),
            request: HttpRequest::new(),
            last_activity: now,
            server,
            close_after_write: false,
        }
    }

    /// Feeds bytes read from the socket to the parser.
    pub fn on_read(&mut self, data: &[u8], now: u64) -> (r: ReadOutcome)
        ensures
            final(self).last_activity == now,
            final(self).server == old(self).server,
            final(self).close_after_write == (old(self).close_after_write || r
                == ReadOutcome::Malformed),
            r == ReadOutcome::Malformed <==> run(
                feed(old(self).parser@, data@),
                old(self).request@,
            ) is Err,
            r != ReadOutcome::Malformed ==> run(feed(old(self).parser@, data@), old(self).request@)
                == Ok::<(ParserView, RequestView), ParseError>(
                (final(self).parser@, final(self).request@),
            ),
            r == ReadOutcome::Complete <==> (r != ReadOutcome::Malformed
                && final(self).request@.complete),
    {
        self.last_activity = now;
        match self.parser.parse(data, &mut self.request) {
            Err(_) => {
                self.close_after_write = true;
                ReadOutcome::Malformed
            },
            Ok(()) => {
                if self.request.complete {
                    ReadOutcome::Complete
                } else {
                    ReadOutcome::Incomplete
                }
            },
        }
    }

    /// Queues a serialized response; nothing of it is written yet.
    pub fn start_writing(&mut self, response: Vec<u8>)
        ensures
            final(self).state matches ClientState::Writing { response: r, written: w } && r@
                == response@ && w == 0,
            final(self).parser@ == old(self).parser@,
            final(self).request@ == old(self).request@,
            final(self).last_activity == old(self).last_activity,
            final(self).server == old(self).server,
            final(self).close_after_write == old(self).close_after_write,
    {
        self.state = ClientState::Writing { response, written: 0 };
    }

    /// The part of the queued response that is not written yet.
    pub fn unwritten(&self) -> (r: Vec<u8>)
        ensures
            self.state matches ClientState::Writing { response, written } ==> written
                <= response@.len() ==> r@ == response@.subrange(
                written as int,
                response@.len() as int,
            ),
            self.state is Reading ==> r@.len() == 0,
    {
        match &self.state {
            ClientState::Writing { response, written } => {
                if *written <= response.len() {
                    slice_of(response.as_slice(), *written, response.len())
                } else {
                    Vec::new()
                }
            },
            ClientState::Reading => Vec::new(),
        }
    }

    /// Records that `n` more bytes of the response were written. Once all of
    /// it is out, the connection reads again with a fresh parser and an
    /// empty request: nothing of one request reaches the next.
    pub fn on_written(&mut self, n: usize, now: u64) -> (done: bool)
        requires
            old(self).state matches ClientState::Writing { response, written } ==> written + n
                <= response@.len(),
        ensures
            final(self).last_activity == now,
            final(self).server == old(self).server,
            final(self).close_after_write == old(self).close_after_write,
            old(self).state is Reading ==> !done && final(self).state is Reading
                && final(self).parser@ == old(self).parser@ && final(self).request@ == old(
                self,
            ).request@,
            old(self).state matches ClientState::Writing { response, written } ==> {
                &&& done == (written + n >= response@.len())
                &&& done ==> final(self).state is Reading && final(self).parser@
                    == initial_parser() && final(self).request@ == empty_request()
                &&& !done ==> (final(self).state matches ClientState::Writing {
                    response: r2,
                    written: w2,
                } && r2@ == response@ && w2 == written + n)
                &&& !done ==> final(self).parser@ == old(self).parser@ && final(self).request@
                    == old(self).request@
            },
    {
        self.last_activity = now;
        let finished = match &mut self.state {
            ClientState::Writing { response, written } => {
                let len = response.len();
                assert(*written + n <= len);
                *written = *written + n;
                *written >= len
            },
            ClientState::Reading => {
                return false;
            },
        };
        if finished {
            self.state = ClientState::Reading;
            self.parser = HttpParser::new();
            self.request = HttpRequest::new();
        }
        finished
    }

    /// No I/O for longer than the idle timeout.
    pub fn timed_out(&self, now: u64) -> (r: bool)
        ensures
            r == is_timed_out(now, self.last_activity),
    {
        now >= self.last_activity && now - self.last_activity > CLIENT_TIMEOUT_MS
    }
}

/// The handles of the connections idle past the timeout, in table order.
pub open spec fn timed_out_handles(now: u64, table: Seq<(i32, u64)>) -> Seq<i32>
    decreases table.len(),
{
    if table.len() == 0 {
        Seq::empty()
    } else {
        let rest = timed_out_handles(now, table.drop_last());
        if is_timed_out(now, table.last().1) {
            rest.push(table.last().0)
        } else {
            rest
        }
    }
}

/// The timeout sweep closes exactly the idle connections: a handle is
/// selected at `now` if and only if some connection with that handle has
/// had no I/O for longer than the idle timeout.
pub proof fn lemma_sweep_selects(now: u64, table: Seq<(i32, u64)>)
    ensures
        forall|i: int|
            0 <= i < table.len() && is_timed_out(now, table[i].1) ==> timed_out_handles(
                now,
                table,
            ).contains(#[trigger] table[i].0),
        forall|h: i32|
            timed_out_handles(now, table).contains(h) ==> exists|i: int|
                0 <= i < table.len() && #[trigger] table[i].0 == h && is_timed_out(now, table[i].1),
    decreases table.len(),
{
    if table.len() > 0 {
        let init = table.drop_last();
        lemma_sweep_selects(now, init);
        let rest = timed_out_handles(now, init);
        assert forall|i: int|
            0 <= i < table.len() && is_timed_out(now, table[i].1) implies timed_out_handles(
            now,
            table,
        ).contains(#[trigger] table[i].0) by {
            if i < table.len() - 1 {
                assert(init[i] == table[i]);
                assert(rest.contains(init[i].0));
                let k = choose|k: int| 0 <= k < rest.len() && rest[k] == init[i].0;
                if is_timed_out(now, table.last().1) {
                    assert(rest.push(table.last().0)[k] == table[i].0);
                }
            } else {
                assert(rest.push(table.last().0)[rest.len() as int] == table[i].0);
            }
        }
        assert forall|h: i32| timed_out_handles(now, table).contains(h) implies exists|i: int|
            0 <= i < table.len() && #[trigger] table[i].0 == h && is_timed_out(now, table[i].1) by {
            let out = timed_out_handles(now, table);
            let k = choose|k: int| 0 <= k < out.len() && out[k] == h;
            if k < rest.len() {
                assert(rest[k] == h);
                assert(rest.contains(h));
                let i = choose|i: int|
                    0 <= i < init.len() && #[trigger] init[i].0 == h && is_timed_out(now, init[i].1);
                assert(table[i] == init[i]);
            } else {
                assert(table[table.len() - 1].0 == h);
            }
        }
    }
}

/// The timeout sweep: from (handle, last activity) pairs, the handles to
/// close at `now`.
pub fn check_timeouts(now: u64, table: &Vec<(i32, u64)>) -> (r: Vec<i32>)
    ensures
        r@ == timed_out_handles(now, table@),
{
    let mut r: Vec<i32> = Vec::new();
    let mut i: usize = 0;
    while i < table.len()
        invariant
            i <= table@.len(),
            r@ == timed_out_handles(now, table@.subrange(0, i as int)),
        decreases table@.len() - i,
    {
        let (fd, last) = table[i];
        assert(table@.subrange(0, i + 1).drop_last() =~= table@.subrange(0, i as int));
        if now >= last && now - last > CLIENT_TIMEOUT_MS {
            r.push(fd);
        }
        i = i + 1;
    }
    assert(table@.subrange(0, i as int) =~= table@);
    r
}

/// The configuration for a listener's port: the first server on that
/// port, else the first server.
pub fn find_server_config(servers: &Vec<ServerConfig>, port: u16) -> (r: usize)
    requires
        servers@.len() > 0,
    ensures
        r < servers@.len(),
        servers@[r as int].port == port ==> forall|j: int| 0 <= j < r ==> servers@[j].port != port,
        servers@[r as int].port != port ==> r == 0 && forall|j: int|
            0 <= j < servers@.len() ==> servers@[j].port != port,
{
    let mut i: usize = 0;
    while i < servers.len()
        invariant
            i <= servers@.len(),
            forall|j: int| 0 <= j < i ==> servers@[j].port != port,
        decreases servers@.len() - i,
    {
        if servers[i].port == port {
            return i;
        }
        i = i + 1;
    }
    0
}

} // verus!
