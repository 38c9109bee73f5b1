//! The core of a continuous-integration service: it receives build requests from
//! sources of jobs (web UI, web hooks, repository watchers), queues them, and hands
//! them out to the executors that report themselves available.
use vstd::prelude::*;
use vstd::string::StringExecFns;

pub mod net;
pub mod scheduler;
pub mod jobs;
pub mod transfer;
pub mod history;
pub mod laws;

verus! {

/// Where the core listens.
#[derive(Debug, Clone)]
pub struct Config {
    pub incoming_bind_host: String,
    pub incoming_bind_port: u32,
    pub executor_bind_host: String,
    pub executor_bind_port: u32,
}

/// A configuration file as read: each field may be missing.
#[derive(Debug, Clone)]
pub struct PartialConfig {
    pub incoming_bind_host: Option<String>,
    pub incoming_bind_port: Option<u32>,
    pub executor_bind_host: Option<String>,
    pub executor_bind_port: Option<u32>,
}

/// The host both listeners bind to unless configured otherwise: every interface.
pub open spec fn default_host() -> Seq<char> {
    seq!['0', '.', '0', '.', '0', '.', '0']
}

pub open spec fn default_incoming_port() -> u32 {
    5632
}

pub open spec fn default_executor_port() -> u32 {
    5633
}

fn any_interface() -> (h: String)
    ensures
        h@ == default_host(),
{
    let h = String::from_str("0.0.0.0");
    proof {
        reveal_strlit("0.0.0.0");
        assert(h@ =~= default_host());
    }
    h
}

impl Config {
    pub fn default_incoming_bind_host() -> (h: String)
        ensures
            h@ == default_host(),
    {
        any_interface()
    }

    pub fn default_incoming_bind_port() -> (p: u32)
        ensures
            p == default_incoming_port(),
    {
        5632
    }

    pub fn default_executor_bind_host() -> (h: String)
        ensures
            h@ == default_host(),
    {
        any_interface()
    }

    pub fn default_executor_bind_port() -> (p: u32)
        ensures
            p == default_executor_port(),
    {
        5633
    }

    /// Fills each missing field of `partial` with its default.
    pub fn from_partial(partial: PartialConfig) -> (c: Config)
        ensures
            c.incoming_bind_host@ == match partial.incoming_bind_host {
                Some(h) => h@,
                None => default_host(),
            },
            c.incoming_bind_port == match partial.incoming_bind_port {
                Some(p) => p,
                None => default_incoming_port(),
            },
            c.executor_bind_host@ == match partial.executor_bind_host {
                Some(h) => h@,
                None => default_host(),
            },
            c.executor_bind_port == match partial.executor_bind_port {
                Some(p) => p,
                None => default_executor_port(),
            },
    {
        Config {
            incoming_bind_host: match partial.incoming_bind_host {
                Some(h) => h,
                None => Config::default_incoming_bind_host(),
            },
            incoming_bind_port: match partial.incoming_bind_port {
                Some(p) => p,
                None => Config::default_incoming_bind_port(),
            },
            executor_bind_host: match partial.executor_bind_host {
                Some(h) => h,
                None => Config::default_executor_bind_host(),
            },
            executor_bind_port: match partial.executor_bind_port {
                Some(p) => p,
                None => Config::default_executor_bind_port(),
            },
        }
    }

    /// The address the listener of sources of jobs binds to, as `host:port`.
    pub fn incoming_address(&self) -> (a: String)
        ensures
            a@ == socket_address(self.incoming_bind_host@, self.incoming_bind_port as nat),
    {
        address(&self.incoming_bind_host, self.incoming_bind_port)
    }

    /// The address the listener of executors binds to, as `host:port`.
    pub fn executor_address(&self) -> (a: String)
        ensures
            a@ == socket_address(self.executor_bind_host@, self.executor_bind_port as nat),
    {
        address(&self.executor_bind_host, self.executor_bind_port)
    }
}

impl Default for Config {
    fn default() -> (c: Config)
        ensures
            c.incoming_bind_host@ == default_host(),
            c.incoming_bind_port == default_incoming_port(),
            c.executor_bind_host@ == default_host(),
            c.executor_bind_port == default_executor_port(),
    {
        Config {
            incoming_bind_host: Config::default_incoming_bind_host(),
            incoming_bind_port: Config::default_incoming_bind_port(),
            executor_bind_host: Config::default_executor_bind_host(),
            executor_bind_port: Config::default_executor_bind_port(),
        }
    }
}

/// The configuration to run with: that of the file when there is one (`Some`),
/// with defaults for what it leaves out; the defaults when there is none.
pub fn config_from_file(file: Option<PartialConfig>) -> (c: Config)
    ensures
        c.incoming_bind_host@ == match file {
            Some(p) => match p.incoming_bind_host {
                Some(h) => h@,
                None => default_host(),
            },
            None => default_host(),
        },
        c.incoming_bind_port == match file {
            Some(p) => match p.incoming_bind_port {
                Some(x) => x,
                None => default_incoming_port(),
            },
            None => default_incoming_port(),
        },
        c.executor_bind_host@ == match file {
            Some(p) => match p.executor_bind_host {
                Some(h) => h@,
                None => default_host(),
            },
            None => default_host(),
        },
        c.executor_bind_port == match file {
            Some(p) => match p.executor_bind_port {
                Some(x) => x,
                None => default_executor_port(),
            },
            None => default_executor_port(),
        },
{
    match file {
        Some(partial) => Config::from_partial(partial),
        None => Config::default(),
    }
}

/// The character of a decimal digit.
pub open spec fn digit_char(d: nat) -> char {
    if d == 0 {
        '0'
    } else if d == 1 {
        '1'
    } else if d == 2 {
        '2'
    } else if d == 3 {
        '3'
    } else if d == 4 {
        '4'
    } else if d == 5 {
        '5'
    } else if d == 6 {
        '6'
    } else if d == 7 {
        '7'
    } else if d == 8 {
        '8'
    } else {
        '9'
    }
}

/// The decimal writing of `n`, without leading zeros.
pub open spec fn decimal(n: nat) -> Seq<char>
    decreases n,
{
    if n < 10 {
        seq![digit_char(n)]
    } else {
        decimal(n / 10).push(digit_char(n % 10))
    }
}

/// `host:port`, the port in decimal.
pub open spec fn socket_address(host: Seq<char>, port: nat) -> Seq<char> {
    host + seq![':'] + decimal(port)
}

fn push_digit(s: &mut String, d: u32)
    requires
        d < 10,
    ensures
        final(s)@ == old(s)@.push(digit_char(d as nat)),
{
    proof {
        reveal_strlit("0");
        reveal_strlit("1");
        reveal_strlit("2");
        reveal_strlit("3");
        reveal_strlit("4");
        reveal_strlit("5");
        reveal_strlit("6");
        reveal_strlit("7");
        reveal_strlit("8");
        reveal_strlit("9");
    }
    if d == 0 {
        s.append("0");
    } else if d == 1 {
        s.append("1");
    } else if d == 2 {
        s.append("2");
    } else if d == 3 {
        s.append("3");
    } else if d == 4 {
        s.append("4");
    } else if d == 5 {
        s.append("5");
    } else if d == 6 {
        s.append("6");
    } else if d == 7 {
        s.append("7");
    } else if d == 8 {
        s.append("8");
    } else {
        s.append("9");
    }
    assert(s@ =~= old(s)@.push(digit_char(d as nat)));
}

fn push_decimal(s: &mut String, n: u32)
    ensures
        final(s)@ == old(s)@ + decimal(n as nat),
    decreases n,
{
    if n >= 10 {
        push_decimal(s, n / 10);
    }
    push_digit(s, n % 10);
    assert(s@ =~= old(s)@ + decimal(n as nat));
}

/// Writes `host:port`, the port in decimal.
pub fn address(host: &String, port: u32) -> (a: String)
    ensures
        a@ == socket_address(host@, port as nat),
{
    let mut a = host.clone();
    a.append(":");
    proof {
        reveal_strlit(":");
    }
    push_decimal(&mut a, port);
    assert(a@ =~= socket_address(host@, port as nat));
    a
}

} // verus!
