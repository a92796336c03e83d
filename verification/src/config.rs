//! Resolved proxy configuration: the backend address and credentials, and the
//! listen address. Construction from a file and command-line flags happens
//! outside the library; the library consumes the resolved record and applies
//! command-line overrides to a base configuration.

use vstd::prelude::*;
use vstd::string::StringExecFns;

verus! {

/// Backend connection settings.
#[derive(Debug, Clone)]
pub struct RedisConfig {
    pub host: String,
    pub port: u16,
    pub user: String,
    pub password: String,
    pub ssl: bool,
}

impl Default for RedisConfig {
    /// Defaults: a local backend on port 6379, no credentials, TLS off.
    fn default() -> (r: Self)
        ensures
            r.host@ == "127.0.0.1"@,
            r.port == 6379,
            r.user@ == Seq::<char>::empty(),
            r.password@ == Seq::<char>::empty(),
            !r.ssl,
    {
        RedisConfig {
            host: String::from_str("127.0.0.1"),
            port: 6379,
            user: String::new(),
            password: String::new(),
            ssl: false,
        }
    }
}

/// Listener settings.
#[derive(Debug, Clone)]
pub struct ProxyConfig {
    pub listen: String,
}

impl Default for ProxyConfig {
    /// Default: listen on the local Redis port.
    fn default() -> (r: Self)
        ensures
            r.listen@ == "127.0.0.1:6379"@,
    {
        ProxyConfig { listen: String::from_str("127.0.0.1:6379") }
    }
}

/// The full resolved configuration consumed by a session.
#[derive(Debug, Clone)]
pub struct Config {
    pub redis: RedisConfig,
    pub proxy: ProxyConfig,
}

impl Default for Config {
    fn default() -> (r: Self)
        ensures
            r.redis.host@ == "127.0.0.1"@,
            r.redis.port == 6379,
            r.redis.user@ == Seq::<char>::empty(),
            r.redis.password@ == Seq::<char>::empty(),
            !r.redis.ssl,
            r.proxy.listen@ == "127.0.0.1:6379"@,
    {
        Config { redis: RedisConfig::default(), proxy: ProxyConfig::default() }
    }
}

/// Command-line overrides, one optional value per configuration field.
#[derive(Debug)]
pub struct Args {
    pub config: Option<String>,
    pub redis_host: Option<String>,
    pub redis_port: Option<u16>,
    pub redis_user: Option<String>,
    pub redis_password: Option<String>,
    pub redis_ssl: bool,
    pub listen: Option<String>,
}

pub open spec fn digit_char(n: nat) -> char {
    if n == 0 {
        '0'
    } else if n == 1 {
        '1'
    } else if n == 2 {
        '2'
    } else if n == 3 {
        '3'
    } else if n == 4 {
        '4'
    } else if n == 5 {
        '5'
    } else if n == 6 {
        '6'
    } else if n == 7 {
        '7'
    } else if n == 8 {
        '8'
    } else {
        '9'
    }
}

/// The decimal digits of `n`, as characters.
pub open spec fn dec_chars(n: nat) -> Seq<char>
    decreases n,
{
    if n < 10 {
        seq![digit_char(n)]
    } else {
        dec_chars(n / 10).push(digit_char(n % 10))
    }
}

fn digit_str(d: u64) -> (r: &'static str)
    requires
        d < 10,
    ensures
        r@ == seq![digit_char(d as nat)],
{
    let s: &'static str = if d == 0 {
        "0"
    } else if d == 1 {
        "1"
    } else if d == 2 {
        "2"
    } else if d == 3 {
        "3"
    } else if d == 4 {
        "4"
    } else if d == 5 {
        "5"
    } else if d == 6 {
        "6"
    } else if d == 7 {
        "7"
    } else if d == 8 {
        "8"
    } else {
        "9"
    };
    proof {
        reveal_strlit("0");
        reveal_strlit("1");
        reveal_strlit("2");
        reveal_strlit("3");
        reveal_strlit("4");
        reveal_strlit("5");
        reveal_strlit("6");
        reveal_strlit("7");
        reveal_strlit("8");
        reveal_strlit("9");
        assert(s@ =~= seq![digit_char(d as nat)]);
    }
    s
}

fn append_dec(s: &mut String, n: u64)
    ensures
        final(s)@ == old(s)@ + dec_chars(n as nat),
    decreases n,
{
    if n < 10 {
        s.append(digit_str(n));
        proof {
            assert(old(s)@ + dec_chars(n as nat) =~= old(s)@ + seq![digit_char(n as nat)]);
        }
    } else {
        append_dec(s, n / 10);
        s.append(digit_str(n % 10));
        proof {
            assert(old(s)@ + dec_chars(n as nat) =~= (old(s)@ + dec_chars((n / 10) as nat)) + seq![
                digit_char((n % 10) as nat),
            ]);
        }
    }
}

impl Config {
    /// The backend address, written `host:port` with the port in decimal.
    pub fn redis_address(&self) -> (r: String)
        ensures
            r@ == self.redis.host@ + seq![':'] + dec_chars(self.redis.port as nat),
    {
        let mut s = self.redis.host.clone();
        s.append(":");
        proof {
            reveal_strlit(":");
            assert(":"@ =~= seq![':']);
        }
        append_dec(&mut s, self.redis.port as u64);
        proof {
            assert((self.redis.host@ + seq![':']) + dec_chars(self.redis.port as nat)
                =~= self.redis.host@ + seq![':'] + dec_chars(self.redis.port as nat));
        }
        s
    }

    /// Applies command-line overrides on top of this configuration: a field
    /// given on the command line replaces the configured one, and the TLS
    /// flag can only be switched on, never off.
    pub fn apply_args(self, args: Args) -> (r: Config)
        ensures
            r.redis.host == (match args.redis_host {
                Some(h) => h,
                None => self.redis.host,
            }),
            r.redis.port == (match args.redis_port {
                Some(p) => p,
                None => self.redis.port,
            }),
            r.redis.user == (match args.redis_user {
                Some(u) => u,
                None => self.redis.user,
            }),
            r.redis.password == (match args.redis_password {
                Some(p) => p,
                None => self.redis.password,
            }),
            r.redis.ssl == (self.redis.ssl || args.redis_ssl),
            r.proxy.listen == (match args.listen {
                Some(l) => l,
                None => self.proxy.listen,
            }),
    {
        let mut config = self;
        match args.redis_host {
            Some(host) => { config.redis.host = host; }
            None => {}
        }
        match args.redis_port {
            Some(port) => { config.redis.port = port; }
            None => {}
        }
        match args.redis_user {
            Some(user) => { config.redis.user = user; }
            None => {}
        }
        match args.redis_password {
            Some(password) => { config.redis.password = password; }
            None => {}
        }
        if args.redis_ssl {
            config.redis.ssl = true;
        }
        match args.listen {
            Some(listen) => { config.proxy.listen = listen; }
            None => {}
        }
        config
    }
}

} // verus!
