//! Per-session decision logic: what a session does with each decoded command,
//! the backend handshake frames, and the synthetic replies sent to the
//! client. The surrounding network loops perform the reads and writes and
//! consult these functions for every decision.

use vstd::prelude::*;
use crate::config::Config;
use crate::protocol::{bufs_view, cmds_view, RedisCommand, RedisProtocolParser};
use crate::resp::{decode, SpecCommand};

verus! {

/// The fixed success reply sent to the client for every intercepted
/// authentication attempt.
pub open spec fn auth_ok_bytes() -> Seq<u8> {
    seq![43u8, 79u8, 75u8, 13u8, 10u8]
}

/// The byte chunks a sequence of commands sends to the backend: the exact
/// wire bytes of every non-authentication command, in frame order.
pub open spec fn backend_bytes(cmds: Seq<SpecCommand>) -> Seq<Seq<u8>>
    decreases cmds.len(),
{
    if cmds.len() == 0 {
        seq![]
    } else {
        match cmds[0] {
            SpecCommand::Other { raw } => seq![raw] + backend_bytes(cmds.skip(1)),
            SpecCommand::Auth { args } => backend_bytes(cmds.skip(1)),
        }
    }
}

/// How many commands of a sequence are authentication attempts.
pub open spec fn auth_count(cmds: Seq<SpecCommand>) -> nat
    decreases cmds.len(),
{
    if cmds.len() == 0 {
        0
    } else {
        (if cmds[0] is Auth {
            1nat
        } else {
            0nat
        }) + auth_count(cmds.skip(1))
    }
}

/// `n` copies of the fixed success reply.
pub open spec fn repeated_ok(n: nat) -> Seq<Seq<u8>> {
    Seq::new(n, |i: int| auth_ok_bytes())
}

/// The decimal digits of `n`.
pub open spec fn dec_bytes(n: nat) -> Seq<u8>
    decreases n,
{
    if n < 10 {
        seq![(48 + n) as u8]
    } else {
        dec_bytes(n / 10).push((48 + n % 10) as u8)
    }
}

pub open spec fn crlf() -> Seq<u8> {
    seq![13u8, 10u8]
}

/// A bulk-string element: `$<len>\r\n<bytes>\r\n`.
pub open spec fn bulk_string(b: Seq<u8>) -> Seq<u8> {
    seq![36u8] + dec_bytes(b.len()) + crlf() + b + crlf()
}

pub open spec fn auth_token_bytes() -> Seq<u8> {
    seq![65u8, 85u8, 84u8, 72u8]
}

/// The authentication frame the proxy sends to the backend: a two-element
/// array of the command name and the password, or a three-element array with
/// the username in the middle when one is configured.
pub open spec fn auth_frame(user: Seq<u8>, password: Seq<u8>) -> Seq<u8> {
    if user.len() == 0 {
        seq![42u8, 50u8] + crlf() + bulk_string(auth_token_bytes()) + bulk_string(password)
    } else {
        seq![42u8, 51u8] + crlf() + bulk_string(auth_token_bytes()) + bulk_string(user)
            + bulk_string(password)
    }
}

/// Whether a backend reply begins with the success prefix `+OK`.
pub open spec fn reply_ok(s: Seq<u8>) -> bool {
    s.len() >= 3 && s[0] == 43 && s[1] == 79 && s[2] == 75
}

/// What one client chunk turns into: byte chunks for the backend, in order,
/// and synthetic replies for the client, in order.
pub struct Dispatch {
    pub to_backend: Vec<Vec<u8>>,
    pub to_client: Vec<Vec<u8>>,
}

/// The fixed success reply as bytes ready to send.
pub fn auth_success_response() -> (r: Vec<u8>)
    ensures
        r@ == auth_ok_bytes(),
{
    let mut v: Vec<u8> = Vec::new();
    v.push(43);
    v.push(79);
    v.push(75);
    v.push(13);
    v.push(10);
    proof {
        assert(v@ =~= auth_ok_bytes());
    }
    v
}

fn copy_bytes(src: &Vec<u8>) -> (r: Vec<u8>)
    ensures
        r@ == src@,
{
    let mut out: Vec<u8> = Vec::new();
    let mut i: usize = 0;
    while i < src.len()
        invariant
            i <= src@.len(),
            out@ == src@.subrange(0, i as int),
        decreases src@.len() - i,
    {
        let x = src[i];
        out.push(x);
        proof {
            assert(out@ =~= src@.subrange(0, i + 1));
        }
        i = i + 1;
    }
    proof {
        assert(src@.subrange(0, src@.len() as int) =~= src@);
    }
    out
}

/// Decides what each decoded command does: an authentication attempt is never
/// forwarded and instead queues the fixed success reply for the client; any
/// other command goes to the backend as its exact original bytes, in order.
pub fn dispatch_commands(commands: &Vec<RedisCommand>) -> (r: Dispatch)
    ensures
        bufs_view(r.to_backend@) == backend_bytes(cmds_view(commands@)),
        bufs_view(r.to_client@) == repeated_ok(auth_count(cmds_view(commands@))),
{
    let ghost cv = cmds_view(commands@);
    let mut to_backend: Vec<Vec<u8>> = Vec::new();
    let mut to_client: Vec<Vec<u8>> = Vec::new();
    let mut i: usize = 0;
    proof {
        assert(bufs_view(to_backend@) =~= Seq::<Seq<u8>>::empty());
        assert(cv.skip(0) =~= cv);
        assert(Seq::<Seq<u8>>::empty() + backend_bytes(cv) =~= backend_bytes(cv));
    }
    while i < commands.len()
        invariant
            i <= commands@.len(),
            cv == cmds_view(commands@),
            backend_bytes(cv) == bufs_view(to_backend@) + backend_bytes(cv.skip(i as int)),
            auth_count(cv) == to_client@.len() + auth_count(cv.skip(i as int)),
            forall|t: int|
                0 <= t < to_client@.len() ==> #[trigger] to_client@[t]@ == auth_ok_bytes(),
        decreases commands@.len() - i,
    {
        proof {
            assert(cv.skip(i as int)[0] == cv[i as int]);
            assert(cv[i as int] == commands@[i as int]@);
            assert(cv.skip(i as int).skip(1) =~= cv.skip(i as int + 1));
        }
        let ghost old_backend = to_backend@;
        match &commands[i] {
            RedisCommand::Auth { args } => {
                let resp = auth_success_response();
                to_client.push(resp);
            },
            RedisCommand::Other { raw_data } => {
                let raw = copy_bytes(raw_data);
                to_backend.push(raw);
                proof {
                    assert(bufs_view(to_backend@) =~= bufs_view(old_backend) + seq![
                        commands@[i as int]->Other_raw_data@,
                    ]);
                    assert((bufs_view(old_backend) + seq![commands@[i as int]->Other_raw_data@])
                        + backend_bytes(cv.skip(i as int + 1)) =~= bufs_view(old_backend) + (seq![
                        commands@[i as int]->Other_raw_data@,
                    ] + backend_bytes(cv.skip(i as int + 1))));
                }
            },
        }
        i = i + 1;
    }
    proof {
        assert(cv.skip(cv.len() as int) =~= Seq::<SpecCommand>::empty());
        assert(bufs_view(to_backend@) + Seq::<Seq<u8>>::empty() =~= bufs_view(to_backend@));
        assert(bufs_view(to_client@) =~= repeated_ok(auth_count(cv)));
    }
    Dispatch { to_backend, to_client }
}

/// One step of the client-to-backend loop: feeds a freshly read chunk to the
/// decoder and decides what every decoded command does. If the decoder itself
/// reported failure the whole raw chunk would be forwarded unmodified, but
/// this decoder recovers from malformed frames internally and never does.
pub fn process_client_data(parser: &mut RedisProtocolParser, data: &[u8]) -> (r: Dispatch)
    ensures
        ({
            let s = old(parser)@ + data@;
            &&& final(parser)@ == s.skip(decode(s).end)
            &&& bufs_view(r.to_backend@) == backend_bytes(decode(s).cmds)
            &&& bufs_view(r.to_client@) == repeated_ok(auth_count(decode(s).cmds))
        }),
{
    match parser.feed_data(data) {
        Ok(commands) => dispatch_commands(&commands),
        Err(_) => {
            // Raw-passthrough fallback; unreachable, since `feed_data` always
            // succeeds.
            let mut raw: Vec<u8> = Vec::new();
            let mut i: usize = 0;
            while i < data.len()
                decreases data@.len() - i,
            {
                let x = data[i];
                raw.push(x);
                i = i + 1;
            }
            let mut to_backend: Vec<Vec<u8>> = Vec::new();
            to_backend.push(raw);
            Dispatch { to_backend, to_client: Vec::new() }
        },
    }
}

fn push_dec(out: &mut Vec<u8>, n: u64)
    ensures
        final(out)@ == old(out)@ + dec_bytes(n as nat),
    decreases n,
{
    if n < 10 {
        out.push(48 + (n as u8));
        proof {
            assert(old(out)@ + dec_bytes(n as nat) =~= old(out)@.push((48 + n as nat) as u8));
        }
    } else {
        push_dec(out, n / 10);
        out.push(48 + ((n % 10) as u8));
        proof {
            assert(old(out)@ + dec_bytes(n as nat) =~= (old(out)@ + dec_bytes((n / 10) as nat))
                .push((48 + (n as nat) % 10) as u8));
        }
    }
}

fn push_bulk(out: &mut Vec<u8>, b: &[u8])
    ensures
        final(out)@ == old(out)@ + bulk_string(b@),
{
    let ghost o0 = out@;
    out.push(36);
    push_dec(out, b.len() as u64);
    out.push(13);
    out.push(10);
    let ghost o1 = out@;
    let mut i: usize = 0;
    while i < b.len()
        invariant
            i <= b@.len(),
            out@ == o1 + b@.subrange(0, i as int),
        decreases b@.len() - i,
    {
        let x = b[i];
        out.push(x);
        proof {
            assert(o1 + b@.subrange(0, i + 1) =~= (o1 + b@.subrange(0, i as int)).push(
                b@[i as int],
            ));
        }
        i = i + 1;
    }
    proof {
        assert(o1 + b@.subrange(0, 0) =~= o1);
    }
    out.push(13);
    out.push(10);
    proof {
        assert(b@.subrange(0, b@.len() as int) =~= b@);
        assert(out@ =~= o0 + bulk_string(b@));
    }
}

/// The authentication frame the proxy itself sends to the backend, built from
/// the configured credentials.
pub fn build_auth_command(user: &[u8], password: &[u8]) -> (r: Vec<u8>)
    ensures
        r@ == auth_frame(user@, password@),
{
    let mut out: Vec<u8> = Vec::new();
    out.push(42);
    if user.len() == 0 {
        out.push(50);
    } else {
        out.push(51);
    }
    out.push(13);
    out.push(10);
    let mut auth: Vec<u8> = Vec::new();
    auth.push(65);
    auth.push(85);
    auth.push(84);
    auth.push(72);
    proof {
        assert(auth@ =~= auth_token_bytes());
    }
    push_bulk(&mut out, auth.as_slice());
    if user.len() > 0 {
        push_bulk(&mut out, user);
    }
    push_bulk(&mut out, password);
    proof {
        assert(out@ =~= auth_frame(user@, password@));
    }
    out
}

/// Whether the backend accepted authentication: the reply must begin with the
/// three-byte success prefix.
pub fn auth_reply_ok(reply: &[u8]) -> (r: bool)
    ensures
        r == reply_ok(reply@),
{
    if reply.len() < 3 {
        return false;
    }
    let b0 = reply[0];
    let b1 = reply[1];
    let b2 = reply[2];
    b0 == 43 && b1 == 79 && b2 == 75
}

/// Whether a session must authenticate to the backend before forwarding:
/// exactly when a backend password is configured.
pub fn needs_backend_auth(config: &Config) -> (r: bool)
    ensures
        r == (config.redis.password@.len() > 0),
{
    !config.redis.password.as_str().is_empty()
}

/// The proxy service: holds the resolved configuration a listener hands to
/// every session.
pub struct RedisProxy {
    config: Config,
}

impl RedisProxy {
    pub closed spec fn spec_config(&self) -> Config {
        self.config
    }

    pub fn new(config: Config) -> (r: Self)
        ensures
            r.spec_config() == config,
    {
        RedisProxy { config }
    }

    /// The configuration every session of this proxy uses.
    pub fn config(&self) -> (r: &Config)
        ensures
            *r == self.spec_config(),
    {
        &self.config
    }
}

} // verus!
