//! The incremental frame decoder: buffers arbitrarily fragmented network
//! input and decodes complete frames into classified commands, exactly as the
//! model in [`crate::resp`] describes.

use vstd::prelude::*;
use crate::resp::{
    all_digits, auth_name, decode, decode_from, digits_val, elems_prepend, first_cr, first_crlf,
    is_ws, lemma_decode_from_step_frame, lemma_digits_val_prefix, lemma_first_cr_some,
    lemma_first_crlf_some, lemma_parse_frame_bounds, lemma_read_int_bounds, lossy_of, parse_array,
    parse_elems, parse_frame, parse_inline, read_int, split_ws, split_ws_rec, valid_len_digits,
    Decoded, ElemsStep, FrameStep, IntStep, SpecCommand, CR, LF, STAR,
};

verus! {

/// The error a whole decode pass could report. The decoder as specified
/// recovers from every malformed frame locally, so `feed_data` in fact always
/// succeeds; callers that treat an error by forwarding the raw chunk stay
/// correct either way.
#[derive(Debug)]
pub struct DecodeError;

/// A decoded command: an authentication attempt with its argument strings, or
/// any other frame as its exact original bytes.
#[derive(Debug, Clone)]
pub enum RedisCommand {
    Auth { args: Vec<String> },
    Other { raw_data: Vec<u8> },
}

/// The character sequences a vector of strings stands for.
pub open spec fn strs_view(v: Seq<String>) -> Seq<Seq<char>> {
    v.map_values(|x: String| x@)
}

/// The byte sequences a vector of byte buffers stands for.
pub open spec fn bufs_view(v: Seq<Vec<u8>>) -> Seq<Seq<u8>> {
    v.map_values(|x: Vec<u8>| x@)
}

impl View for RedisCommand {
    type V = SpecCommand;

    open spec fn view(&self) -> SpecCommand {
        match self {
            RedisCommand::Auth { args } => SpecCommand::Auth { args: strs_view(args@) },
            RedisCommand::Other { raw_data } => SpecCommand::Other { raw: raw_data@ },
        }
    }
}

/// The commands a vector of decoded commands stands for.
pub open spec fn cmds_view(v: Seq<RedisCommand>) -> Seq<SpecCommand> {
    v.map_values(|c: RedisCommand| c@)
}

/// Relies on `String::from_utf8_lossy`: the result is a pure function of the
/// bytes, and ASCII bytes come through unchanged as the corresponding
/// characters.
#[verifier::external_body]
fn bytes_to_string_lossy(b: &Vec<u8>) -> (r: String)
    ensures
        r@ == lossy_of(b@),
        (forall|i: int| 0 <= i < b@.len() ==> b@[i] < 128) ==> r@ == Seq::new(
            b@.len(),
            |i: int| b@[i] as char,
        ),
{
    String::from_utf8_lossy(b).to_string()
}

/// The stateful incremental parser: a buffer of not-yet-decoded bytes.
#[derive(Debug)]
pub struct RedisProtocolParser {
    buffer: Vec<u8>,
}

impl View for RedisProtocolParser {
    type V = Seq<u8>;

    closed spec fn view(&self) -> Seq<u8> {
        self.buffer@
    }
}

impl RedisProtocolParser {
    /// A fresh parser with an empty buffer.
    pub fn new() -> (r: Self)
        ensures
            r@ == Seq::<u8>::empty(),
    {
        RedisProtocolParser { buffer: Vec::new() }
    }

    /// Drops all buffered bytes.
    pub fn clear(&mut self)
        ensures
            final(self)@ == Seq::<u8>::empty(),
    {
        self.buffer.clear();
    }

    /// Finds the first carriage return at or after `start`.
    fn find_cr(&self, start: usize) -> (r: Option<usize>)
        requires
            start <= self@.len(),
        ensures
            match r {
                None => first_cr(self@, start as int) is None,
                Some(j) => first_cr(self@, start as int) == Some(j as int),
            },
    {
        let mut j = start;
        while j < self.buffer.len()
            invariant
                start <= j <= self@.len(),
                first_cr(self@, start as int) == first_cr(self@, j as int),
            decreases self@.len() - j,
        {
            if self.buffer[j] == 13 {
                return Some(j);
            }
            proof {
                assert(first_cr(self@, j as int) == first_cr(self@, j + 1));
            }
            j = j + 1;
        }
        None
    }

    /// Finds the first CRLF pair at or after `start`.
    fn find_crlf(&self, start: usize) -> (r: Option<usize>)
        requires
            start <= self@.len(),
        ensures
            match r {
                None => first_crlf(self@, start as int) is None,
                Some(j) => first_crlf(self@, start as int) == Some(j as int),
            },
    {
        if self.buffer.len() == 0 {
            return None;
        }
        let blen = self.buffer.len();
        let mut j = start;
        while j < blen - 1
            invariant
                start <= j,
                j <= self@.len(),
                blen == self@.len(),
                1 <= blen,
                first_crlf(self@, start as int) == first_crlf(self@, j as int),
            decreases self@.len() - j,
        {
            if self.buffer[j] == 13 && self.buffer[j + 1] == 10 {
                return Some(j);
            }
            proof {
                assert(first_crlf(self@, j as int) == first_crlf(self@, j + 1));
            }
            j = j + 1;
        }
        None
    }

    /// Reads a CRLF-terminated decimal length field starting at `start`.
    fn read_integer(&self, start: usize) -> (r: Result<Option<(i64, usize)>, DecodeError>)
        requires
            start <= self@.len(),
        ensures
            match read_int(self@, start as int) {
                IntStep::Incomplete => r == Ok::<Option<(i64, usize)>, DecodeError>(None),
                IntStep::Malformed => r is Err,
                IntStep::Value { value, len } => r matches Ok(Some(p)) && p.0 == value && p.1
                    == len,
            },
    {
        let ghost s = self@;
        let blen = self.buffer.len();
        let j = match self.find_cr(start) {
            None => {
                return Ok(None);
            }
            Some(j) => j,
        };
        proof {
            lemma_first_cr_some(s, start as int, j as int);
        }
        if j >= blen - 1 {
            return Ok(None);
        }
        if self.buffer[j + 1] != 10 {
            return Err(DecodeError);
        }
        let ghost ds = s.subrange(start as int, j as int);
        if j == start {
            // An empty length field is malformed.
            return Err(DecodeError);
        }
        let mut val: i64 = 0;
        let mut i = start;
        while i < j
            invariant
                start <= i <= j,
                j + 1 < s.len(),
                self@ == s,
                first_cr(s, start as int) == Some(j as int),
                s[j + 1] == LF,
                ds == s.subrange(start as int, j as int),
                all_digits(s.subrange(start as int, i as int)),
                0 <= val <= i64::MAX,
                val == digits_val(s.subrange(start as int, i as int)),
            decreases j - i,
        {
            let b = self.buffer[i];
            let ghost pre = s.subrange(start as int, i as int);
            let ghost nxt = s.subrange(start as int, i + 1);
            proof {
                assert(nxt.drop_last() =~= pre);
                assert(nxt.last() == s[i as int]);
            }
            if b < 48 || b > 57 {
                proof {
                    assert(ds[i - start] == s[i as int]);
                    assert(!all_digits(ds));
                }
                return Err(DecodeError);
            }
            let d = (b - 48) as i64;
            if val > 922337203685477580 || (val == 922337203685477580 && d > 7) {
                // The length field exceeds the signed 64-bit range: malformed.
                proof {
                    assert(digits_val(nxt) == val * 10 + d);
                    assert(digits_val(nxt) > i64::MAX);
                    if all_digits(ds) {
                        assert(pre =~= ds.subrange(0, i - start));
                        assert(nxt =~= ds.subrange(0, i + 1 - start));
                        lemma_digits_val_prefix(ds, i + 1 - start);
                    }
                }
                return Err(DecodeError);
            }
            val = val * 10 + d;
            proof {
                assert(all_digits(nxt)) by {
                    assert(forall|t: int| 0 <= t < pre.len() ==> nxt[t] == #[trigger] pre[t]);
                }
            }
            i = i + 1;
        }
        proof {
            assert(s.subrange(start as int, i as int) == ds);
            assert(valid_len_digits(ds));
        }
        Ok(Some((val, j + 2 - start)))
    }

    /// Copies the bytes in `[a, b)` out of the buffer.
    fn copy_range(&self, a: usize, b: usize) -> (r: Vec<u8>)
        requires
            a <= b <= self@.len(),
        ensures
            r@ == self@.subrange(a as int, b as int),
    {
        let mut out: Vec<u8> = Vec::new();
        proof {
            assert(out@ =~= self@.subrange(a as int, a as int));
        }
        let mut i = a;
        while i < b
            invariant
                a <= i <= b <= self@.len(),
                out@ == self@.subrange(a as int, i as int),
            decreases b - i,
        {
            let x = self.buffer[i];
            out.push(x);
            proof {
                assert(out@ =~= self@.subrange(a as int, i + 1));
            }
            i = i + 1;
        }
        out
    }

    /// Reads the elements of an array frame whose `*` marker stands at
    /// `start`, classifies the result, and reports how many bytes the frame
    /// occupies.
    fn parse_array_command(&self, start: usize) -> (r: Result<
        Option<(RedisCommand, usize)>,
        DecodeError,
    >)
        requires
            start < self@.len(),
            self@[start as int] == STAR,
        ensures
            match r {
                Result::Err(_) => parse_array(self@, start as int) is Skip,
                Result::Ok(None) => parse_array(self@, start as int) is Incomplete,
                Result::Ok(Some(p)) => parse_array(self@, start as int) matches FrameStep::Frame {
                    cmd,
                    len,
                } && p.0@ == cmd && p.1 == len,
            },
    {
        let ghost s = self@;
        let blen = self.buffer.len();
        let (count, ilen) = match self.read_integer(start + 1) {
            Err(e) => {
                return Err(e);
            },
            Ok(None) => {
                return Ok(None);
            },
            Ok(Some(p)) => p,
        };
        proof {
            lemma_read_int_bounds(s, start + 1, count as int, ilen as nat);
        }
        let p0 = start + 1 + ilen;
        let mut pos = p0;
        let mut args: Vec<Vec<u8>> = Vec::new();
        let mut k: i64 = 0;
        proof {
            assert(bufs_view(args@) =~= Seq::<Seq<u8>>::empty());
            match parse_elems(s, p0 as int, count as int) {
                ElemsStep::Done { args: a0, end } => {
                    assert(Seq::<Seq<u8>>::empty() + a0 =~= a0);
                },
                _ => {},
            }
        }
        while k < count
            invariant
                self@ == s,
                blen == s.len(),
                start < s.len(),
                s[start as int] == STAR,
                read_int(s, start + 1) == (IntStep::Value {
                    value: count as int,
                    len: ilen as nat,
                }),
                p0 == start + 1 + ilen,
                0 <= k <= count,
                p0 <= pos <= s.len(),
                args@.len() == k,
                parse_elems(s, p0 as int, count as int) == elems_prepend(
                    bufs_view(args@),
                    parse_elems(s, pos as int, count - k),
                ),
            decreases count - k,
        {
            if pos >= blen {
                return Ok(None);
            }
            if self.buffer[pos] != 36 {
                return Err(DecodeError);
            }
            let (n, il2) = match self.read_integer(pos + 1) {
                Err(e) => {
                    return Err(e);
                },
                Ok(None) => {
                    return Ok(None);
                },
                Ok(Some(p)) => p,
            };
            proof {
                lemma_read_int_bounds(s, pos + 1, n as int, il2 as nat);
            }
            let p2 = pos + 1 + il2;
            if blen - p2 < 2 || (n as u64) > ((blen - p2 - 2) as u64) {
                return Ok(None);
            }
            let nn = n as usize;
            let elem = self.copy_range(p2, p2 + nn);
            let ghost old_args = args@;
            let ghost old_pos = pos as int;
            args.push(elem);
            pos = p2 + nn + 2;
            k = k + 1;
            proof {
                let r2 = parse_elems(s, pos as int, count - k);
                assert(parse_elems(s, old_pos, count - (k - 1)) == elems_prepend(
                    seq![s.subrange(p2 as int, p2 + nn)],
                    r2,
                ));
                assert(bufs_view(args@) =~= bufs_view(old_args) + seq![
                    s.subrange(p2 as int, p2 + nn),
                ]);
                match r2 {
                    ElemsStep::Done { args: ra, end } => {
                        assert((bufs_view(old_args) + seq![s.subrange(p2 as int, p2 + nn)]) + ra
                            =~= bufs_view(old_args) + (seq![s.subrange(p2 as int, p2 + nn)] + ra));
                    },
                    _ => {},
                }
            }
        }
        proof {
            assert(parse_elems(s, pos as int, 0) == (ElemsStep::Done {
                args: Seq::<Seq<u8>>::empty(),
                end: pos as int,
            }));
            assert(bufs_view(args@) + Seq::<Seq<u8>>::empty() =~= bufs_view(args@));
            assert(parse_elems(s, p0 as int, count as int) == (ElemsStep::Done {
                args: bufs_view(args@),
                end: pos as int,
            }));
        }
        let is_auth = args.len() > 0 && is_auth_token(&args[0]);
        proof {
            if args@.len() > 0 {
                assert(bufs_view(args@)[0] == args@[0]@);
            }
        }
        if is_auth {
            let sargs = args_to_strings(&args);
            Ok(Some((RedisCommand::Auth { args: sargs }, pos - start)))
        } else {
            let raw = self.copy_range(start, pos);
            Ok(Some((RedisCommand::Other { raw_data: raw }, pos - start)))
        }
    }

    /// Decodes one inline frame starting at `start`: the line up to the first
    /// CRLF, split into whitespace-separated tokens.
    fn parse_inline_command(&self, start: usize) -> (r: Result<
        Option<(RedisCommand, usize)>,
        DecodeError,
    >)
        requires
            start < self@.len(),
        ensures
            match r {
                Result::Err(_) => parse_inline(self@, start as int) is Skip,
                Result::Ok(None) => parse_inline(self@, start as int) is Incomplete,
                Result::Ok(Some(p)) => parse_inline(self@, start as int) matches FrameStep::Frame {
                    cmd,
                    len,
                } && p.0@ == cmd && p.1 == len,
            },
    {
        let ghost s = self@;
        let blen = self.buffer.len();
        let j = match self.find_crlf(start) {
            None => {
                return Ok(None);
            },
            Some(j) => j,
        };
        proof {
            lemma_first_crlf_some(s, start as int, j as int);
        }
        let ghost line = s.subrange(start as int, j as int);
        let mut parts: Vec<Vec<u8>> = Vec::new();
        let mut cur: Vec<u8> = Vec::new();
        let mut i = start;
        proof {
            assert(bufs_view(parts@) =~= Seq::<Seq<u8>>::empty());
        }
        while i < j
            invariant
                start <= i <= j,
                j + 1 < s.len(),
                self@ == s,
                line == s.subrange(start as int, j as int),
                split_ws_rec(line, 0, Seq::<u8>::empty()) == bufs_view(parts@) + split_ws_rec(
                    line,
                    i - start,
                    cur@,
                ),
            decreases j - i,
        {
            let b = self.buffer[i];
            proof {
                assert(line[i - start] == s[i as int]);
            }
            let ghost old_parts = parts@;
            let ghost old_cur = cur@;
            if b == 32 || b == 9 || b == 10 || b == 12 || b == 13 {
                proof {
                    assert(is_ws(line[i - start]));
                }
                if cur.len() > 0 {
                    parts.push(cur);
                    cur = Vec::new();
                    proof {
                        assert(split_ws_rec(line, i - start, old_cur) == seq![old_cur]
                            + split_ws_rec(line, i - start + 1, Seq::<u8>::empty()));
                        assert(bufs_view(parts@) =~= bufs_view(old_parts) + seq![old_cur]);
                        assert((bufs_view(old_parts) + seq![old_cur]) + split_ws_rec(
                            line,
                            i + 1 - start,
                            cur@,
                        ) =~= bufs_view(old_parts) + (seq![old_cur] + split_ws_rec(
                            line,
                            i + 1 - start,
                            cur@,
                        )));
                    }
                } else {
                    proof {
                        assert(split_ws_rec(line, i - start, old_cur) == split_ws_rec(
                            line,
                            i - start + 1,
                            Seq::<u8>::empty(),
                        ));
                        assert(cur@ =~= Seq::<u8>::empty());
                    }
                }
            } else {
                proof {
                    assert(!is_ws(line[i - start]));
                    assert(split_ws_rec(line, i - start, old_cur) == split_ws_rec(
                        line,
                        i - start + 1,
                        old_cur.push(line[i - start]),
                    ));
                }
                cur.push(b);
                proof {
                    assert(cur@ =~= old_cur.push(s[i as int]));
                }
            }
            i = i + 1;
        }
        proof {
            assert(line.len() == j - start);
        }
        if cur.len() > 0 {
            let ghost old_parts = parts@;
            let ghost old_cur = cur@;
            parts.push(cur);
            proof {
                assert(bufs_view(parts@) =~= bufs_view(old_parts) + seq![old_cur]);
                assert(split_ws_rec(line, j - start, old_cur) =~= seq![old_cur]);
            }
        }
        proof {
            assert(bufs_view(parts@) + Seq::<Seq<u8>>::empty() =~= bufs_view(parts@));
            assert(split_ws(line) == bufs_view(parts@));
        }
        if parts.len() == 0 {
            return Ok(None);
        }
        let is_auth = is_auth_token(&parts[0]);
        proof {
            assert(bufs_view(parts@)[0] == parts@[0]@);
        }
        if is_auth {
            let sargs = args_to_strings(&parts);
            Ok(Some((RedisCommand::Auth { args: sargs }, j + 2 - start)))
        } else {
            let raw = self.copy_range(start, j + 2);
            Ok(Some((RedisCommand::Other { raw_data: raw }, j + 2 - start)))
        }
    }

    /// Tries to decode one frame at `start`: an array frame under the `*`
    /// marker, an inline frame otherwise.
    fn try_parse_command_at(&self, start: usize) -> (r: Result<
        Option<(RedisCommand, usize)>,
        DecodeError,
    >)
        requires
            start < self@.len(),
        ensures
            match r {
                Result::Err(_) => parse_frame(self@, start as int) is Skip,
                Result::Ok(None) => parse_frame(self@, start as int) is Incomplete,
                Result::Ok(Some(p)) => parse_frame(self@, start as int) matches FrameStep::Frame {
                    cmd,
                    len,
                } && p.0@ == cmd && p.1 == len,
            },
    {
        if self.buffer[start] == 42 {
            self.parse_array_command(start)
        } else {
            self.parse_inline_command(start)
        }
    }

    /// One decode pass over the buffered bytes: decodes complete frames in
    /// order, skips one byte past each malformed frame, stops at the first
    /// incomplete frame, and discards everything consumed.
    fn parse_commands(&mut self) -> (r: Result<Vec<RedisCommand>, DecodeError>)
        ensures
            r is Ok,
            (r matches Ok(cmds) ==> cmds_view(cmds@) == decode(old(self)@).cmds && final(self)@
                == old(self)@.skip(decode(old(self)@).end)),
    {
        let ghost s = self@;
        let mut commands: Vec<RedisCommand> = Vec::new();
        let mut pos: usize = 0;
        let mut stop = false;
        proof {
            assert(cmds_view(commands@) =~= Seq::<SpecCommand>::empty());
        }
        while !stop && pos < self.buffer.len()
            invariant
                self@ == s,
                pos <= s.len(),
                decode_from(s, 0).cmds == cmds_view(commands@) + decode_from(s, pos as int).cmds,
                decode_from(s, 0).end == decode_from(s, pos as int).end,
                stop ==> pos < s.len() && parse_frame(s, pos as int) is Incomplete,
            decreases s.len() - pos + (if stop { 0int } else { 1int }),
        {
            let ghost old_cmds = commands@;
            let ghost old_pos = pos as int;
            match self.try_parse_command_at(pos) {
                Ok(Some((command, consumed))) => {
                    proof {
                        lemma_parse_frame_bounds(s, pos as int, command@, consumed as nat);
                        lemma_decode_from_step_frame(s, pos as int, command@, consumed as nat);
                    }
                    commands.push(command);
                    pos = pos + consumed;
                    proof {
                        assert(cmds_view(commands@) =~= cmds_view(old_cmds) + seq![command@]);
                        assert((cmds_view(old_cmds) + seq![command@]) + decode_from(
                            s,
                            pos as int,
                        ).cmds =~= cmds_view(old_cmds) + (seq![command@] + decode_from(
                            s,
                            pos as int,
                        ).cmds));
                    }
                },
                Ok(None) => {
                    stop = true;
                },
                Err(_) => {
                    proof {
                        assert(decode_from(s, old_pos) == decode_from(s, old_pos + 1));
                    }
                    pos = pos + 1;
                },
            }
        }
        proof {
            assert(decode_from(s, pos as int) == (Decoded {
                cmds: Seq::<SpecCommand>::empty(),
                end: pos as int,
            }));
            assert(cmds_view(commands@) + Seq::<SpecCommand>::empty() =~= cmds_view(commands@));
        }
        let tail = self.copy_range(pos, self.buffer.len());
        self.buffer = tail;
        proof {
            assert(s.subrange(pos as int, s.len() as int) =~= s.skip(pos as int));
        }
        Ok(commands)
    }

    /// Appends freshly read bytes to the buffer and decodes whatever complete
    /// frames they finish, in frame order. The decoder recovers from every
    /// malformed frame by itself, so the result is always `Ok`.
    pub fn feed_data(&mut self, data: &[u8]) -> (r: Result<Vec<RedisCommand>, DecodeError>)
        ensures
            r is Ok,
            (r matches Ok(cmds) ==> {
                let s = old(self)@ + data@;
                cmds_view(cmds@) == decode(s).cmds && final(self)@ == s.skip(decode(s).end)
            }),
    {
        let ghost s0 = self@;
        let mut i: usize = 0;
        proof {
            assert(s0 + data@.subrange(0, 0) =~= s0);
        }
        while i < data.len()
            invariant
                i <= data@.len(),
                self@ == s0 + data@.subrange(0, i as int),
            decreases data@.len() - i,
        {
            let x = data[i];
            self.buffer.push(x);
            proof {
                assert(s0 + data@.subrange(0, i + 1) =~= (s0 + data@.subrange(0, i as int)).push(
                    data@[i as int],
                ));
            }
            i = i + 1;
        }
        proof {
            assert(s0 + data@.subrange(0, data@.len() as int) =~= s0 + data@);
        }
        self.parse_commands()
    }
}

impl Default for RedisProtocolParser {
    /// Same as `new`: a parser with an empty buffer.
    fn default() -> (r: Self)
        ensures
            r@ == Seq::<u8>::empty(),
    {
        RedisProtocolParser::new()
    }
}

/// Whether a token is the authentication command name, compared
/// case-insensitively over ASCII.
fn is_auth_token(a: &Vec<u8>) -> (r: bool)
    ensures
        r == auth_name(a@),
{
    if a.len() != 4 {
        return false;
    }
    let b0 = a[0];
    let b1 = a[1];
    let b2 = a[2];
    let b3 = a[3];
    (b0 == 65 || b0 == 97) && (b1 == 85 || b1 == 117) && (b2 == 84 || b2 == 116) && (b3 == 72
        || b3 == 104)
}

/// Decodes each argument's bytes into a string.
fn args_to_strings(args: &Vec<Vec<u8>>) -> (r: Vec<String>)
    ensures
        strs_view(r@) == bufs_view(args@).map_values(|a: Seq<u8>| lossy_of(a)),
{
    let mut out: Vec<String> = Vec::new();
    let mut i: usize = 0;
    while i < args.len()
        invariant
            i <= args@.len(),
            out@.len() == i,
            forall|t: int| 0 <= t < i ==> out@[t]@ == lossy_of(#[trigger] args@[t]@),
        decreases args@.len() - i,
    {
        let sarg = bytes_to_string_lossy(&args[i]);
        out.push(sarg);
        i = i + 1;
    }
    proof {
        assert(strs_view(out@) =~= bufs_view(args@).map_values(|a: Seq<u8>| lossy_of(a)));
    }
    out
}

} // verus!
