//! Mathematical model of the wire protocol decoder.
//!
//! A frame is either a length-prefixed array (`*<count>\r\n` followed by
//! `count` bulk strings `$<len>\r\n<bytes>\r\n`) or an inline line terminated
//! by CRLF and split on ASCII whitespace. Decoding a buffer repeatedly takes
//! one frame at the current position: a structurally malformed frame is
//! skipped one byte at a time (skip-and-resync), and an incomplete frame stops
//! decoding without consuming anything, so the bytes wait for more input.

use vstd::prelude::*;

verus! {

pub const CR: u8 = 13;
pub const LF: u8 = 10;
pub const STAR: u8 = 42;
pub const DOLLAR: u8 = 36;

/// What `String::from_utf8_lossy` returns for a given byte sequence.
pub uninterp spec fn lossy_of(b: Seq<u8>) -> Seq<char>;

/// A decoded command: an authentication attempt carrying its decoded
/// arguments, or any other frame carried as its exact original bytes.
pub enum SpecCommand {
    Auth { args: Seq<Seq<char>> },
    Other { raw: Seq<u8> },
}

/// Outcome of trying to decode one frame at a position.
pub enum FrameStep {
    /// Not enough buffered bytes to finish the frame; consume nothing.
    Incomplete,
    /// Structurally malformed; skip exactly one byte and resync.
    Skip,
    /// One complete frame of `len` bytes.
    Frame { cmd: SpecCommand, len: nat },
}

/// Outcome of reading a CRLF-terminated decimal length field.
pub enum IntStep {
    Incomplete,
    Malformed,
    /// The value and the number of bytes read, terminating CRLF included.
    Value { value: int, len: nat },
}

/// Outcome of reading the bulk-string elements of an array frame.
pub enum ElemsStep {
    Incomplete,
    Malformed,
    /// The element payloads in order, and the position just past the last one.
    Done { args: Seq<Seq<u8>>, end: int },
}

/// Everything one decode pass produces: the commands in frame order and the
/// position up to which the buffer was consumed.
pub struct Decoded {
    pub cmds: Seq<SpecCommand>,
    pub end: int,
}

pub open spec fn is_digit(b: u8) -> bool {
    48 <= b <= 57
}

pub open spec fn all_digits(s: Seq<u8>) -> bool {
    forall|i: int| 0 <= i < s.len() ==> is_digit(#[trigger] s[i])
}

/// The value of a string of decimal digits.
pub open spec fn digits_val(s: Seq<u8>) -> int
    decreases s.len(),
{
    if s.len() == 0 {
        0
    } else {
        digits_val(s.drop_last()) * 10 + (s.last() - 48)
    }
}

/// A valid length field: nonempty, digits only, and within the signed 64-bit
/// range. Anything else — a sign, a stray character, an overflowing value —
/// makes the frame malformed.
pub open spec fn valid_len_digits(s: Seq<u8>) -> bool {
    s.len() > 0 && all_digits(s) && digits_val(s) <= i64::MAX
}

/// Index of the first carriage return at or after `i`, if any.
pub open spec fn first_cr(s: Seq<u8>, i: int) -> Option<int>
    decreases s.len() - i when 0 <= i <= s.len()
{
    if i >= s.len() {
        None
    } else if s[i] == CR {
        Some(i)
    } else {
        first_cr(s, i + 1)
    }
}

/// Reads a decimal length field starting at `start`, up to its CRLF.
pub open spec fn read_int(s: Seq<u8>, start: int) -> IntStep {
    match first_cr(s, start) {
        None => IntStep::Incomplete,
        Some(j) => {
            if j + 1 >= s.len() {
                IntStep::Incomplete
            } else if s[j + 1] != LF {
                IntStep::Malformed
            } else {
                let ds = s.subrange(start, j);
                if valid_len_digits(ds) {
                    IntStep::Value { value: digits_val(ds), len: (j + 2 - start) as nat }
                } else {
                    IntStep::Malformed
                }
            }
        }
    }
}

/// Reads `k` bulk-string elements starting at `pos`. The trailing two bytes
/// after each payload are consumed without being inspected.
pub open spec fn parse_elems(s: Seq<u8>, pos: int, k: int) -> ElemsStep
    decreases k when k >= 0
{
    if k <= 0 {
        ElemsStep::Done { args: Seq::empty(), end: pos }
    } else if pos >= s.len() {
        ElemsStep::Incomplete
    } else if s[pos] != DOLLAR {
        ElemsStep::Malformed
    } else {
        match read_int(s, pos + 1) {
            IntStep::Incomplete => ElemsStep::Incomplete,
            IntStep::Malformed => ElemsStep::Malformed,
            IntStep::Value { value: n, len: c } => {
                let p2 = pos + 1 + c;
                if p2 + n + 2 > s.len() {
                    ElemsStep::Incomplete
                } else {
                    match parse_elems(s, p2 + n + 2, k - 1) {
                        ElemsStep::Incomplete => ElemsStep::Incomplete,
                        ElemsStep::Malformed => ElemsStep::Malformed,
                        ElemsStep::Done { args, end } => ElemsStep::Done {
                            args: seq![s.subrange(p2, p2 + n)] + args,
                            end,
                        },
                    }
                }
            }
        }
    }
}

/// Prepends already-read elements to the outcome of reading the rest.
pub open spec fn elems_prepend(a: Seq<Seq<u8>>, r: ElemsStep) -> ElemsStep {
    match r {
        ElemsStep::Done { args, end } => ElemsStep::Done { args: a + args, end },
        _ => r,
    }
}

/// Whether an argument is the authentication command name, compared
/// case-insensitively over ASCII.
pub open spec fn auth_name(a: Seq<u8>) -> bool {
    &&& a.len() == 4
    &&& (a[0] == 65 || a[0] == 97)
    &&& (a[1] == 85 || a[1] == 117)
    &&& (a[2] == 84 || a[2] == 116)
    &&& (a[3] == 72 || a[3] == 104)
}

/// Classifies a decoded frame: an authentication attempt keeps its decoded
/// arguments; anything else keeps its exact wire bytes for verbatim
/// forwarding.
pub open spec fn classify(args: Seq<Seq<u8>>, raw: Seq<u8>) -> SpecCommand {
    if args.len() > 0 && auth_name(args[0]) {
        SpecCommand::Auth { args: args.map_values(|a: Seq<u8>| lossy_of(a)) }
    } else {
        SpecCommand::Other { raw }
    }
}

/// Decodes one array frame whose `*` marker stands at `start`.
pub open spec fn parse_array(s: Seq<u8>, start: int) -> FrameStep {
    match read_int(s, start + 1) {
        IntStep::Incomplete => FrameStep::Incomplete,
        IntStep::Malformed => FrameStep::Skip,
        IntStep::Value { value: count, len: c } => {
            match parse_elems(s, start + 1 + c, count) {
                ElemsStep::Incomplete => FrameStep::Incomplete,
                ElemsStep::Malformed => FrameStep::Skip,
                ElemsStep::Done { args, end } => FrameStep::Frame {
                    cmd: classify(args, s.subrange(start, end)),
                    len: (end - start) as nat,
                },
            }
        }
    }
}

/// Index of the first CRLF pair at or after `i`, if any.
pub open spec fn first_crlf(s: Seq<u8>, i: int) -> Option<int>
    decreases s.len() - i when 0 <= i
{
    if i + 1 >= s.len() {
        None
    } else if s[i] == CR && s[i + 1] == LF {
        Some(i)
    } else {
        first_crlf(s, i + 1)
    }
}

pub open spec fn is_ws(b: u8) -> bool {
    b == 32 || b == 9 || b == 10 || b == 12 || b == 13
}

/// Splits a line into tokens on ASCII whitespace; `cur` is the token under
/// construction.
pub open spec fn split_ws_rec(s: Seq<u8>, i: int, cur: Seq<u8>) -> Seq<Seq<u8>>
    decreases s.len() - i when 0 <= i <= s.len()
{
    if i >= s.len() {
        if cur.len() > 0 {
            seq![cur]
        } else {
            seq![]
        }
    } else if is_ws(s[i]) {
        if cur.len() > 0 {
            seq![cur] + split_ws_rec(s, i + 1, seq![])
        } else {
            split_ws_rec(s, i + 1, seq![])
        }
    } else {
        split_ws_rec(s, i + 1, cur.push(s[i]))
    }
}

pub open spec fn split_ws(s: Seq<u8>) -> Seq<Seq<u8>> {
    split_ws_rec(s, 0, seq![])
}

/// Decodes one inline frame starting at `start`: the bytes up to the first
/// CRLF, split on ASCII whitespace. A line with no tokens yet decodes nothing.
pub open spec fn parse_inline(s: Seq<u8>, start: int) -> FrameStep {
    match first_crlf(s, start) {
        None => FrameStep::Incomplete,
        Some(j) => {
            let parts = split_ws(s.subrange(start, j));
            if parts.len() == 0 {
                FrameStep::Incomplete
            } else {
                FrameStep::Frame {
                    cmd: classify(parts, s.subrange(start, j + 2)),
                    len: (j + 2 - start) as nat,
                }
            }
        }
    }
}

/// Decodes one frame at `start`: an array frame under a `*` marker, an inline
/// frame otherwise.
pub open spec fn parse_frame(s: Seq<u8>, start: int) -> FrameStep {
    if s[start] == STAR {
        parse_array(s, start)
    } else {
        parse_inline(s, start)
    }
}

/// One full decode pass from `pos`: complete frames are taken in order,
/// malformed ones are skipped a byte at a time, and the pass stops at an
/// incomplete frame or at the end of the buffer.
pub open spec fn decode_from(s: Seq<u8>, pos: int) -> Decoded
    decreases s.len() - pos when 0 <= pos <= s.len()
{
    if pos >= s.len() {
        Decoded { cmds: seq![], end: pos }
    } else {
        match parse_frame(s, pos) {
            FrameStep::Incomplete => Decoded { cmds: seq![], end: pos },
            FrameStep::Skip => decode_from(s, pos + 1),
            FrameStep::Frame { cmd, len } => {
                if len < 1 || pos + len > s.len() {
                    // Never reached: a complete frame is at least one byte and
                    // lies inside the buffer (`lemma_parse_frame_bounds`).
                    Decoded { cmds: seq![cmd], end: s.len() as int }
                } else {
                    let rest = decode_from(s, pos + len);
                    Decoded { cmds: seq![cmd] + rest.cmds, end: rest.end }
                }
            }
        }
    }
}

/// What one decode pass over a whole buffer produces.
pub open spec fn decode(s: Seq<u8>) -> Decoded {
    decode_from(s, 0)
}

pub proof fn lemma_digits_val_nonneg(s: Seq<u8>)
    requires
        all_digits(s),
    ensures
        digits_val(s) >= 0,
    decreases s.len(),
{
    if s.len() > 0 {
        assert(all_digits(s.drop_last())) by {
            assert(forall|i: int|
                0 <= i < s.len() - 1 ==> s.drop_last()[i] == #[trigger] s[i]);
        }
        lemma_digits_val_nonneg(s.drop_last());
    }
}

/// A digit string is worth at least any of its prefixes: once a length field
/// has overflowed, reading more digits cannot bring it back into range.
pub proof fn lemma_digits_val_prefix(s: Seq<u8>, a: int)
    requires
        all_digits(s),
        0 <= a <= s.len(),
    ensures
        digits_val(s) >= digits_val(s.subrange(0, a)),
    decreases s.len() - a,
{
    if a == s.len() {
        assert(s.subrange(0, a) =~= s);
    } else {
        lemma_digits_val_prefix(s, a + 1);
        let t = s.subrange(0, a + 1);
        assert(t.drop_last() =~= s.subrange(0, a));
        assert(all_digits(t.drop_last()));
        lemma_digits_val_nonneg(t.drop_last());
        assert(digits_val(t) == digits_val(s.subrange(0, a)) * 10 + (t.last() - 48));
        assert(is_digit(s[a]));
    }
}

pub proof fn lemma_first_cr_some(s: Seq<u8>, i: int, j: int)
    requires
        0 <= i <= s.len(),
        first_cr(s, i) == Some(j),
    ensures
        i <= j < s.len(),
        s[j] == CR,
    decreases s.len() - i,
{
    if i < s.len() && s[i] != CR {
        lemma_first_cr_some(s, i + 1, j);
    }
}

pub proof fn lemma_first_crlf_some(s: Seq<u8>, i: int, j: int)
    requires
        0 <= i,
        first_crlf(s, i) == Some(j),
    ensures
        i <= j,
        j + 1 < s.len(),
        s[j] == CR,
        s[j + 1] == LF,
    decreases s.len() - i,
{
    if i + 1 < s.len() && !(s[i] == CR && s[i + 1] == LF) {
        lemma_first_crlf_some(s, i + 1, j);
    }
}

pub proof fn lemma_read_int_bounds(s: Seq<u8>, start: int, v: int, c: nat)
    requires
        0 <= start <= s.len(),
        read_int(s, start) == (IntStep::Value { value: v, len: c }),
    ensures
        0 <= v <= i64::MAX,
        2 <= c,
        start + c <= s.len(),
{
    match first_cr(s, start) {
        Some(j) => {
            lemma_first_cr_some(s, start, j);
            lemma_digits_val_nonneg(s.subrange(start, j));
        }
        None => {}
    }
}

pub proof fn lemma_parse_elems_done_bounds(s: Seq<u8>, pos: int, k: int, args: Seq<Seq<u8>>, end: int)
    requires
        0 <= pos <= s.len(),
        k >= 0,
        parse_elems(s, pos, k) == (ElemsStep::Done { args, end }),
    ensures
        pos <= end <= s.len(),
        args.len() == k,
    decreases k,
{
    if k > 0 {
        match read_int(s, pos + 1) {
            IntStep::Value { value: n, len: c } => {
                lemma_read_int_bounds(s, pos + 1, n, c);
                let p2 = pos + 1 + c;
                match parse_elems(s, p2 + n + 2, k - 1) {
                    ElemsStep::Done { args: rest, end: e2 } => {
                        lemma_parse_elems_done_bounds(s, p2 + n + 2, k - 1, rest, e2);
                    }
                    _ => {}
                }
            }
            _ => {}
        }
    }
}

pub proof fn lemma_parse_frame_bounds(s: Seq<u8>, start: int, cmd: SpecCommand, len: nat)
    requires
        0 <= start < s.len(),
        parse_frame(s, start) == (FrameStep::Frame { cmd, len }),
    ensures
        1 <= len,
        start + len <= s.len(),
{
    if s[start] == STAR {
        match read_int(s, start + 1) {
            IntStep::Value { value: count, len: c } => {
                lemma_read_int_bounds(s, start + 1, count, c);
                match parse_elems(s, start + 1 + c, count) {
                    ElemsStep::Done { args, end } => {
                        lemma_parse_elems_done_bounds(s, start + 1 + c, count, args, end);
                    }
                    _ => {}
                }
            }
            _ => {}
        }
    } else {
        match first_crlf(s, start) {
            Some(j) => {
                lemma_first_crlf_some(s, start, j);
            }
            None => {}
        }
    }
}

pub proof fn lemma_decode_from_bounds(s: Seq<u8>, pos: int)
    requires
        0 <= pos <= s.len(),
    ensures
        pos <= decode_from(s, pos).end <= s.len(),
    decreases s.len() - pos,
{
    if pos < s.len() {
        match parse_frame(s, pos) {
            FrameStep::Incomplete => {}
            FrameStep::Skip => {
                lemma_decode_from_bounds(s, pos + 1);
            }
            FrameStep::Frame { cmd, len } => {
                lemma_parse_frame_bounds(s, pos, cmd, len);
                lemma_decode_from_bounds(s, pos + len);
            }
        }
    }
}

/// Unfolds one complete-frame step of a decode pass.
pub proof fn lemma_decode_from_step_frame(s: Seq<u8>, pos: int, cmd: SpecCommand, len: nat)
    requires
        0 <= pos < s.len(),
        parse_frame(s, pos) == (FrameStep::Frame { cmd, len }),
    ensures
        decode_from(s, pos).cmds == seq![cmd] + decode_from(s, pos + len).cmds,
        decode_from(s, pos).end == decode_from(s, pos + len).end,
{
    lemma_parse_frame_bounds(s, pos, cmd, len);
}

/// A malformed frame never wedges the decoder: the pass goes on one byte
/// past it, so a valid frame later in the buffer is still found.
pub proof fn lemma_skip_makes_progress(s: Seq<u8>, pos: int)
    requires
        0 <= pos < s.len(),
        parse_frame(s, pos) is Skip,
    ensures
        decode_from(s, pos) == decode_from(s, pos + 1),
{
}

proof fn lemma_first_cr_stable(s: Seq<u8>, t: Seq<u8>, i: int, j: int)
    requires
        0 <= i <= s.len(),
        first_cr(s, i) == Some(j),
    ensures
        first_cr(s + t, i) == Some(j),
    decreases s.len() - i,
{
    assert((s + t)[i] == s[i]);
    if s[i] != CR {
        lemma_first_cr_stable(s, t, i + 1, j);
    }
}

proof fn lemma_read_int_stable(s: Seq<u8>, t: Seq<u8>, start: int)
    requires
        0 <= start <= s.len(),
        !(read_int(s, start) is Incomplete),
    ensures
        read_int(s + t, start) == read_int(s, start),
{
    match first_cr(s, start) {
        None => {}
        Some(j) => {
            lemma_first_cr_some(s, start, j);
            lemma_first_cr_stable(s, t, start, j);
            assert((s + t)[j + 1] == s[j + 1]);
            assert((s + t).subrange(start, j) =~= s.subrange(start, j));
        }
    }
}

proof fn lemma_parse_elems_stable(s: Seq<u8>, t: Seq<u8>, pos: int, k: int)
    requires
        0 <= pos <= s.len(),
        k >= 0,
        !(parse_elems(s, pos, k) is Incomplete),
    ensures
        parse_elems(s + t, pos, k) == parse_elems(s, pos, k),
    decreases k,
{
    if k > 0 {
        assert((s + t)[pos] == s[pos]);
        if s[pos] == DOLLAR {
            match read_int(s, pos + 1) {
                IntStep::Incomplete => {}
                IntStep::Malformed => {
                    lemma_read_int_stable(s, t, pos + 1);
                }
                IntStep::Value { value: n, len: c } => {
                    lemma_read_int_stable(s, t, pos + 1);
                    lemma_read_int_bounds(s, pos + 1, n, c);
                    let p2 = pos + 1 + c;
                    if p2 + n + 2 <= s.len() {
                        assert((s + t).subrange(p2, p2 + n) =~= s.subrange(p2, p2 + n));
                        lemma_parse_elems_stable(s, t, p2 + n + 2, k - 1);
                    }
                }
            }
        }
    }
}

proof fn lemma_first_crlf_stable(s: Seq<u8>, t: Seq<u8>, i: int, j: int)
    requires
        0 <= i,
        first_crlf(s, i) == Some(j),
    ensures
        first_crlf(s + t, i) == Some(j),
    decreases s.len() - i,
{
    if i + 1 < s.len() {
        assert((s + t)[i] == s[i]);
        assert((s + t)[i + 1] == s[i + 1]);
        if !(s[i] == CR && s[i + 1] == LF) {
            lemma_first_crlf_stable(s, t, i + 1, j);
        }
    }
}

proof fn lemma_parse_frame_stable(s: Seq<u8>, t: Seq<u8>, start: int)
    requires
        0 <= start < s.len(),
        !(parse_frame(s, start) is Incomplete),
    ensures
        parse_frame(s + t, start) == parse_frame(s, start),
{
    assert((s + t)[start] == s[start]);
    if s[start] == STAR {
        match read_int(s, start + 1) {
            IntStep::Incomplete => {}
            IntStep::Malformed => {
                lemma_read_int_stable(s, t, start + 1);
            }
            IntStep::Value { value: count, len: c } => {
                lemma_read_int_stable(s, t, start + 1);
                lemma_read_int_bounds(s, start + 1, count, c);
                match parse_elems(s, start + 1 + c, count) {
                    ElemsStep::Incomplete => {}
                    ElemsStep::Malformed => {
                        lemma_parse_elems_stable(s, t, start + 1 + c, count);
                    }
                    ElemsStep::Done { args, end } => {
                        lemma_parse_elems_stable(s, t, start + 1 + c, count);
                        lemma_parse_elems_done_bounds(s, start + 1 + c, count, args, end);
                        assert((s + t).subrange(start, end) =~= s.subrange(start, end));
                    }
                }
            }
        }
    } else {
        match first_crlf(s, start) {
            None => {}
            Some(j) => {
                lemma_first_crlf_some(s, start, j);
                lemma_first_crlf_stable(s, t, start, j);
                assert((s + t).subrange(start, j) =~= s.subrange(start, j));
                assert((s + t).subrange(start, j + 2) =~= s.subrange(start, j + 2));
            }
        }
    }
}

/// Growing the buffer only continues a decode pass: everything the shorter
/// buffer decoded is decoded again, unchanged, and decoding then goes on from
/// where the shorter pass stopped.
pub proof fn lemma_decode_extend(s: Seq<u8>, t: Seq<u8>, pos: int)
    requires
        0 <= pos <= s.len(),
    ensures
        ({
            let r = decode_from(s, pos);
            let re = decode_from(s + t, pos);
            let rc = decode_from(s + t, r.end);
            re.cmds == r.cmds + rc.cmds && re.end == rc.end
        }),
    decreases s.len() - pos,
{
    let r = decode_from(s, pos);
    if pos == s.len() {
        assert(Seq::<SpecCommand>::empty() + decode_from(s + t, pos).cmds =~= decode_from(
            s + t,
            pos,
        ).cmds);
    } else {
        match parse_frame(s, pos) {
            FrameStep::Incomplete => {
                assert(Seq::<SpecCommand>::empty() + decode_from(s + t, pos).cmds =~= decode_from(
                    s + t,
                    pos,
                ).cmds);
            }
            FrameStep::Skip => {
                lemma_parse_frame_stable(s, t, pos);
                lemma_decode_extend(s, t, pos + 1);
            }
            FrameStep::Frame { cmd, len } => {
                lemma_parse_frame_stable(s, t, pos);
                lemma_parse_frame_bounds(s, pos, cmd, len);
                lemma_decode_from_step_frame(s, pos, cmd, len);
                lemma_decode_from_step_frame(s + t, pos, cmd, len);
                lemma_decode_extend(s, t, pos + len);
                let a = decode_from(s, pos + len).cmds;
                let b = decode_from(s + t, decode_from(s, pos + len).end).cmds;
                assert((seq![cmd] + a) + b =~= seq![cmd] + (a + b));
            }
        }
    }
}

proof fn lemma_first_cr_shift(s: Seq<u8>, c: int, i: int)
    requires
        0 <= c,
        0 <= i,
        c + i <= s.len(),
    ensures
        match first_cr(s, c + i) {
            Some(j) => first_cr(s.skip(c), i) == Some(j - c),
            None => first_cr(s.skip(c), i) is None,
        },
    decreases s.len() - c - i,
{
    let ss = s.skip(c);
    if c + i < s.len() {
        assert(ss[i] == s[c + i]);
        if s[c + i] != CR {
            lemma_first_cr_shift(s, c, i + 1);
        }
    }
}

proof fn lemma_read_int_shift(s: Seq<u8>, c: int, start: int)
    requires
        0 <= c,
        0 <= start,
        c + start <= s.len(),
    ensures
        read_int(s.skip(c), start) == read_int(s, c + start),
{
    let ss = s.skip(c);
    lemma_first_cr_shift(s, c, start);
    match first_cr(s, c + start) {
        Some(j) => {
            lemma_first_cr_some(s, c + start, j);
            if j + 1 < s.len() {
                assert(ss[j - c + 1] == s[j + 1]);
                assert(ss.subrange(start, j - c) =~= s.subrange(c + start, j));
            }
        }
        None => {}
    }
}

proof fn lemma_parse_elems_shift(s: Seq<u8>, c: int, pos: int, k: int)
    requires
        0 <= c,
        0 <= pos,
        c + pos <= s.len(),
        k >= 0,
    ensures
        match parse_elems(s, c + pos, k) {
            ElemsStep::Done { args, end } => parse_elems(s.skip(c), pos, k) == (ElemsStep::Done {
                args,
                end: end - c,
            }),
            r => parse_elems(s.skip(c), pos, k) == r,
        },
    decreases k,
{
    let ss = s.skip(c);
    if k > 0 && c + pos < s.len() {
        assert(ss[pos] == s[c + pos]);
        if s[c + pos] == DOLLAR {
            lemma_read_int_shift(s, c, pos + 1);
            match read_int(s, c + pos + 1) {
                IntStep::Value { value: n, len: cc } => {
                    lemma_read_int_bounds(s, c + pos + 1, n, cc);
                    let p2 = c + pos + 1 + cc;
                    if p2 + n + 2 <= s.len() {
                        assert(ss.subrange(pos + 1 + cc, pos + 1 + cc + n) =~= s.subrange(
                            p2,
                            p2 + n,
                        ));
                        lemma_parse_elems_shift(s, c, pos + 1 + cc + n + 2, k - 1);
                    }
                }
                _ => {}
            }
        }
    }
}

proof fn lemma_first_crlf_shift(s: Seq<u8>, c: int, i: int)
    requires
        0 <= c,
        0 <= i,
        c + i <= s.len(),
    ensures
        match first_crlf(s, c + i) {
            Some(j) => first_crlf(s.skip(c), i) == Some(j - c),
            None => first_crlf(s.skip(c), i) is None,
        },
    decreases s.len() - c - i,
{
    let ss = s.skip(c);
    if c + i + 1 < s.len() {
        assert(ss[i] == s[c + i]);
        assert(ss[i + 1] == s[c + i + 1]);
        if !(s[c + i] == CR && s[c + i + 1] == LF) {
            lemma_first_crlf_shift(s, c, i + 1);
        }
    }
}

proof fn lemma_parse_frame_shift(s: Seq<u8>, c: int, start: int)
    requires
        0 <= c,
        0 <= start,
        c + start < s.len(),
    ensures
        parse_frame(s.skip(c), start) == parse_frame(s, c + start),
{
    let ss = s.skip(c);
    assert(ss[start] == s[c + start]);
    if s[c + start] == STAR {
        lemma_read_int_shift(s, c, start + 1);
        match read_int(s, c + start + 1) {
            IntStep::Value { value: count, len: cc } => {
                lemma_read_int_bounds(s, c + start + 1, count, cc);
                lemma_parse_elems_shift(s, c, start + 1 + cc, count);
                match parse_elems(s, c + start + 1 + cc, count) {
                    ElemsStep::Done { args, end } => {
                        lemma_parse_elems_done_bounds(s, c + start + 1 + cc, count, args, end);
                        assert(ss.subrange(start, end - c) =~= s.subrange(c + start, end));
                    }
                    _ => {}
                }
            }
            _ => {}
        }
    } else {
        lemma_first_crlf_shift(s, c, start);
        match first_crlf(s, c + start) {
            Some(j) => {
                lemma_first_crlf_some(s, c + start, j);
                assert(ss.subrange(start, j - c) =~= s.subrange(c + start, j));
                assert(ss.subrange(start, j - c + 2) =~= s.subrange(c + start, j + 2));
            }
            None => {}
        }
    }
}

/// A decode pass does not care where the buffer began: decoding the tail of
/// a buffer finds the same commands at shifted positions.
pub proof fn lemma_decode_shift(s: Seq<u8>, c: int, pos: int)
    requires
        0 <= c,
        0 <= pos,
        c + pos <= s.len(),
    ensures
        decode_from(s.skip(c), pos).cmds == decode_from(s, c + pos).cmds,
        decode_from(s.skip(c), pos).end == decode_from(s, c + pos).end - c,
    decreases s.len() - c - pos,
{
    let ss = s.skip(c);
    if c + pos < s.len() {
        lemma_parse_frame_shift(s, c, pos);
        match parse_frame(s, c + pos) {
            FrameStep::Incomplete => {}
            FrameStep::Skip => {
                lemma_decode_shift(s, c, pos + 1);
            }
            FrameStep::Frame { cmd, len } => {
                lemma_parse_frame_bounds(s, c + pos, cmd, len);
                lemma_decode_from_step_frame(s, c + pos, cmd, len);
                lemma_decode_from_step_frame(ss, pos, cmd, len);
                lemma_decode_shift(s, c, pos + len);
            }
        }
    }
}

/// Feeding a buffer in two pieces decodes exactly the same commands as
/// feeding it whole, and leaves exactly the same bytes waiting: the commands
/// of the whole are those of the first piece followed by those of the
/// retained tail plus the second piece.
pub proof fn lemma_decode_chunked(b1: Seq<u8>, b2: Seq<u8>)
    ensures
        ({
            let r1 = decode(b1);
            let r2 = decode(b1.skip(r1.end) + b2);
            let r = decode(b1 + b2);
            &&& r.cmds == r1.cmds + r2.cmds
            &&& (b1 + b2).skip(r.end) == (b1.skip(r1.end) + b2).skip(r2.end)
        }),
{
    let r1 = decode(b1);
    lemma_decode_from_bounds(b1, 0);
    lemma_decode_extend(b1, b2, 0);
    assert((b1 + b2).skip(r1.end) =~= b1.skip(r1.end) + b2);
    lemma_decode_shift(b1 + b2, r1.end, 0);
    lemma_decode_from_bounds(b1 + b2, r1.end);
    let r2 = decode(b1.skip(r1.end) + b2);
    let r = decode(b1 + b2);
    assert((b1 + b2).skip(r.end) =~= (b1 + b2).skip(r1.end).skip(r2.end));
}

/// The decoder run over a sequence of chunks: each chunk is appended to the
/// retained buffer and decoded, commands accumulating in order.
pub struct DecoderRun {
    pub cmds: Seq<SpecCommand>,
    pub buf: Seq<u8>,
}

pub open spec fn run_decoder(chunks: Seq<Seq<u8>>) -> DecoderRun
    decreases chunks.len(),
{
    if chunks.len() == 0 {
        DecoderRun { cmds: seq![], buf: seq![] }
    } else {
        let p = run_decoder(chunks.drop_last());
        let fed = p.buf + chunks.last();
        let r = decode(fed);
        DecoderRun { cmds: p.cmds + r.cmds, buf: fed.skip(r.end) }
    }
}

/// Chunking invariance: however a byte stream is cut into chunks, feeding
/// the chunks one by one decodes exactly the commands of the whole stream,
/// and retains exactly the bytes the whole stream would retain.
pub proof fn lemma_chunking_invariance(chunks: Seq<Seq<u8>>)
    ensures
        ({
            let whole = chunks.flatten();
            let r = decode(whole);
            &&& run_decoder(chunks).cmds == r.cmds
            &&& run_decoder(chunks).buf == whole.skip(r.end)
        }),
    decreases chunks.len(),
{
    if chunks.len() == 0 {
        assert(chunks.flatten() =~= Seq::<u8>::empty());
        assert(Seq::<u8>::empty().skip(0) =~= Seq::<u8>::empty());
    } else {
        let dl = chunks.drop_last();
        lemma_chunking_invariance(dl);
        let f1 = dl.flatten();
        dl.lemma_flatten_push(chunks.last());
        assert(dl.push(chunks.last()) =~= chunks);
        lemma_decode_chunked(f1, chunks.last());
    }
}

} // verus!
