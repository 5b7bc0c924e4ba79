//! The PostgreSQL frontend/backend protocol (v3), as far as the
//! maintenance plane speaks it: message framing, the startup packet, the
//! simple-query protocol, and the decisions taken on each message of the
//! handshake, of a query, and of the copy stream. Sockets stay outside.

use vstd::prelude::*;
use vstd::utf8::*;

use crate::bytes;
use crate::bytes::{find_nul, push_all, push_be, read_be, to_i16, to_i32, to_pattern64};
use crate::error;
use crate::error::{CdcError, CdcErrorView};
use crate::pgoutput;
use crate::text;
use crate::text::{
    char_debug, chars_of, dec_int_string, dec_string, join3, join5, owned, push_hex, str_debug,
    utf8_lossy,
};

verus! {

/// Microseconds between the Unix epoch and the PostgreSQL epoch
/// (2000-01-01T00:00:00Z).
pub const PG_EPOCH_OFFSET_US: i64 = 946_684_800_000_000;

/// `SystemTime::now` against `UNIX_EPOCH`, in microseconds; nothing where
/// the clock stands before the epoch. Nothing is claimed of the value.
#[verifier::external_body]
fn unix_us() -> (us: Option<i64>) {
    std::time::SystemTime::now()
        .duration_since(std::time::UNIX_EPOCH)
        .ok()
        .map(|d| d.as_micros() as i64)
}

/// A clock reading as microseconds since the PostgreSQL epoch.
pub open spec fn pg_us_spec(unix: Option<i64>) -> i64 {
    (match unix {
        Some(us) => us,
        None => 0,
    }).wrapping_sub(PG_EPOCH_OFFSET_US)
}

/// A clock reading (microseconds since the Unix epoch; none counts as
/// zero) as microseconds since the PostgreSQL epoch.
pub fn pg_us(unix: Option<i64>) -> (r: i64)
    ensures
        r == pg_us_spec(unix),
{
    let us: i64 = match unix {
        Some(us) => us,
        None => 0,
    };
    us.wrapping_sub(PG_EPOCH_OFFSET_US)
}

/// Microseconds since the PostgreSQL epoch, from the system clock.
pub fn now_pg_us() -> (r: i64)
    ensures
        exists|unix: Option<i64>| r == pg_us_spec(unix),
{
    pg_us(unix_us())
}

// ------------------------------------------------------------------ LSN

/// The textual `X/Y` form of an LSN.
pub open spec fn lsn_text(lsn: nat) -> Seq<char> {
    text::hex_upper(lsn / 0x1_0000_0000) + "/"@ + text::hex_upper(lsn % 0x1_0000_0000)
}

/// Format an LSN as the textual `X/Y` form.
pub fn fmt_lsn(lsn: u64) -> (s: String)
    ensures
        s@ == lsn_text(lsn as nat),
{
    let mut s = String::new();
    push_hex(&mut s, lsn / 0x1_0000_0000);
    s.append("/");
    push_hex(&mut s, lsn % 0x1_0000_0000);
    assert(s@ =~= lsn_text(lsn as nat));
    s
}

/// The value of a hexadecimal digit, of either case.
pub open spec fn hex_value(c: char) -> Option<nat> {
    if '0' <= c <= '9' {
        Some((c as nat - 48) as nat)
    } else if 'a' <= c <= 'f' {
        Some((c as nat - 87) as nat)
    } else if 'A' <= c <= 'F' {
        Some((c as nat - 55) as nat)
    } else {
        None
    }
}

/// Reads hexadecimal digits from `i` on, behind the value `acc`.
pub open spec fn hex_from(s: Seq<char>, i: int, acc: nat) -> Result<nat, Seq<char>>
    decreases s.len() - i,
{
    if i >= s.len() {
        Ok(acc)
    } else {
        match hex_value(s[i]) {
            None => Err("invalid digit found in string"@),
            Some(d) => if acc * 16 + d > u64::MAX {
                Err("number too large to fit in target type"@)
            } else {
                hex_from(s, i + 1, acc * 16 + d)
            },
        }
    }
}

/// A 64-bit number in hexadecimal, with an optional plus sign.
pub open spec fn hex_spec(s: Seq<char>) -> Result<nat, Seq<char>> {
    if s.len() == 0 {
        Err("cannot parse integer from empty string"@)
    } else if s[0] == '+' && s.len() > 1 {
        hex_from(s, 1, 0)
    } else {
        hex_from(s, 0, 0)
    }
}

/// The position of the first slash at or after `from`, if any.
pub open spec fn slash_at(s: Seq<char>, from: int) -> Option<int>
    decreases s.len() - from,
{
    if from >= s.len() {
        None
    } else if s[from] == '/' {
        Some(from)
    } else {
        slash_at(s, from + 1)
    }
}

/// The LSN that a text spells, or the complaint about it.
pub open spec fn lsn_spec(s: Seq<char>) -> Result<u64, Seq<char>> {
    match slash_at(s, 0) {
        None => Err("bad lsn "@ + text::debug_str(s)),
        Some(k) => match hex_spec(s.take(k)) {
            Err(e) => Err("bad lsn "@ + text::debug_str(s) + ": "@ + e),
            Ok(hi) => match hex_spec(s.skip(k + 1)) {
                Err(e) => Err("bad lsn "@ + text::debug_str(s) + ": "@ + e),
                Ok(lo) => Ok(((hi as u64) << 32) | (lo as u64)),
            },
        },
    }
}

/// Reads the hexadecimal number in `s[from..to]`.
fn read_hex(s: &Vec<char>, from: usize, to: usize) -> (r: Result<u64, String>)
    requires
        from <= to <= s@.len(),
    ensures
        match hex_spec(s@.subrange(from as int, to as int)) {
            Ok(v) => r matches Ok(x) && x == v,
            Err(t) => r matches Err(e) && e@ == t,
        },
{
    let ghost sub = s@.subrange(from as int, to as int);
    if from == to {
        return Err(owned("cannot parse integer from empty string"));
    }
    let start: usize = if s[from] == '+' && to - from > 1 {
        from + 1
    } else {
        from
    };
    let mut acc: u64 = 0;
    let mut i: usize = start;
    while i < to
        invariant
            from <= start <= i <= to <= s@.len(),
            sub == s@.subrange(from as int, to as int),
            hex_spec(sub) == hex_from(sub, start - from, 0),
            hex_from(sub, start - from, 0) == hex_from(sub, i - from, acc as nat),
        decreases to - i,
    {
        let c = s[i];
        assert(sub[i - from] == c);
        let d: u64 = if '0' <= c && c <= '9' {
            (c as u64) - 48
        } else if 'a' <= c && c <= 'f' {
            (c as u64) - 87
        } else if 'A' <= c && c <= 'F' {
            (c as u64) - 55
        } else {
            return Err(owned("invalid digit found in string"));
        };
        if acc > 0x0FFF_FFFF_FFFF_FFFF {
            return Err(owned("number too large to fit in target type"));
        }
        acc = acc * 16 + d;
        i += 1;
    }
    Ok(acc)
}

/// Parse the textual `X/Y` LSN form.
pub fn parse_lsn(s: &str) -> (r: Result<u64, CdcError>)
    ensures
        match lsn_spec(s@) {
            Ok(v) => r matches Ok(x) && x == v,
            Err(t) => error::decode_err(r, t),
        },
{
    let cs = chars_of(s);
    let mut k: usize = 0;
    while k < cs.len() && cs[k] != '/'
        invariant
            cs@ == s@,
            k <= cs@.len(),
            slash_at(s@, 0) == slash_at(s@, k as int),
        decreases cs.len() - k,
    {
        k += 1;
    }
    if k == cs.len() {
        let text = join3("bad lsn ", str_debug(s).as_str(), "");
        proof {
            reveal_strlit("");
            assert(text@ =~= "bad lsn "@ + text::debug_str(s@));
        }
        return Err(CdcError::Decode(text));
    }
    assert(cs@.subrange(0, k as int) =~= s@.take(k as int));
    assert(cs@.subrange(k + 1, cs@.len() as int) =~= s@.skip(k + 1));
    match read_hex(&cs, 0, k) {
        Err(e) => Err(lsn_error(s, e.as_str())),
        Ok(hi) => match read_hex(&cs, k + 1, cs.len()) {
            Err(e) => Err(lsn_error(s, e.as_str())),
            Ok(lo) => Ok((hi << 32) | lo),
        },
    }
}

/// The error for an LSN with a malformed half.
fn lsn_error(s: &str, why: &str) -> (e: CdcError)
    ensures
        e@ == CdcErrorView::Decode("bad lsn "@ + text::debug_str(s@) + ": "@ + why@),
{
    let text = join5("bad lsn ", str_debug(s).as_str(), ": ", why, "");
    proof {
        reveal_strlit("");
        assert(text@ =~= "bad lsn "@ + text::debug_str(s@) + ": "@ + why@);
    }
    CdcError::Decode(text)
}

proof fn lemma_hex_from_push(s: Seq<char>, i: int, acc: nat, c: char)
    requires
        0 <= i <= s.len(),
        hex_from(s, i, acc) is Ok,
        hex_value(c) is Some,
        hex_from(s, i, acc)->Ok_0 * 16 + hex_value(c)->0 <= u64::MAX,
    ensures
        hex_from(s.push(c), i, acc) == Ok::<nat, Seq<char>>(
            hex_from(s, i, acc)->Ok_0 * 16 + hex_value(c)->0,
        ),
    decreases s.len() - i,
{
    if i < s.len() {
        assert(s.push(c)[i] == s[i]);
        lemma_hex_from_push(s, i + 1, acc * 16 + hex_value(s[i])->0, c);
    } else {
        reveal_with_fuel(hex_from, 2);
    }
}

proof fn lemma_hex_upper(n: nat)
    requires
        n <= u64::MAX,
    ensures
        text::hex_upper(n).len() > 0,
        hex_from(text::hex_upper(n), 0, 0) == Ok::<nat, Seq<char>>(n),
        forall|i: int| 0 <= i < text::hex_upper(n).len() ==> hex_value(#[trigger] text::hex_upper(n)[i]) is Some,
    decreases n,
{
    if n < 16 {
        reveal_with_fuel(hex_from, 2);
    } else {
        lemma_hex_upper(n / 16);
        let d = text::hex_digit(n % 16);
        assert(hex_value(d) == Some(n % 16));
        lemma_hex_from_push(text::hex_upper(n / 16), 0, 0, d);
    }
}

proof fn lemma_slash_first(a: Seq<char>, rest: Seq<char>, from: int)
    requires
        0 <= from <= a.len(),
        forall|i: int| 0 <= i < a.len() ==> a[i] != '/',
    ensures
        slash_at(a + seq!['/'] + rest, from) == Some(a.len() as int),
    decreases a.len() - from,
{
    if from < a.len() {
        assert((a + seq!['/'] + rest)[from] == a[from]);
        lemma_slash_first(a, rest, from + 1);
    }
}

/// Formatting an LSN and parsing the text gives the LSN back.
pub proof fn lsn_round_trip(lsn: u64)
    ensures
        lsn_spec(lsn_text(lsn as nat)) == Ok::<u64, Seq<char>>(lsn),
{
    let hi = (lsn as nat) / 0x1_0000_0000;
    let lo = (lsn as nat) % 0x1_0000_0000;
    let s = lsn_text(lsn as nat);
    lemma_hex_upper(hi);
    lemma_hex_upper(lo);
    reveal_strlit("/");
    assert("/"@ =~= seq!['/']);
    lemma_slash_first(text::hex_upper(hi), text::hex_upper(lo), 0);
    let k = text::hex_upper(hi).len() as int;
    assert(s.take(k) =~= text::hex_upper(hi));
    assert(s.skip(k + 1) =~= text::hex_upper(lo));
    assert(hex_value(text::hex_upper(hi)[0]) is Some);
    assert(hex_value(text::hex_upper(lo)[0]) is Some);
    let h = hi as u64;
    let l = lo as u64;
    assert(lsn == h * 0x1_0000_0000 + l);
    assert(((h << 32) | l) == lsn) by (bit_vector)
        requires
            lsn == h * 0x1_0000_0000 + l,
            l < 0x1_0000_0000,
            h < 0x1_0000_0000,
    ;
}

// ------------------------------------------------------------- messages

/// One simple-query result: column names + text rows.
pub type TextResult = (Vec<String>, Vec<Vec<Option<String>>>);

/// One backend message: tag byte + payload (length header stripped).
#[derive(Debug)]
pub struct BackendMsg {
    /// Message type byte.
    pub tag: u8,
    /// Message body.
    pub payload: Vec<u8>,
}

/// Message tag: Authentication (`'R'`).
pub const MSG_AUTH: u8 = 82;

/// Message tag: ParameterStatus (`'S'`).
pub const MSG_PARAMETER: u8 = 83;

/// Message tag: BackendKeyData (`'K'`).
pub const MSG_KEY_DATA: u8 = 75;

/// Message tag: NoticeResponse (`'N'`).
pub const MSG_NOTICE: u8 = 78;

/// Message tag: ReadyForQuery (`'Z'`).
pub const MSG_READY: u8 = 90;

/// Message tag: ErrorResponse (`'E'`).
pub const MSG_ERROR: u8 = 69;

/// Message tag: RowDescription (`'T'`).
pub const MSG_ROW_DESCRIPTION: u8 = 84;

/// Message tag: DataRow (`'D'`).
pub const MSG_DATA_ROW: u8 = 68;

/// Message tag: CommandComplete (`'C'`).
pub const MSG_COMPLETE: u8 = 67;

/// Message tag: EmptyQueryResponse (`'I'`).
pub const MSG_EMPTY_QUERY: u8 = 73;

/// Message tag: CopyBothResponse (`'W'`).
pub const MSG_COPY_BOTH: u8 = 87;

/// Message tag: CopyData (`'d'`).
pub const MSG_COPY_DATA: u8 = 100;

/// Message tag: CopyDone (`'c'`).
pub const MSG_COPY_DONE: u8 = 99;

/// Message tag: Query (`'Q'`).
pub const MSG_QUERY: u8 = 81;

/// Payload tag: standby status update (`'r'`).
pub const STATUS_UPDATE: u8 = 114;

/// A tagged message on the wire: tag, length (itself counted), payload.
pub open spec fn frame_spec(tag: u8, payload: Seq<u8>) -> Seq<u8> {
    seq![tag] + bytes::be_bytes(payload.len() + 4, 4) + payload
}

/// A tagged message, ready to send.
pub fn frame(tag: u8, payload: &[u8]) -> (out: Vec<u8>)
    requires
        payload@.len() + 4 <= usize::MAX,
    ensures
        out@ == frame_spec(tag, payload@),
{
    let mut out: Vec<u8> = Vec::new();
    out.push(tag);
    push_be(&mut out, (payload.len() + 4) as u64, 4);
    push_all(&mut out, payload);
    assert(out@ =~= frame_spec(tag, payload@));
    out
}

/// The bytes of a NUL-terminated string.
pub open spec fn cstring(s: &str) -> Seq<u8> {
    encode_utf8(s@).push(0)
}

/// The key/value part of the startup packet.
pub open spec fn startup_pairs(db: &str, user: &str, replication: bool) -> Seq<u8> {
    cstring("user") + cstring(user) + cstring("database") + cstring(db) + cstring(
        "application_name",
    ) + cstring("bruce-cdc") + (if replication {
        cstring("replication") + cstring("database")
    } else {
        Seq::empty()
    })
}

/// The startup packet behind its length: protocol 3.0, the key/value
/// pairs, a zero byte.
pub open spec fn startup_body(db: &str, user: &str, replication: bool) -> Seq<u8> {
    (bytes::be_bytes(196608, 4) + startup_pairs(db, user, replication)).push(0)
}

/// Appends a NUL-terminated string.
fn push_cstring(out: &mut Vec<u8>, s: &str)
    ensures
        final(out)@ == old(out)@ + cstring(s),
{
    push_all(out, s.as_bytes());
    out.push(0);
    assert(out@ =~= old(out)@ + cstring(s));
}

/// The startup packet, ready to send: length, then body. A database name
/// and a user name that together pass the address space cannot occur.
pub fn startup_message(db: &str, user: &str, replication: bool) -> (out: Vec<u8>)
    requires
        startup_body(db, user, replication).len() + 4 <= usize::MAX,
    ensures
        out@ == bytes::be_bytes(startup_body(db, user, replication).len() + 4, 4) + startup_body(
            db,
            user,
            replication,
        ),
{
    let mut body: Vec<u8> = Vec::new();
    push_be(&mut body, 196608, 4);
    push_cstring(&mut body, "user");
    push_cstring(&mut body, user);
    push_cstring(&mut body, "database");
    push_cstring(&mut body, db);
    push_cstring(&mut body, "application_name");
    push_cstring(&mut body, "bruce-cdc");
    if replication {
        push_cstring(&mut body, "replication");
        push_cstring(&mut body, "database");
    }
    body.push(0);
    assert(body@ =~= startup_body(db, user, replication));
    let mut out: Vec<u8> = Vec::new();
    push_be(&mut out, (body.len() + 4) as u64, 4);
    push_all(&mut out, body.as_slice());
    assert(out@ =~= bytes::be_bytes(startup_body(db, user, replication).len() + 4, 4) + startup_body(
        db,
        user,
        replication,
    ));
    out
}

/// A simple-query message, ready to send.
pub fn query_message(sql: &str) -> (out: Vec<u8>)
    requires
        encode_utf8(sql@).len() + 5 <= usize::MAX,
    ensures
        out@ == frame_spec(MSG_QUERY, cstring(sql)),
{
    let mut payload: Vec<u8> = Vec::new();
    push_cstring(&mut payload, sql);
    assert(payload@ =~= cstring(sql));
    frame(MSG_QUERY, payload.as_slice())
}

/// The payload of a standby status update: received / flushed / applied
/// LSNs, the client clock, and whether a reply is wanted.
pub open spec fn status_spec(
    received: nat,
    flushed: nat,
    applied: nat,
    now_us: int,
    reply: bool,
) -> Seq<u8> {
    seq![STATUS_UPDATE] + bytes::be_bytes(received, 8) + bytes::be_bytes(flushed, 8) + bytes::be_bytes(applied, 8)
        + bytes::be_bytes(bytes::pattern64(now_us), 8) + seq![
        if reply {
            1u8
        } else {
            0u8
        },
    ]
}

/// A standby status update, ready to send. Advancing `flushed` advances
/// the slot's confirmed_flush_lsn.
pub fn status_message(
    received: u64,
    flushed: u64,
    applied: u64,
    now_us: i64,
    reply: bool,
) -> (out: Vec<u8>)
    ensures
        out@ == frame_spec(
            MSG_COPY_DATA,
            status_spec(received as nat, flushed as nat, applied as nat, now_us as int, reply),
        ),
{
    let mut p: Vec<u8> = Vec::new();
    p.push(STATUS_UPDATE);
    push_be(&mut p, received, 8);
    push_be(&mut p, flushed, 8);
    push_be(&mut p, applied, 8);
    push_be(&mut p, to_pattern64(now_us), 8);
    if reply {
        p.push(1);
    } else {
        p.push(0);
    }
    proof {
        assert(p@ =~= status_spec(
            received as nat,
            flushed as nat,
            applied as nat,
            now_us as int,
            reply,
        ));
        lemma_be_len(received as nat, 8);
        lemma_be_len(flushed as nat, 8);
        lemma_be_len(applied as nat, 8);
        lemma_be_len(bytes::pattern64(now_us as int), 8);
    }
    frame(MSG_COPY_DATA, p.as_slice())
}

proof fn lemma_be_len(n: nat, k: nat)
    ensures
        bytes::be_bytes(n, k).len() == k,
    decreases k,
{
    if k > 0 {
        lemma_be_len(n / 256, (k - 1) as nat);
    }
}

/// The payload length that a length header announces, or the complaint
/// about it.
pub open spec fn announced(header: Seq<u8>) -> Result<nat, Seq<char>> {
    let len = bytes::as_i32(bytes::be_nat(header));
    if 4 <= len <= 0x4000_0000 {
        Ok((len - 4) as nat)
    } else {
        Err("bad message length "@ + text::dec_int(len))
    }
}

/// The payload length that a length header announces: between 4 bytes
/// (the header itself) and 1 GiB are accepted.
pub fn payload_length(header: &[u8]) -> (r: Result<usize, CdcError>)
    requires
        header@.len() == 4,
    ensures
        match announced(header@) {
            Ok(len) => r matches Ok(n) && n == len,
            Err(t) => error::protocol_err(r, t),
        },
{
    proof {
        bytes::lemma_pow256();
        assert(header@.subrange(0, 4) =~= header@);
    }
    let len: i32 = to_i32(read_be(header, 0, 4));
    if len < 4 || len > 0x4000_0000 {
        let text = join3("bad message length ", dec_int_string(len as i64).as_str(), "");
        proof {
            reveal_strlit("");
            assert(text@ =~= "bad message length "@ + text::dec_int(len as int));
        }
        return Err(CdcError::Protocol(text));
    }
    Ok((len - 4) as usize)
}

// ------------------------------------------------- backend message bodies

/// ErrorResponse field: the SQLSTATE (`'C'`).
pub const FIELD_CODE: u8 = 67;

/// ErrorResponse field: the message (`'M'`).
pub const FIELD_MESSAGE: u8 = 77;

/// The code and message fields of an ErrorResponse, from `pos` on; a
/// later field of a kind replaces an earlier one.
pub open spec fn error_fields(p: Seq<u8>, pos: int, code: Seq<char>, message: Seq<char>) -> (
    Seq<char>,
    Seq<char>,
)
    decreases p.len() + 1 - pos,
{
    if pos < 0 || pos >= p.len() || p[pos] == 0 {
        (code, message)
    } else {
        proof {
            bytes::lemma_nul_at(p, pos + 1);
        }
        let end = match bytes::nul_at(p, pos + 1) {
            Some(e) => e,
            None => p.len() as int,
        };
        let text = text::lossy_utf8(p.subrange(pos + 1, end));
        error_fields(
            p,
            end + 1,
            if p[pos] == FIELD_CODE {
                text
            } else {
                code
            },
            if p[pos] == FIELD_MESSAGE {
                text
            } else {
                message
            },
        )
    }
}

/// What an ErrorResponse says.
pub open spec fn backend_err_spec(p: Seq<u8>) -> CdcErrorView {
    let f = error_fields(p, 0, Seq::empty(), Seq::empty());
    CdcErrorView::Backend(f.0, f.1)
}

/// ErrorResponse: (field-type byte, cstring)* then a zero byte.
pub fn backend_err(payload: &[u8]) -> (e: CdcError)
    ensures
        e@ == backend_err_spec(payload@),
{
    let mut code = String::new();
    let mut message = String::new();
    let mut pos: usize = 0;
    while pos < payload.len() && payload[pos] != 0
        invariant
            error_fields(payload@, 0, Seq::empty(), Seq::empty()) == error_fields(
                payload@,
                pos as int,
                code@,
                message@,
            ),
        decreases payload@.len() + 1 - pos,
    {
        let field: u8 = payload[pos];
        let start: usize = pos + 1;
        let end: usize = match find_nul(payload, start) {
            Some(e) => e,
            None => payload.len(),
        };
        let text = utf8_lossy(&payload[start..end]);
        if end == payload.len() {
            proof {
                reveal_with_fuel(error_fields, 2);
            }
            if field == FIELD_CODE {
                code = text;
            } else if field == FIELD_MESSAGE {
                message = text;
            }
            return CdcError::Backend { code, message };
        }
        pos = end + 1;
        if field == FIELD_CODE {
            code = text;
        } else if field == FIELD_MESSAGE {
            message = text;
        }
    }
    CdcError::Backend { code, message }
}

/// A signed 32-bit number at `at`.
pub fn be_i32(buf: &[u8], at: usize) -> (r: Result<i32, CdcError>)
    ensures
        if at + 4 <= buf@.len() {
            r matches Ok(v) && v == bytes::as_i32(bytes::be_nat(buf@.subrange(at as int, at + 4)))
        } else {
            error::decode_err(r, "short message (i32)"@)
        },
{
    if buf.len() < 4 || at > buf.len() - 4 {
        return Err(CdcError::Decode(owned("short message (i32)")));
    }
    proof {
        bytes::lemma_pow256();
    }
    Ok(to_i32(read_be(buf, at, 4)))
}

/// A signed 16-bit number at `at`.
pub fn be_i16(buf: &[u8], at: usize) -> (r: Result<i16, CdcError>)
    ensures
        if at + 2 <= buf@.len() {
            r matches Ok(v) && v == bytes::as_i16(bytes::be_nat(buf@.subrange(at as int, at + 2)))
        } else {
            error::decode_err(r, "short message (i16)"@)
        },
{
    if buf.len() < 2 || at > buf.len() - 2 {
        return Err(CdcError::Decode(owned("short message (i16)")));
    }
    proof {
        bytes::lemma_pow256();
    }
    Ok(to_i16(read_be(buf, at, 2)))
}

/// The column count of a RowDescription or DataRow.
pub open spec fn field_count(p: Seq<u8>) -> int {
    bytes::as_i16(bytes::be_nat(p.subrange(0, 2)))
}

/// The `n` field names from `pos` on, behind those already in `acc`; each
/// is followed by 18 bytes of type information.
pub open spec fn names_from(p: Seq<u8>, pos: int, n: nat, acc: Seq<Seq<char>>) -> Result<
    Seq<Seq<char>>,
    Seq<char>,
>
    decreases n,
{
    if n == 0 {
        Ok(acc)
    } else {
        match bytes::nul_at(p, pos) {
            None => Err("unterminated field name"@),
            Some(e) => names_from(
                p,
                e + 19,
                (n - 1) as nat,
                acc.push(text::lossy_utf8(p.subrange(pos, e))),
            ),
        }
    }
}

/// Each of the `n` fields from `pos` on starts within the message, up to
/// the first one without an end.
pub open spec fn names_within(p: Seq<u8>, pos: int, n: nat) -> bool
    decreases n,
{
    n == 0 || (pos <= p.len() && match bytes::nul_at(p, pos) {
        None => true,
        Some(e) => names_within(p, e + 19, (n - 1) as nat),
    })
}

/// A RowDescription that can be read: its column count is not negative
/// and no field starts past the end of the message.
pub open spec fn row_description_fits_spec(p: Seq<u8>) -> bool {
    p.len() < 2 || (field_count(p) >= 0 && names_within(p, 2, field_count(p) as nat))
}

/// What a RowDescription says.
pub open spec fn row_description_spec(p: Seq<u8>) -> Result<Seq<Seq<char>>, Seq<char>> {
    if p.len() < 2 {
        Err("short message (i16)"@)
    } else {
        names_from(p, 2, field_count(p) as nat, Seq::empty())
    }
}

/// True for a RowDescription that [`row_description`] accepts.
pub fn row_description_fits(payload: &[u8]) -> (r: bool)
    ensures
        r == row_description_fits_spec(payload@),
{
    let count: i16 = match be_i16(payload, 0) {
        Err(_) => return true,
        Ok(n) => n,
    };
    if count < 0 {
        return false;
    }
    let n: usize = count as usize;
    let mut pos: usize = 2;
    let mut i: usize = 0;
    while i < n
        invariant
            i <= n,
            n == field_count(payload@),
            payload@.len() >= 2,
            row_description_fits_spec(payload@) == names_within(
                payload@,
                pos as int,
                (n - i) as nat,
            ),
        decreases n - i,
    {
        if pos > payload.len() {
            return false;
        }
        match find_nul(payload, pos) {
            None => return true,
            Some(e) => {
                if payload.len() - e < 19 {
                    // The next field, if there is one, starts past the end.
                    proof {
                        reveal_with_fuel(names_within, 2);
                    }
                    return i + 1 == n;
                }
                pos = e + 19;
            },
        }
        i += 1;
    }
    true
}

/// The column names of a RowDescription.
pub fn row_description(payload: &[u8]) -> (r: Result<Vec<String>, CdcError>)
    requires
        row_description_fits_spec(payload@),
    ensures
        match row_description_spec(payload@) {
            Ok(names) => r matches Ok(v) && pgoutput::texts(v@) == names,
            Err(t) => error::decode_err(r, t),
        },
{
    let n: usize = be_i16(payload, 0)? as usize;
    let mut pos: usize = 2;
    let mut names: Vec<String> = Vec::new();
    let mut i: usize = 0;
    assert(pgoutput::texts(names@) =~= Seq::<Seq<char>>::empty());
    while i < n
        invariant
            i <= n,
            names_within(payload@, pos as int, (n - i) as nat),
            row_description_spec(payload@) == names_from(
                payload@,
                pos as int,
                (n - i) as nat,
                pgoutput::texts(names@),
            ),
        decreases n - i,
    {
        let ghost before = pgoutput::texts(names@);
        match find_nul(payload, pos) {
            None => return Err(CdcError::Decode(owned("unterminated field name"))),
            Some(end) => {
                let name = utf8_lossy(&payload[pos..end]);
                names.push(name);
                assert(pgoutput::texts(names@) =~= before.push(name@));
                i += 1;
                if payload.len() - end < 19 {
                    proof {
                        reveal_with_fuel(names_within, 2);
                        reveal_with_fuel(names_from, 2);
                    }
                    assert(i == n);
                    return Ok(names);
                }
                // table oid(4) attnum(2) typoid(4) typlen(2) typmod(4) format(2)
                pos = end + 19;
            },
        }
    }
    Ok(names)
}

/// The cells of a row as mathematical values.
pub open spec fn cells(v: Seq<Option<String>>) -> Seq<Option<Seq<char>>> {
    Seq::new(
        v.len(),
        |i: int|
            match v[i] {
                Some(s) => Some(s@),
                None => None,
            },
    )
}

/// The `n` cells from `pos` on, behind those already in `acc`.
pub open spec fn cells_from(p: Seq<u8>, pos: int, n: nat, acc: Seq<Option<Seq<char>>>) -> Result<
    Seq<Option<Seq<char>>>,
    Seq<char>,
>
    decreases n,
{
    if n == 0 {
        Ok(acc)
    } else if pos + 4 > p.len() {
        Err("short message (i32)"@)
    } else {
        let len = bytes::as_i32(bytes::be_nat(p.subrange(pos, pos + 4)));
        if len < 0 {
            cells_from(p, pos + 4, (n - 1) as nat, acc.push(None))
        } else if pos + 4 + len > p.len() {
            Err("short data row"@)
        } else {
            cells_from(
                p,
                pos + 4 + len,
                (n - 1) as nat,
                acc.push(Some(text::lossy_utf8(p.subrange(pos + 4, pos + 4 + len)))),
            )
        }
    }
}

/// What a DataRow says.
pub open spec fn data_row_spec(p: Seq<u8>) -> Result<Seq<Option<Seq<char>>>, Seq<char>> {
    if p.len() < 2 {
        Err("short message (i16)"@)
    } else {
        cells_from(p, 2, field_count(p) as nat, Seq::empty())
    }
}

/// The cells of a DataRow; a negative length is a NULL.
pub fn data_row(payload: &[u8]) -> (r: Result<Vec<Option<String>>, CdcError>)
    requires
        payload@.len() >= 2 ==> field_count(payload@) >= 0,
    ensures
        match data_row_spec(payload@) {
            Ok(cs) => r matches Ok(v) && cells(v@) == cs,
            Err(t) => error::decode_err(r, t),
        },
{
    let n: usize = be_i16(payload, 0)? as usize;
    let total: usize = payload.len();
    let mut pos: usize = 2;
    let mut row: Vec<Option<String>> = Vec::new();
    let mut i: usize = 0;
    assert(cells(row@) =~= Seq::<Option<Seq<char>>>::empty());
    while i < n
        invariant
            i <= n,
            2 <= pos <= total == payload@.len(),
            data_row_spec(payload@) == cells_from(
                payload@,
                pos as int,
                (n - i) as nat,
                cells(row@),
            ),
        decreases n - i,
    {
        let ghost before = cells(row@);
        let len: i32 = be_i32(payload, pos)?;
        pos = pos + 4;
        if len < 0 {
            row.push(None);
            assert(cells(row@) =~= before.push(None));
        } else {
            if len as usize > total - pos {
                return Err(CdcError::Decode(owned("short data row")));
            }
            let end: usize = pos + len as usize;
            let text = utf8_lossy(&payload[pos..end]);
            row.push(Some(text));
            assert(cells(row@) =~= before.push(Some(text@)));
            pos = end;
        }
        i += 1;
    }
    Ok(row)
}

// -------------------------------------------------------------- decisions

/// The complaint about a message that has no place in an exchange.
pub open spec fn unexpected_text(before: Seq<char>, tag: u8, after: Seq<char>) -> Seq<char> {
    before + text::debug_char(tag as char) + after
}

/// The error for a message that has no place in an exchange.
fn unexpected(before: &str, tag: u8, after: &str) -> (e: CdcError)
    ensures
        e@ == CdcErrorView::Protocol(unexpected_text(before@, tag, after@)),
{
    CdcError::Protocol(join3(before, char_debug(tag as char).as_str(), after))
}

/// What a message of the startup handshake leads to: done, go on, or an
/// error.
pub open spec fn startup_step_spec(m: BackendMsg) -> Result<bool, CdcErrorView> {
    if m.tag == MSG_AUTH {
        if m.payload@.len() < 4 {
            Err(CdcErrorView::Decode("short message (i32)"@))
        } else {
            let code = bytes::as_i32(bytes::be_nat(m.payload@.subrange(0, 4)));
            if code != 0 {
                Err(
                    CdcErrorView::Protocol(
                        "auth method "@ + text::dec_int(code) + " not supported (trust only)"@,
                    ),
                )
            } else {
                Ok(false)
            }
        }
    } else if m.tag == MSG_PARAMETER || m.tag == MSG_KEY_DATA || m.tag == MSG_NOTICE {
        Ok(false)
    } else if m.tag == MSG_READY {
        Ok(true)
    } else if m.tag == MSG_ERROR {
        Err(backend_err_spec(m.payload@))
    } else {
        Err(CdcErrorView::Protocol(unexpected_text("unexpected startup message "@, m.tag, ""@)))
    }
}

/// Decides on one message of the (trust-auth) startup handshake: `true`
/// once the server is ready, `false` to read on.
pub fn on_startup_msg(m: &BackendMsg) -> (r: Result<bool, CdcError>)
    ensures
        match startup_step_spec(*m) {
            Ok(ready) => r matches Ok(b) && b == ready,
            Err(v) => r matches Err(e) && e@ == v,
        },
{
    if m.tag == MSG_AUTH {
        let code: i32 = be_i32(m.payload.as_slice(), 0)?;
        if code != 0 {
            return Err(
                CdcError::Protocol(
                    join3(
                        "auth method ",
                        dec_int_string(code as i64).as_str(),
                        " not supported (trust only)",
                    ),
                ),
            );
        }
        Ok(false)
    } else if m.tag == MSG_PARAMETER || m.tag == MSG_KEY_DATA || m.tag == MSG_NOTICE {
        Ok(false)
    } else if m.tag == MSG_READY {
        Ok(true)
    } else if m.tag == MSG_ERROR {
        Err(backend_err(m.payload.as_slice()))
    } else {
        Err(unexpected("unexpected startup message ", m.tag, ""))
    }
}

/// The rows of a query result as mathematical values.
pub open spec fn rows_view(v: Seq<Vec<Option<String>>>) -> Seq<Seq<Option<Seq<char>>>> {
    Seq::new(v.len(), |i: int| cells(v[i]@))
}

/// What a simple query has brought so far.
pub struct QueryState {
    cols: Vec<String>,
    rows: Vec<Vec<Option<String>>>,
    err: Option<CdcError>,
}

/// What a simple query has brought so far, as a mathematical value.
pub struct QueryView {
    pub cols: Seq<Seq<char>>,
    pub rows: Seq<Seq<Option<Seq<char>>>>,
    pub err: Option<CdcErrorView>,
}

impl View for QueryState {
    type V = QueryView;

    closed spec fn view(&self) -> QueryView {
        QueryView {
            cols: pgoutput::texts(self.cols@),
            rows: rows_view(self.rows@),
            err: match self.err {
                Some(e) => Some(e@),
                None => None,
            },
        }
    }
}

/// A message that the query exchange can read: see
/// [`row_description_fits_spec`] and the column count of a DataRow.
pub open spec fn readable_spec(m: BackendMsg) -> bool {
    &&& m.tag == MSG_ROW_DESCRIPTION ==> row_description_fits_spec(m.payload@)
    &&& m.tag == MSG_DATA_ROW && m.payload@.len() >= 2 ==> field_count(m.payload@) >= 0
}

/// True for a message that [`QueryState::on_msg`] accepts.
pub fn readable(m: &BackendMsg) -> (r: bool)
    ensures
        r == readable_spec(*m),
{
    if m.tag == MSG_ROW_DESCRIPTION {
        row_description_fits(m.payload.as_slice())
    } else if m.tag == MSG_DATA_ROW {
        match be_i16(m.payload.as_slice(), 0) {
            Ok(n) => n >= 0,
            Err(_) => true,
        }
    } else {
        true
    }
}

/// The state after a message of the query exchange.
pub open spec fn query_next(s: QueryView, m: BackendMsg) -> QueryView {
    if m.tag == MSG_ROW_DESCRIPTION {
        match row_description_spec(m.payload@) {
            Ok(names) => QueryView { cols: names, ..s },
            Err(_) => s,
        }
    } else if m.tag == MSG_DATA_ROW {
        match data_row_spec(m.payload@) {
            Ok(row) => QueryView { rows: s.rows.push(row), ..s },
            Err(_) => s,
        }
    } else if m.tag == MSG_ERROR {
        QueryView { err: Some(backend_err_spec(m.payload@)), ..s }
    } else {
        s
    }
}

/// Whether a message ends the query exchange, or fails it.
pub open spec fn query_step_spec(m: BackendMsg) -> Result<bool, CdcErrorView> {
    if m.tag == MSG_ROW_DESCRIPTION {
        match row_description_spec(m.payload@) {
            Ok(_) => Ok(false),
            Err(t) => Err(CdcErrorView::Decode(t)),
        }
    } else if m.tag == MSG_DATA_ROW {
        match data_row_spec(m.payload@) {
            Ok(_) => Ok(false),
            Err(t) => Err(CdcErrorView::Decode(t)),
        }
    } else if m.tag == MSG_COMPLETE || m.tag == MSG_EMPTY_QUERY || m.tag == MSG_NOTICE || m.tag
        == MSG_PARAMETER || m.tag == MSG_ERROR {
        Ok(false)
    } else if m.tag == MSG_READY {
        Ok(true)
    } else {
        Err(
            CdcErrorView::Protocol(
                unexpected_text("unexpected message "@, m.tag, " in simple query"@),
            ),
        )
    }
}

impl QueryState {
    /// Nothing received yet.
    pub fn new() -> (r: Self)
        ensures
            r@ == (QueryView { cols: Seq::empty(), rows: Seq::empty(), err: None }),
    {
        let r = QueryState { cols: Vec::new(), rows: Vec::new(), err: None };
        assert(r@.cols =~= Seq::empty());
        assert(r@.rows =~= Seq::empty());
        r
    }

    /// Takes in one message: `true` once the exchange is over, `false` to
    /// read on.
    pub fn on_msg(&mut self, m: &BackendMsg) -> (r: Result<bool, CdcError>)
        requires
            readable_spec(*m),
        ensures
            final(self)@ == query_next(old(self)@, *m),
            match query_step_spec(*m) {
                Ok(done) => r matches Ok(b) && b == done,
                Err(v) => r matches Err(e) && e@ == v,
            },
    {
        let ghost before = self@;
        if m.tag == MSG_ROW_DESCRIPTION {
            self.cols = row_description(m.payload.as_slice())?;
            Ok(false)
        } else if m.tag == MSG_DATA_ROW {
            let row = data_row(m.payload.as_slice())?;
            self.rows.push(row);
            assert(self@.rows =~= before.rows.push(cells(row@)));
            Ok(false)
        } else if m.tag == MSG_COMPLETE || m.tag == MSG_EMPTY_QUERY || m.tag == MSG_NOTICE || m.tag
            == MSG_PARAMETER {
            Ok(false)
        } else if m.tag == MSG_ERROR {
            self.err = Some(backend_err(m.payload.as_slice()));
            Ok(false)
        } else if m.tag == MSG_READY {
            Ok(true)
        } else {
            Err(unexpected("unexpected message ", m.tag, " in simple query"))
        }
    }

    /// The outcome of the query: the last error the server reported, or
    /// the column names and rows.
    pub fn finish(self) -> (r: Result<TextResult, CdcError>)
        ensures
            match self@.err {
                Some(v) => r matches Err(e) && e@ == v,
                None => r matches Ok(t) && pgoutput::texts(t.0@) == self@.cols && rows_view(t.1@)
                    == self@.rows,
            },
    {
        match self.err {
            Some(e) => Err(e),
            None => Ok((self.cols, self.rows)),
        }
    }
}

/// The command that enters the copy stream of a slot.
pub open spec fn start_replication_text(
    slot: Seq<char>,
    publication: Seq<char>,
    start_lsn: nat,
) -> Seq<char> {
    "START_REPLICATION SLOT "@ + slot + " LOGICAL "@ + lsn_text(start_lsn)
        + " (proto_version '1', publication_names '"@ + publication + "')"@
}

/// The command that enters the copy stream of a slot at `start_lsn`
/// (`0/0` resumes from the slot's confirmed_flush_lsn).
pub fn start_replication_sql(slot: &str, publication: &str, start_lsn: u64) -> (s: String)
    ensures
        s@ == start_replication_text(slot@, publication@, start_lsn as nat),
{
    let mut s = join5(
        "START_REPLICATION SLOT ",
        slot,
        " LOGICAL ",
        fmt_lsn(start_lsn).as_str(),
        " (proto_version '1', publication_names '",
    );
    s.append(publication);
    s.append("')");
    s
}

/// What a message leads to while replication is being started.
#[derive(Debug)]
pub enum ReplicationStart {
    /// The copy stream is open.
    Streaming,
    /// Read on.
    Wait,
    /// The server refused: read up to the next ReadyForQuery, then report
    /// this error.
    Refused(CdcError),
}

/// Decides on one message while replication is being started.
pub fn on_replication_msg(m: &BackendMsg) -> (r: Result<ReplicationStart, CdcError>)
    ensures
        if m.tag == MSG_COPY_BOTH {
            r matches Ok(ReplicationStart::Streaming)
        } else if m.tag == MSG_NOTICE || m.tag == MSG_PARAMETER {
            r matches Ok(ReplicationStart::Wait)
        } else if m.tag == MSG_ERROR {
            r matches Ok(ReplicationStart::Refused(e)) && e@ == backend_err_spec(m.payload@)
        } else {
            error::protocol_err(
                r,
                unexpected_text("unexpected message "@, m.tag, " starting replication"@),
            )
        },
{
    if m.tag == MSG_COPY_BOTH {
        Ok(ReplicationStart::Streaming)
    } else if m.tag == MSG_NOTICE || m.tag == MSG_PARAMETER {
        Ok(ReplicationStart::Wait)
    } else if m.tag == MSG_ERROR {
        Ok(ReplicationStart::Refused(backend_err(m.payload.as_slice())))
    } else {
        Err(unexpected("unexpected message ", m.tag, " starting replication"))
    }
}

/// Decides on one message of the copy stream: a CopyData payload is
/// handed out, `None` means read on.
pub fn on_copy_msg(m: BackendMsg) -> (r: Result<Option<Vec<u8>>, CdcError>)
    ensures
        if m.tag == MSG_COPY_DATA {
            r matches Ok(Some(p)) && p@ == m.payload@
        } else if m.tag == MSG_NOTICE || m.tag == MSG_PARAMETER {
            r matches Ok(None)
        } else if m.tag == MSG_COPY_DONE {
            error::protocol_err(r, "server ended the copy stream"@)
        } else if m.tag == MSG_ERROR {
            r matches Err(e) && e@ == backend_err_spec(m.payload@)
        } else {
            error::protocol_err(r, unexpected_text("unexpected message "@, m.tag, " in copy stream"@))
        },
{
    if m.tag == MSG_COPY_DATA {
        Ok(Some(m.payload))
    } else if m.tag == MSG_COPY_DONE {
        Err(CdcError::Protocol(owned("server ended the copy stream")))
    } else if m.tag == MSG_ERROR {
        Err(backend_err(m.payload.as_slice()))
    } else if m.tag == MSG_NOTICE || m.tag == MSG_PARAMETER {
        Ok(None)
    } else {
        Err(unexpected("unexpected message ", m.tag, " in copy stream"))
    }
}

/// The socket file of a PostgreSQL instance.
pub fn socket_path(dir: &str, port: u16) -> (s: String)
    ensures
        s@ == dir@ + "/.s.PGSQL."@ + text::dec(port as nat),
{
    join3(dir, "/.s.PGSQL.", dec_string(port as u64).as_str())
}

/// A query that the server fails is reported as failed, whatever rows
/// came before: the error outlives every later message but another error.
pub proof fn failed_query_stays_failed(s: QueryView, m: BackendMsg)
    requires
        s.err is Some,
    ensures
        query_next(s, m).err is Some,
        m.tag != MSG_ERROR ==> query_next(s, m).err == s.err,
{
}

} // verus!
