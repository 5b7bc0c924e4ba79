//! The backend protocol written down: what is sent carries what it should,
//! and messages that are received read back what was written.

use vstd::prelude::*;

use crate::bytes;
use crate::bytes::be_bytes;
use crate::error::CdcErrorView;
use crate::pgoutput;
use crate::protocol;
use crate::text;
use crate::wire;

verus! {

/// A framed message starts with its tag, then announces how many bytes
/// follow the tag, and ends with the payload.
pub proof fn frame_announces_its_length(tag: u8, payload: Seq<u8>)
    requires
        payload.len() + 4 <= 0x4000_0000,
    ensures
        ({
            let b = protocol::frame_spec(tag, payload);
            &&& b.len() == payload.len() + 5
            &&& b[0] == tag
            &&& bytes::as_i32(pgoutput::num(b, 1, 4)) == b.len() - 1
            &&& protocol::announced(b.subrange(1, 5)) == Ok::<nat, Seq<char>>(payload.len())
            &&& b.skip(5) == payload
        }),
{
    bytes::lemma_pow256();
    let n = be_bytes(payload.len() + 4, 4);
    bytes::be_round_trip(payload.len() + 4, 4);
    let b = protocol::frame_spec(tag, payload);
    assert(b =~= seq![tag] + (n + payload));
    wire::lemma_holds_parts(b, 0, seq![tag], n + payload);
    wire::lemma_holds_parts(b, 1, n, payload);
    wire::lemma_num(b, 1, payload.len() + 4, 4);
    assert(b.skip(5) =~= payload);
}

/// A status update carries, behind `r`, the received, the flushed and the
/// applied position, the clock, and whether a reply is wanted.
pub proof fn status_carries_its_marks(
    received: nat,
    flushed: nat,
    applied: nat,
    now_us: int,
    reply: bool,
)
    requires
        received < 0x1_0000_0000_0000_0000,
        flushed < 0x1_0000_0000_0000_0000,
        applied < 0x1_0000_0000_0000_0000,
        -0x8000_0000_0000_0000 <= now_us < 0x8000_0000_0000_0000,
    ensures
        ({
            let b = protocol::status_spec(received, flushed, applied, now_us, reply);
            &&& b.len() == 34
            &&& b[0] == 114
            &&& pgoutput::num(b, 1, 8) == received
            &&& pgoutput::num(b, 9, 8) == flushed
            &&& pgoutput::num(b, 17, 8) == applied
            &&& bytes::as_i64(pgoutput::num(b, 25, 8)) == now_us
            &&& b[33] == 1 <==> reply
            &&& b[33] == 0 <==> !reply
        }),
{
    bytes::lemma_pow256();
    wire::signed_numbers_round_trip(now_us);
    let t = bytes::pattern64(now_us);
    let (w, x, y, z) = (
        be_bytes(received, 8),
        be_bytes(flushed, 8),
        be_bytes(applied, 8),
        be_bytes(t, 8),
    );
    bytes::be_round_trip(received, 8);
    bytes::be_round_trip(flushed, 8);
    bytes::be_round_trip(applied, 8);
    bytes::be_round_trip(t, 8);
    let last = seq![
        if reply {
            1u8
        } else {
            0u8
        },
    ];
    let b = protocol::status_spec(received, flushed, applied, now_us, reply);
    assert(b =~= seq![114u8] + (w + (x + (y + (z + last)))));
    wire::lemma_holds_parts(b, 0, seq![114u8], w + (x + (y + (z + last))));
    wire::lemma_holds_parts(b, 1, w, x + (y + (z + last)));
    wire::lemma_holds_parts(b, 9, x, y + (z + last));
    wire::lemma_holds_parts(b, 17, y, z + last);
    wire::lemma_holds_parts(b, 25, z, last);
    wire::lemma_num(b, 1, received, 8);
    wire::lemma_num(b, 9, flushed, 8);
    wire::lemma_num(b, 17, applied, 8);
    wire::lemma_num(b, 25, t, 8);
    assert(b[33] == last[0]);
}

/// The startup packet asks for protocol 3.0 and names the user and the
/// database, each behind its key; for replication it says so behind all
/// else; and it ends with a zero byte.
pub proof fn startup_names_user_and_database(db: &str, user: &str, replication: bool)
    ensures
        ({
            let b = protocol::startup_body(db, user, replication);
            let fixed = protocol::cstring("application_name") + protocol::cstring("bruce-cdc");
            let pairs = (protocol::cstring("user") + protocol::cstring(user)) + (protocol::cstring(
                "database",
            ) + protocol::cstring(db)) + fixed;
            let extra = protocol::cstring("replication") + protocol::cstring("database");
            &&& b.len() >= 5
            &&& pgoutput::num(b, 0, 4) == 3 * 0x1_0000
            &&& b.last() == 0
            &&& b.subrange(4, b.len() - 1) == if replication {
                pairs + extra
            } else {
                pairs
            }
        }),
{
    bytes::lemma_pow256();
    bytes::be_round_trip(196608, 4);
    let b = protocol::startup_body(db, user, replication);
    let p = protocol::startup_pairs(db, user, replication);
    assert(b =~= be_bytes(196608, 4) + p.push(0));
    wire::lemma_holds_parts(b, 0, be_bytes(196608, 4), p.push(0));
    wire::lemma_num(b, 0, 196608, 4);
    assert(b.subrange(4, b.len() - 1) =~= p);
    let fixed = protocol::cstring("application_name") + protocol::cstring("bruce-cdc");
    let pairs = (protocol::cstring("user") + protocol::cstring(user)) + (protocol::cstring(
        "database",
    ) + protocol::cstring(db)) + fixed;
    let extra = protocol::cstring("replication") + protocol::cstring("database");
    if replication {
        assert(p =~= pairs + extra);
    } else {
        assert(p =~= pairs);
    }
}

/// The two clocks differ by the time from 1970 to 2000: 10957 days.
pub proof fn clocks_differ_by_thirty_years(unix: i64)
    requires
        unix - 10957 * 86_400_000_000 >= i64::MIN,
    ensures
        protocol::pg_us_spec(Some(unix)) == unix - 10957 * 86_400_000_000,
        protocol::pg_us_spec(None) == protocol::pg_us_spec(Some(0)),
{
}

// ------------------------------------------------------------- row messages

/// A field of a row description: its name and 18 bytes on its type.
pub struct Field {
    pub name: Seq<u8>,
    pub kind: Seq<u8>,
}

/// Fields that can be sent.
pub open spec fn sendable_fields(fs: Seq<Field>) -> bool {
    forall|i: int|
        0 <= i < fs.len() ==> wire::no_nul((#[trigger] fs[i]).name) && fs[i].kind.len() == 18
}

/// The bytes of fields.
pub open spec fn fields_bytes(fs: Seq<Field>) -> Seq<u8>
    decreases fs.len(),
{
    if fs.len() == 0 {
        Seq::empty()
    } else {
        (wire::cstr_bytes(fs[0].name) + fs[0].kind) + fields_bytes(fs.drop_first())
    }
}

/// The names of fields.
pub open spec fn field_names(fs: Seq<Field>) -> Seq<Seq<char>> {
    Seq::new(fs.len(), |i: int| text::lossy_utf8(fs[i].name))
}

proof fn lemma_fields(p: Seq<u8>, at: int, fs: Seq<Field>, acc: Seq<Seq<char>>)
    requires
        wire::holds(p, at, fields_bytes(fs)),
        sendable_fields(fs),
    ensures
        protocol::names_from(p, at, fs.len(), acc) == Ok::<Seq<Seq<char>>, Seq<char>>(
            acc + field_names(fs),
        ),
        protocol::names_within(p, at, fs.len()),
    decreases fs.len(),
{
    if fs.len() == 0 {
        assert(acc + field_names(fs) =~= acc);
    } else {
        let f = fs[0];
        let rest = fs.drop_first();
        assert forall|i: int| 0 <= i < rest.len() implies wire::no_nul((#[trigger] rest[i]).name)
            && rest[i].kind.len() == 18 by {
            assert(rest[i] == fs[i + 1]);
        }
        let x = wire::cstr_bytes(f.name);
        wire::lemma_holds_parts(p, at, x + f.kind, fields_bytes(rest));
        wire::lemma_holds_parts(p, at, x, f.kind);
        wire::lemma_nul(p, at, f.name, 0);
        assert(p.subrange(at, at + f.name.len()) =~= f.name) by {
            assert forall|i: int| 0 <= i < f.name.len() implies p[at + i] == #[trigger] f.name[i] by {
                assert(p[at + i] == x[i]);
            }
        }
        lemma_fields(p, at + f.name.len() + 19, rest, acc.push(text::lossy_utf8(f.name)));
        assert(acc.push(text::lossy_utf8(f.name)) + field_names(rest) =~= acc + field_names(fs));
    }
}

/// A row description is read back: how many fields, then for each its name
/// and 18 bytes that are passed over.
pub proof fn row_description_is_read_back(fs: Seq<Field>)
    requires
        fs.len() < 0x8000,
        sendable_fields(fs),
    ensures
        protocol::row_description_spec(be_bytes(fs.len(), 2) + fields_bytes(fs)) == Ok::<
            Seq<Seq<char>>,
            Seq<char>,
        >(field_names(fs)),
        protocol::row_description_fits_spec(be_bytes(fs.len(), 2) + fields_bytes(fs)),
{
    bytes::lemma_pow256();
    bytes::be_round_trip(fs.len(), 2);
    let p = be_bytes(fs.len(), 2) + fields_bytes(fs);
    wire::lemma_holds_parts(p, 0, be_bytes(fs.len(), 2), fields_bytes(fs));
    wire::lemma_num(p, 0, fs.len(), 2);
    lemma_fields(p, 2, fs, Seq::empty());
    assert(Seq::<Seq<char>>::empty() + field_names(fs) =~= field_names(fs));
}

/// The bytes of the cells of a row: a length and the text, or the length -1.
pub open spec fn cells_bytes(cs: Seq<Option<Seq<u8>>>) -> Seq<u8>
    decreases cs.len(),
{
    if cs.len() == 0 {
        Seq::empty()
    } else {
        (match cs[0] {
            None => be_bytes(0xFFFF_FFFF, 4),
            Some(t) => be_bytes(t.len(), 4) + t,
        }) + cells_bytes(cs.drop_first())
    }
}

/// What the cells say.
pub open spec fn cell_texts(cs: Seq<Option<Seq<u8>>>) -> Seq<Option<Seq<char>>> {
    Seq::new(
        cs.len(),
        |i: int|
            match cs[i] {
                None => None,
                Some(t) => Some(text::lossy_utf8(t)),
            },
    )
}

/// Cells that can be sent.
pub open spec fn sendable_cells(cs: Seq<Option<Seq<u8>>>) -> bool {
    forall|i: int|
        0 <= i < cs.len() ==> (#[trigger] cs[i] matches Some(t) ==> t.len() < 0x8000_0000)
}

proof fn lemma_cells(p: Seq<u8>, at: int, cs: Seq<Option<Seq<u8>>>, acc: Seq<Option<Seq<char>>>)
    requires
        wire::holds(p, at, cells_bytes(cs)),
        sendable_cells(cs),
    ensures
        protocol::cells_from(p, at, cs.len(), acc) == Ok::<Seq<Option<Seq<char>>>, Seq<char>>(
            acc + cell_texts(cs),
        ),
    decreases cs.len(),
{
    if cs.len() == 0 {
        assert(acc + cell_texts(cs) =~= acc);
    } else {
        bytes::lemma_pow256();
        let rest = cs.drop_first();
        assert forall|i: int| 0 <= i < rest.len() implies (#[trigger] rest[i] matches Some(t)
            ==> t.len() < 0x8000_0000) by {
            assert(rest[i] == cs[i + 1]);
        }
        let now = cell_texts(cs)[0];
        match cs[0] {
            None => {
                wire::lemma_holds_parts(p, at, be_bytes(0xFFFF_FFFF, 4), cells_bytes(rest));
                wire::lemma_num(p, at, 0xFFFF_FFFF, 4);
                lemma_cells(p, at + 4, rest, acc.push(now));
            },
            Some(t) => {
                let x = be_bytes(t.len(), 4);
                wire::lemma_holds_parts(p, at, x + t, cells_bytes(rest));
                wire::lemma_holds_parts(p, at, x, t);
                wire::lemma_num(p, at, t.len(), 4);
                assert(p.subrange(at + 4, at + 4 + t.len()) =~= t) by {
                    assert forall|i: int| 0 <= i < t.len() implies p[at + 4 + i] == #[trigger] t[i] by {}
                }
                lemma_cells(p, at + 4 + t.len(), rest, acc.push(now));
            },
        }
        assert(acc.push(now) + cell_texts(rest) =~= acc + cell_texts(cs));
    }
}

/// A data row is read back: how many cells, then each with its length; the
/// length -1 is a NULL.
pub proof fn data_row_is_read_back(cs: Seq<Option<Seq<u8>>>)
    requires
        cs.len() < 0x8000,
        sendable_cells(cs),
    ensures
        protocol::data_row_spec(be_bytes(cs.len(), 2) + cells_bytes(cs)) == Ok::<
            Seq<Option<Seq<char>>>,
            Seq<char>,
        >(cell_texts(cs)),
{
    bytes::lemma_pow256();
    bytes::be_round_trip(cs.len(), 2);
    let p = be_bytes(cs.len(), 2) + cells_bytes(cs);
    wire::lemma_holds_parts(p, 0, be_bytes(cs.len(), 2), cells_bytes(cs));
    wire::lemma_num(p, 0, cs.len(), 2);
    lemma_cells(p, 2, cs, Seq::empty());
    assert(Seq::<Option<Seq<char>>>::empty() + cell_texts(cs) =~= cell_texts(cs));
}

// -------------------------------------------------------------------- errors

/// The bytes of the fields of an error: a kind and a text each.
pub open spec fn report_bytes(fs: Seq<(u8, Seq<u8>)>) -> Seq<u8>
    decreases fs.len(),
{
    if fs.len() == 0 {
        seq![0u8]
    } else {
        (seq![fs[0].0] + wire::cstr_bytes(fs[0].1)) + report_bytes(fs.drop_first())
    }
}

/// The text of the last field of a kind, or `none`.
pub open spec fn last_of(fs: Seq<(u8, Seq<u8>)>, kind: u8, none: Seq<char>) -> Seq<char>
    decreases fs.len(),
{
    if fs.len() == 0 {
        none
    } else if fs.last().0 == kind {
        text::lossy_utf8(fs.last().1)
    } else {
        last_of(fs.drop_last(), kind, none)
    }
}

proof fn lemma_last_of(fs: Seq<(u8, Seq<u8>)>, kind: u8, none: Seq<char>)
    requires
        fs.len() > 0,
    ensures
        last_of(fs, kind, none) == last_of(
            fs.drop_first(),
            kind,
            if fs[0].0 == kind {
                text::lossy_utf8(fs[0].1)
            } else {
                none
            },
        ),
    decreases fs.len(),
{
    let g = fs.drop_first();
    if g.len() > 0 {
        assert(g.last() == fs.last());
        if fs.last().0 != kind {
            let h = fs.drop_last();
            lemma_last_of(h, kind, none);
            assert(h.drop_first() =~= g.drop_last());
            assert(h[0] == fs[0]);
        }
    } else {
        assert(fs.last() == fs[0]);
        assert(last_of(fs.drop_last(), kind, none) == none);
    }
}

proof fn lemma_report(
    p: Seq<u8>,
    at: int,
    fs: Seq<(u8, Seq<u8>)>,
    code: Seq<char>,
    message: Seq<char>,
)
    requires
        wire::holds(p, at, report_bytes(fs)),
        forall|i: int| 0 <= i < fs.len() ==> (#[trigger] fs[i]).0 != 0 && wire::no_nul(fs[i].1),
    ensures
        protocol::error_fields(p, at, code, message) == (
            last_of(fs, 67, code),
            last_of(fs, 77, message),
        ),
    decreases fs.len(),
{
    assert(p[at + 0] == report_bytes(fs)[0]);
    if fs.len() > 0 {
        let (kind, t) = fs[0];
        let rest = fs.drop_first();
        assert forall|i: int| 0 <= i < rest.len() implies (#[trigger] rest[i]).0 != 0 && wire::no_nul(
            rest[i].1,
        ) by {
            assert(rest[i] == fs[i + 1]);
        }
        let x = wire::cstr_bytes(t);
        wire::lemma_holds_parts(p, at, seq![kind] + x, report_bytes(rest));
        wire::lemma_holds_parts(p, at, seq![kind], x);
        wire::lemma_nul(p, at + 1, t, 0);
        assert(p.subrange(at + 1, at + 1 + t.len()) =~= t) by {
            assert forall|i: int| 0 <= i < t.len() implies p[at + 1 + i] == #[trigger] t[i] by {
                assert(p[at + 1 + i] == x[i]);
            }
        }
        let said = text::lossy_utf8(t);
        let code2 = if kind == 67 {
            said
        } else {
            code
        };
        let message2 = if kind == 77 {
            said
        } else {
            message
        };
        lemma_report(p, at + t.len() + 2, rest, code2, message2);
        lemma_last_of(fs, 67, code);
        lemma_last_of(fs, 77, message);
    }
}

/// An error is read back: the text behind `C` is its code, the one behind
/// `M` its message; all other fields are passed over.
pub proof fn error_is_read_back(fs: Seq<(u8, Seq<u8>)>)
    requires
        forall|i: int| 0 <= i < fs.len() ==> (#[trigger] fs[i]).0 != 0 && wire::no_nul(fs[i].1),
    ensures
        protocol::backend_err_spec(report_bytes(fs)) == CdcErrorView::Backend(
            last_of(fs, 67, Seq::empty()),
            last_of(fs, 77, Seq::empty()),
        ),
{
    let p = report_bytes(fs);
    assert(wire::holds(p, 0, p));
    lemma_report(p, 0, fs, Seq::empty(), Seq::empty());
}

proof fn lemma_all_zero(b: Seq<u8>)
    requires
        b.len() == 4,
    ensures
        bytes::as_i32(bytes::be_nat(b)) == 0 <==> b == seq![0u8, 0, 0, 0],
{
    let b3 = b.drop_last();
    let b2 = b3.drop_last();
    let b1 = b2.drop_last();
    assert(bytes::be_nat(b1.drop_last()) == 0);
    assert(bytes::be_nat(b1) == b[0]);
    assert(bytes::be_nat(b2) == bytes::be_nat(b1) * 256 + b[1]);
    assert(bytes::be_nat(b3) == bytes::be_nat(b2) * 256 + b[2]);
    assert(bytes::be_nat(b) == bytes::be_nat(b3) * 256 + b[3]);
    if bytes::be_nat(b) == 0 {
        assert(b =~= seq![0u8, 0, 0, 0]);
    }
}

/// The handshake is over when the server is ready and not before; a trusted
/// login, settings, keys and notices are read on from. A demand for any
/// other login is refused, and an error is the server's own.
pub proof fn handshake_waits_for_the_server(m: protocol::BackendMsg)
    ensures
        protocol::startup_step_spec(m) == Ok::<bool, CdcErrorView>(true) <==> m.tag == 'Z' as u8,
        protocol::startup_step_spec(m) == Ok::<bool, CdcErrorView>(false) <==> (m.tag == 'R' as u8
            && m.payload@.len() >= 4 && m.payload@.take(4) == seq![0u8, 0, 0, 0]) || m.tag
            == 'S' as u8 || m.tag == 'K' as u8 || m.tag == 'N' as u8,
        m.tag == 'E' as u8 ==> protocol::startup_step_spec(m) == Err::<bool, CdcErrorView>(
            protocol::backend_err_spec(m.payload@),
        ),
{
    if m.payload@.len() >= 4 {
        let b = m.payload@.subrange(0, 4);
        assert(b =~= m.payload@.take(4));
        lemma_all_zero(b);
    }
}

} // verus!
