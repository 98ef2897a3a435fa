//! The library's laws: round-trip of the codec, exact command behaviour for
//! every store and instant, and the sweep's algebra. Each is proved from the
//! specifications that the executable functions carry.
use vstd::prelude::*;

use crate::command::spec_conv;
use crate::command::spec_render;
use crate::command::spec_step;
use crate::command::cmd_eq;
use crate::command::lower_code;
use crate::db::DBDataView;
use crate::db::spec_expired;
use crate::db::spec_sweep;
use crate::num::spec_parse_u64;
use crate::num::lemma_dec_digits_props;
use crate::num::lemma_dec_val_nonneg;
use crate::num::is_digit;
use crate::num::digits_part;
use crate::num::spec_dec_digits;
use crate::resp::ValueView;
use crate::resp::crlf_at;
use crate::resp::lemma_find_crlf_unique;
use crate::resp::spec_crlf;
use crate::resp::spec_parse_message;
use crate::resp::spec_serialise;

verus! {

pub open spec fn contains_crlf(s: Seq<char>) -> bool {
    exists|i: int| crlf_at(s, i)
}

/// Law: encoding a simple string that holds no line-break pair and decoding
/// the result yields the original value, consuming the whole encoding.
/// (A simple string that itself contains the pair cannot round-trip: the
/// decoder stops at the first pair.)
pub proof fn lemma_round_trip_simple(s: Seq<char>)
    requires
        !contains_crlf(s),
    ensures
        spec_parse_message(spec_serialise(ValueView::SimpleString(s))) == Some(
            (ValueView::SimpleString(s), spec_serialise(ValueView::SimpleString(s)).len() as int),
        ),
{
    let w = spec_serialise(ValueView::SimpleString(s));
    let n = s.len() as int;
    assert(w == seq!['+'] + s + spec_crlf());
    assert(w.len() == n + 3);
    assert(w[0] == '+');
    assert(crlf_at(w, n + 1)) by {
        assert(w[n + 1] == '\r');
        assert(w[n + 2] == '\n');
    }
    assert forall|j: int| 0 <= j < n + 1 implies !crlf_at(w, j) by {
        if j == 0 {
            assert(w[0] == '+');
        } else if j < n {
            assert(w[j] == s[j - 1]);
            assert(w[j + 1] == s[j]);
            if crlf_at(w, j) {
                assert(crlf_at(s, j - 1));
            }
        } else {
            assert(w[j + 1] == '\r');
        }
    }
    lemma_find_crlf_unique(w, n + 1);
    assert(w.subrange(1, n + 1) =~= s);
}

/// Law: encoding a bulk string and decoding the result yields the original
/// value, for every text, line-break pairs in the payload included; the whole
/// encoding is consumed. The one bound is that the declared length must be
/// readable as a signed 64-bit count.
pub proof fn lemma_round_trip_bulk(s: Seq<char>)
    requires
        s.len() <= i64::MAX,
    ensures
        spec_parse_message(spec_serialise(ValueView::BulkString(s))) == Some(
            (ValueView::BulkString(s), spec_serialise(ValueView::BulkString(s)).len() as int),
        ),
{
    let ds = spec_dec_digits(s.len());
    lemma_dec_digits_props(s.len());
    let dl = ds.len() as int;
    let w = spec_serialise(ValueView::BulkString(s));
    assert(w == seq!['$'] + ds + spec_crlf() + s + spec_crlf());
    let n = s.len() as int;
    assert(w.len() == 1 + dl + 2 + n + 2);
    assert(w[0] == '$');
    let t = w.skip(1);
    assert(t =~= ds + spec_crlf() + s + spec_crlf());
    assert(crlf_at(t, dl)) by {
        assert(t[dl] == '\r');
        assert(t[dl + 1] == '\n');
    }
    assert forall|j: int| 0 <= j < dl implies !crlf_at(t, j) by {
        assert(t[j] == ds[j]);
        assert(is_digit(ds[j]));
        if t[j] == '\r' {
            assert(ds[j] as u32 == 13);
        }
    }
    lemma_find_crlf_unique(t, dl);
    assert(t.subrange(0, dl) =~= ds);
    assert(ds[0] != '-' && ds[0] != '+') by {
        assert(is_digit(ds[0]));
    }
    assert(digits_part(ds) == ds);
    lemma_dec_val_nonneg(ds);
    let start = 1 + dl + 2;
    assert(start + n + 2 == w.len());
    assert(w.subrange(start, start + n) =~= s);
}

/// Law: a sweep removes nothing when no entry's deadline has passed.
pub proof fn lemma_sweep_no_expired(m: Map<Seq<char>, DBDataView>, now: u64)
    requires
        forall|k: Seq<char>| #[trigger] m.contains_key(k) ==> !spec_expired(m[k], now),
    ensures
        spec_sweep(m, now) == m,
{
    assert(spec_sweep(m, now) =~= m);
}

/// Law: sweeping twice at one instant is the same as sweeping once; whatever
/// a first sweep removed stays removed and nothing more goes.
pub proof fn lemma_sweep_idempotent(m: Map<Seq<char>, DBDataView>, now: u64)
    ensures
        spec_sweep(spec_sweep(m, now), now) == spec_sweep(m, now),
{
    assert(spec_sweep(spec_sweep(m, now), now) =~= spec_sweep(m, now));
}

proof fn cmd_lit_facts()
    ensures
        cmd_eq("PING"@, "ping"@),
        cmd_eq("ECHO"@, "echo"@),
        !cmd_eq("ECHO"@, "ping"@),
        cmd_eq("SET"@, "set"@),
        !cmd_eq("SET"@, "ping"@),
        !cmd_eq("SET"@, "echo"@),
        cmd_eq("GET"@, "get"@),
        !cmd_eq("GET"@, "ping"@),
        !cmd_eq("GET"@, "echo"@),
        !cmd_eq("GET"@, "set"@),
        cmd_eq("EX"@, "ex"@),
{
    reveal_strlit("PING");
    reveal_strlit("ping");
    reveal_strlit("ECHO");
    reveal_strlit("echo");
    reveal_strlit("SET");
    reveal_strlit("set");
    reveal_strlit("GET");
    reveal_strlit("get");
    reveal_strlit("EX");
    reveal_strlit("ex");
    assert(lower_code("ECHO"@[0]) != lower_code("ping"@[0]));
    assert(lower_code("GET"@[0]) != lower_code("set"@[0]));
}

/// Law: a PING command, with any arguments and over any store, replies with
/// the simple string "PONG" and changes nothing.
pub proof fn lemma_ping(args: Seq<ValueView>, m: Map<Seq<char>, DBDataView>, now: u64)
    ensures
        spec_step(ValueView::Array(seq![ValueView::BulkString("PING"@)] + args), m, now) == (
            ValueView::SimpleString("PONG"@),
            m,
        ),
{
    cmd_lit_facts();
    let elems = seq![ValueView::BulkString("PING"@)] + args;
    assert(elems[0] == ValueView::BulkString("PING"@));
    assert(elems.skip(1) =~= args);
}

/// Law: ECHO with an argument replies with that argument unchanged; without
/// one it replies with the fixed placeholder text. The store is untouched.
pub proof fn lemma_echo(arg: ValueView, m: Map<Seq<char>, DBDataView>, now: u64)
    ensures
        spec_step(
            ValueView::Array(seq![ValueView::BulkString("ECHO"@), arg]),
            m,
            now,
        ) == (arg, m),
        spec_step(ValueView::Array(seq![ValueView::BulkString("ECHO"@)]), m, now) == (
            ValueView::BulkString("You did not provide an argument to ECHO back"@),
            m,
        ),
{
    cmd_lit_facts();
    let elems = seq![ValueView::BulkString("ECHO"@), arg];
    assert(elems[0] == ValueView::BulkString("ECHO"@));
    assert(elems.skip(1) =~= seq![arg]);
    let elems0 = seq![ValueView::BulkString("ECHO"@)];
    assert(elems0[0] == ValueView::BulkString("ECHO"@));
    assert(elems0.skip(1) =~= Seq::<ValueView>::empty());
}

/// Law: GET with an argument count other than one replies with the documented
/// error text and does not touch the store.
pub proof fn lemma_get_arity(args: Seq<ValueView>, m: Map<Seq<char>, DBDataView>, now: u64)
    requires
        args.len() != 1,
    ensures
        spec_step(ValueView::Array(seq![ValueView::BulkString("GET"@)] + args), m, now) == (
            ValueView::BulkString("(error) Invalid arguments for GET"@),
            m,
        ),
{
    cmd_lit_facts();
    let elems = seq![ValueView::BulkString("GET"@)] + args;
    assert(elems[0] == ValueView::BulkString("GET"@));
    assert(elems.skip(1) =~= args);
}

/// Law: SET with an argument count other than two or four replies with the
/// documented error text and does not touch the store.
pub proof fn lemma_set_arity(args: Seq<ValueView>, m: Map<Seq<char>, DBDataView>, now: u64)
    requires
        args.len() != 2,
        args.len() != 4,
    ensures
        spec_step(ValueView::Array(seq![ValueView::BulkString("SET"@)] + args), m, now) == (
            ValueView::BulkString("(error) Invalid arguments for: SET"@),
            m,
        ),
{
    cmd_lit_facts();
    let elems = seq![ValueView::BulkString("SET"@)] + args;
    assert(elems[0] == ValueView::BulkString("SET"@));
    assert(elems.skip(1) =~= args);
}

/// Law: a two-argument SET stores the value under the key with no expiry,
/// stamped with the given instant, and replies "OK".
pub proof fn lemma_set_stores(
    k: Seq<char>,
    v: Seq<char>,
    m: Map<Seq<char>, DBDataView>,
    now: u64,
)
    ensures
        spec_step(
            ValueView::Array(
                seq![
                    ValueView::BulkString("SET"@),
                    ValueView::BulkString(k),
                    ValueView::BulkString(v),
                ],
            ),
            m,
            now,
        ) == (
            ValueView::SimpleString("OK"@),
            m.insert(k, DBDataView { data: spec_conv(v), created_at: now, exp: None }),
        ),
{
    cmd_lit_facts();
    let elems = seq![
        ValueView::BulkString("SET"@),
        ValueView::BulkString(k),
        ValueView::BulkString(v),
    ];
    assert(elems[0] == ValueView::BulkString("SET"@));
    let args = elems.skip(1);
    assert(args =~= seq![ValueView::BulkString(k), ValueView::BulkString(v)]);
    assert(args[0] == ValueView::BulkString(k));
    assert(args[1] == ValueView::BulkString(v));
}

/// Law: an expiry given as `EX` seconds is stored as exactly a thousand times
/// as many milliseconds, whenever the product fits the 64-bit range.
pub proof fn lemma_set_ex_seconds_to_millis(
    k: Seq<char>,
    v: Seq<char>,
    t: Seq<char>,
    m: Map<Seq<char>, DBDataView>,
    now: u64,
)
    requires
        spec_parse_u64(t) is Some,
        spec_parse_u64(t).unwrap() <= u64::MAX / 1000,
    ensures
        spec_step(
            ValueView::Array(
                seq![
                    ValueView::BulkString("SET"@),
                    ValueView::BulkString(k),
                    ValueView::BulkString(v),
                    ValueView::BulkString("EX"@),
                    ValueView::BulkString(t),
                ],
            ),
            m,
            now,
        ) == (
            ValueView::SimpleString("OK"@),
            m.insert(
                k,
                DBDataView {
                    data: spec_conv(v),
                    created_at: now,
                    exp: Some((spec_parse_u64(t).unwrap() * 1000) as u64),
                },
            ),
        ),
{
    cmd_lit_facts();
    let elems = seq![
        ValueView::BulkString("SET"@),
        ValueView::BulkString(k),
        ValueView::BulkString(v),
        ValueView::BulkString("EX"@),
        ValueView::BulkString(t),
    ];
    assert(elems[0] == ValueView::BulkString("SET"@));
    let args = elems.skip(1);
    assert(args =~= seq![
        ValueView::BulkString(k),
        ValueView::BulkString(v),
        ValueView::BulkString("EX"@),
        ValueView::BulkString(t),
    ]);
    assert(args[0] == ValueView::BulkString(k));
    assert(args[1] == ValueView::BulkString(v));
    assert(args[2] == ValueView::BulkString("EX"@));
    assert(args[3] == ValueView::BulkString(t));
}

/// Law: a GET of a key whose deadline has passed replies with the sentinel
/// text and deletes exactly that key — lazy deletion on an expired read.
pub proof fn lemma_get_expired_removes(k: Seq<char>, m: Map<Seq<char>, DBDataView>, now: u64)
    requires
        m.contains_key(k),
        spec_expired(m[k], now),
    ensures
        spec_step(
            ValueView::Array(seq![ValueView::BulkString("GET"@), ValueView::BulkString(k)]),
            m,
            now,
        ) == (ValueView::BulkString("-1"@), m.remove(k)),
{
    cmd_lit_facts();
    let elems = seq![ValueView::BulkString("GET"@), ValueView::BulkString(k)];
    assert(elems[0] == ValueView::BulkString("GET"@));
    assert(elems.skip(1) =~= seq![ValueView::BulkString(k)]);
}

/// Law: after SET, a GET of the same key at any later instant (no expiry was
/// given, so the entry never dies) replies with the stored value rendered as
/// text.
pub proof fn lemma_set_then_get(
    k: Seq<char>,
    v: Seq<char>,
    m: Map<Seq<char>, DBDataView>,
    now: u64,
    now2: u64,
)
    ensures
        ({
            let m1 = spec_step(
                ValueView::Array(
                    seq![
                        ValueView::BulkString("SET"@),
                        ValueView::BulkString(k),
                        ValueView::BulkString(v),
                    ],
                ),
                m,
                now,
            ).1;
            spec_step(
                ValueView::Array(seq![ValueView::BulkString("GET"@), ValueView::BulkString(k)]),
                m1,
                now2,
            ) == (ValueView::BulkString(spec_render(spec_conv(v))), m1)
        }),
{
    cmd_lit_facts();
    lemma_set_stores(k, v, m, now);
    let m1 = m.insert(k, DBDataView { data: spec_conv(v), created_at: now, exp: None });
    let elems = seq![ValueView::BulkString("GET"@), ValueView::BulkString(k)];
    assert(elems[0] == ValueView::BulkString("GET"@));
    assert(elems.skip(1) =~= seq![ValueView::BulkString(k)]);
    assert(m1.contains_key(k));
    assert(!spec_expired(m1[k], now2));
}

/// Law: two SETs on distinct keys, run one after the other in either
/// interleaving order the scheduler may pick, lose neither write: both keys
/// end up present with their own values.
pub proof fn lemma_two_sets_keep_both(
    k1: Seq<char>,
    v1: Seq<char>,
    k2: Seq<char>,
    v2: Seq<char>,
    m: Map<Seq<char>, DBDataView>,
    now1: u64,
    now2: u64,
)
    requires
        k1 != k2,
    ensures
        ({
            let m1 = spec_step(
                ValueView::Array(
                    seq![
                        ValueView::BulkString("SET"@),
                        ValueView::BulkString(k1),
                        ValueView::BulkString(v1),
                    ],
                ),
                m,
                now1,
            ).1;
            let m2 = spec_step(
                ValueView::Array(
                    seq![
                        ValueView::BulkString("SET"@),
                        ValueView::BulkString(k2),
                        ValueView::BulkString(v2),
                    ],
                ),
                m1,
                now2,
            ).1;
            &&& m2.contains_key(k1)
            &&& m2.contains_key(k2)
            &&& m2[k1].data == spec_conv(v1)
            &&& m2[k2].data == spec_conv(v2)
        }),
{
    lemma_set_stores(k1, v1, m, now1);
    let m1 = m.insert(k1, DBDataView { data: spec_conv(v1), created_at: now1, exp: None });
    lemma_set_stores(k2, v2, m1, now2);
}

} // verus!
