//! The command interpreter: a decoded protocol value is read as a command
//! name with arguments and dispatched against the store. `spec_step` is the
//! mathematical model of one command cycle: it fixes both the reply and the
//! store that results.
use vstd::prelude::*;
use vstd::string::StrSliceExecFns;
use vstd::string::StringExecFns;

use crate::db::DBData;
use crate::db::DBDataView;
use crate::db::DBVal;
use crate::db::DBValView;
use crate::db::Store;
use crate::db::spec_expired;
use crate::num::RespError;
use crate::num::i64_to_string;
use crate::num::parse_int;
use crate::num::parse_u64;
use crate::num::spec_i64_string;
use crate::num::spec_parse_i64;
use crate::num::spec_parse_u64;
use crate::resp::Value;
use crate::resp::ValueView;
use crate::resp::parse_message;
use crate::resp::spec_parse_message;
use crate::resp::vec_views;
use crate::resp::views_of;

verus! {

/// How many command cycles a session runs between two expiration sweeps.
pub const CLEAR_TOKEN_ITERATIONS: usize = 1000;

/// The code point of a character with ASCII capitals folded to lower case.
pub open spec fn lower_code(c: char) -> int {
    if 65 <= c as u32 && c as u32 <= 90 {
        c as u32 + 32
    } else {
        c as u32 as int
    }
}

/// Case-insensitive equality of command tokens.
pub open spec fn cmd_eq(a: Seq<char>, b: Seq<char>) -> bool {
    a.len() == b.len() && forall|i: int|
        0 <= i < a.len() ==> lower_code(#[trigger] a[i]) == lower_code(b[i])
}

pub fn cmd_matches(a: &str, b: &str) -> (r: bool)
    ensures
        r == cmd_eq(a@, b@),
{
    let n = a.unicode_len();
    let m = b.unicode_len();
    if n != m {
        return false;
    }
    let mut i: usize = 0;
    while i < n
        invariant
            i <= n,
            n == a@.len(),
            n == b@.len(),
            forall|j: int| 0 <= j < i ==> lower_code(#[trigger] a@[j]) == lower_code(b@[j]),
        decreases n - i,
    {
        let ca = a.get_char(i) as u32;
        let cb = b.get_char(i) as u32;
        let la = if 65 <= ca && ca <= 90 {
            ca + 32
        } else {
            ca
        };
        let lb = if 65 <= cb && cb <= 90 {
            cb + 32
        } else {
            cb
        };
        if la != lb {
            return false;
        }
        i += 1;
    }
    true
}

/// How a bulk-string value is stored: text that parses as a signed 64-bit
/// integer is stored as the integer, anything else as the text itself.
pub open spec fn spec_conv(s: Seq<char>) -> DBValView {
    match spec_parse_i64(s) {
        Some(n) => DBValView::Int(n),
        None => DBValView::Str(s),
    }
}

/// How a stored value is rendered in a reply: integers in decimal, text
/// verbatim.
pub open spec fn spec_render(d: DBValView) -> Seq<char> {
    match d {
        DBValView::Str(s) => s,
        DBValView::Int(n) => spec_i64_string(n as int),
    }
}

/// The time-to-live in milliseconds: `EX` counts seconds (saturating at the
/// 64-bit limit), `PX` counts milliseconds, anything else means zero.
pub open spec fn spec_ttl(ty: Seq<char>, n: u64) -> u64 {
    if cmd_eq(ty, "ex"@) {
        if n <= u64::MAX / 1000 {
            (n * 1000) as u64
        } else {
            u64::MAX
        }
    } else if cmd_eq(ty, "px"@) {
        n
    } else {
        0
    }
}

/// A non-numeric expiry value defaults to zero milliseconds.
pub open spec fn spec_exp_millis(t: Seq<char>, ty: Seq<char>) -> u64 {
    spec_ttl(
        ty,
        match spec_parse_u64(t) {
            Some(x) => x,
            None => 0,
        },
    )
}

pub open spec fn spec_set(args: Seq<ValueView>, m: Map<Seq<char>, DBDataView>, now: u64) -> (
    ValueView,
    Map<Seq<char>, DBDataView>,
) {
    if args.len() == 2 {
        match args[0] {
            ValueView::BulkString(k) => match args[1] {
                ValueView::BulkString(val) => (
                    ValueView::SimpleString("OK"@),
                    m.insert(k, DBDataView { data: spec_conv(val), created_at: now, exp: None }),
                ),
                _ => (ValueView::BulkString("(error) Expected input to be a bulk string"@), m),
            },
            _ => (ValueView::SimpleString("OK"@), m),
        }
    } else if args.len() == 4 {
        match (args[0], args[2], args[3]) {
            (
                ValueView::BulkString(k),
                ValueView::BulkString(ty),
                ValueView::BulkString(t),
            ) => match args[1] {
                ValueView::BulkString(val) => (
                    ValueView::SimpleString("OK"@),
                    m.insert(
                        k,
                        DBDataView {
                            data: spec_conv(val),
                            created_at: now,
                            exp: Some(spec_exp_millis(t, ty)),
                        },
                    ),
                ),
                _ => (ValueView::BulkString("(error) Expected input to be a bulk string"@), m),
            },
            _ => (ValueView::SimpleString("OK"@), m),
        }
    } else {
        (ValueView::BulkString("(error) Invalid arguments for: SET"@), m)
    }
}

pub open spec fn spec_get(args: Seq<ValueView>, m: Map<Seq<char>, DBDataView>, now: u64) -> (
    ValueView,
    Map<Seq<char>, DBDataView>,
) {
    if args.len() != 1 {
        (ValueView::BulkString("(error) Invalid arguments for GET"@), m)
    } else {
        match args[0] {
            ValueView::BulkString(k) => {
                if !m.contains_key(k) {
                    (ValueView::BulkString("-1"@), m)
                } else if spec_expired(m[k], now) {
                    (ValueView::BulkString("-1"@), m.remove(k))
                } else {
                    (ValueView::BulkString(spec_render(m[k].data)), m)
                }
            },
            _ => (ValueView::BulkString("-1"@), m),
        }
    }
}

pub open spec fn spec_dispatch(
    name: Seq<char>,
    args: Seq<ValueView>,
    m: Map<Seq<char>, DBDataView>,
    now: u64,
) -> (ValueView, Map<Seq<char>, DBDataView>) {
    if cmd_eq(name, "ping"@) {
        (ValueView::SimpleString("PONG"@), m)
    } else if cmd_eq(name, "echo"@) {
        (
            if args.len() >= 1 {
                args[0]
            } else {
                ValueView::BulkString("You did not provide an argument to ECHO back"@)
            },
            m,
        )
    } else if cmd_eq(name, "set"@) {
        spec_set(args, m, now)
    } else if cmd_eq(name, "get"@) {
        spec_get(args, m, now)
    } else {
        (ValueView::BulkString("(error) Invalid command: "@ + name), m)
    }
}

/// One whole command cycle over a decoded value: the reply sent back and the
/// store left behind.
pub open spec fn spec_step(v: ValueView, m: Map<Seq<char>, DBDataView>, now: u64) -> (
    ValueView,
    Map<Seq<char>, DBDataView>,
) {
    match v {
        ValueView::Array(elems) => {
            if elems.len() >= 1 {
                match elems[0] {
                    ValueView::BulkString(name) => spec_dispatch(name, elems.skip(1), m, now),
                    _ => (
                        ValueView::BulkString(
                            "(error) Error extracting commands: Expected command to be a bulk string"@,
                        ),
                        m,
                    ),
                }
            } else {
                (
                    ValueView::BulkString(
                        "(error) Error extracting commands: Expected command to be a bulk string"@,
                    ),
                    m,
                )
            }
        },
        _ => (
            ValueView::BulkString(
                "(error) Error extracting commands: Unexpected command format"@,
            ),
            m,
        ),
    }
}

/// Chooses the stored representation of a command argument.
pub fn determine_type(value: &Value) -> (r: Result<DBVal, RespError>)
    ensures
        match r {
            Ok(d) => value@ matches ValueView::BulkString(s) && d@ == spec_conv(s),
            Err(e) => !(value@ is BulkString) && e == RespError::InvalidValueType,
        },
{
    match value {
        Value::BulkString(s) => match parse_int(s.as_str()) {
            Ok(n) => Ok(DBVal::Int(n)),
            Err(_) => Ok(DBVal::String(s.clone())),
        },
        _ => Err(RespError::InvalidValueType),
    }
}

/// The command name must be a bulk string.
pub fn unpack_bulk_str(value: Value) -> (r: Result<String, RespError>)
    ensures
        match r {
            Ok(s) => value@ == ValueView::BulkString(s@),
            Err(e) => !(value@ is BulkString) && e == RespError::BadCommandFormat,
        },
{
    match value {
        Value::BulkString(s) => Ok(s),
        _ => Err(RespError::BadCommandFormat),
    }
}

/// Splits a command array into its name and its argument list.
pub fn extract_command(value: Value) -> (r: Result<(String, Vec<Value>), RespError>)
    ensures
        match r {
            Ok(p) => value@ matches ValueView::Array(elems) && elems.len() >= 1 && elems[0]
                == ValueView::BulkString(p.0@) && views_of(p.1@) == elems.skip(1),
            Err(e) => e == RespError::BadCommandFormat && !(value@ matches ValueView::Array(elems)
                && elems.len() >= 1 && elems[0] is BulkString),
        },
{
    match value {
        Value::Array(a) => {
            let ghost va = a;
            if a.len() == 0 {
                return Err(RespError::BadCommandFormat);
            }
            let mut a = a;
            let first = a.remove(0);
            proof {
                assert(vec_views(va)[0] == first@);
                assert(views_of(a@) =~= vec_views(va).skip(1));
            }
            match unpack_bulk_str(first) {
                Ok(name) => Ok((name, a)),
                Err(e) => Err(e),
            }
        },
        _ => Err(RespError::BadCommandFormat),
    }
}

fn compute_ttl(ty: &String, n: u64) -> (r: u64)
    ensures
        r == spec_ttl(ty@, n),
{
    if cmd_matches(ty.as_str(), "ex") {
        if n <= u64::MAX / 1000 {
            proof {
                assert(n * 1000 <= u64::MAX) by (nonlinear_arith)
                    requires
                        n <= u64::MAX / 1000,
                        u64::MAX / 1000 * 1000 <= u64::MAX,
                ;
            }
            n * 1000
        } else {
            u64::MAX
        }
    } else if cmd_matches(ty.as_str(), "px") {
        n
    } else {
        0
    }
}

fn set_command(args: Vec<Value>, store: &mut Store, now: u64) -> (reply: Value)
    requires
        old(store).wf(),
    ensures
        final(store).wf(),
        reply@ == spec_set(views_of(args@), old(store)@, now).0,
        final(store)@ == spec_set(views_of(args@), old(store)@, now).1,
{
    let ghost vargs = views_of(args@);
    if args.len() == 2 {
        let mut args = args;
        let key_v = args.remove(0);
        let val_v = args.remove(0);
        proof {
            assert(key_v@ == vargs[0]);
            assert(val_v@ == vargs[1]);
        }
        match key_v {
            Value::BulkString(key) => match determine_type(&val_v) {
                Ok(d) => {
                    store.set(key, DBData::new(d, now, None));
                    Value::SimpleString(String::from_str("OK"))
                },
                Err(_) => Value::BulkString(
                    String::from_str("(error) Expected input to be a bulk string"),
                ),
            },
            _ => Value::SimpleString(String::from_str("OK")),
        }
    } else if args.len() == 4 {
        let mut args = args;
        let key_v = args.remove(0);
        let val_v = args.remove(0);
        let ty_v = args.remove(0);
        let t_v = args.remove(0);
        proof {
            assert(key_v@ == vargs[0]);
            assert(val_v@ == vargs[1]);
            assert(ty_v@ == vargs[2]);
            assert(t_v@ == vargs[3]);
        }
        match (key_v, ty_v, t_v) {
            (Value::BulkString(key), Value::BulkString(ty), Value::BulkString(t)) => match
            determine_type(&val_v) {
                Ok(d) => {
                    let raw = match parse_u64(t.as_str()) {
                        Ok(x) => x,
                        Err(_) => 0,
                    };
                    let ttl = compute_ttl(&ty, raw);
                    store.set(key, DBData::new(d, now, Some(ttl)));
                    Value::SimpleString(String::from_str("OK"))
                },
                Err(_) => Value::BulkString(
                    String::from_str("(error) Expected input to be a bulk string"),
                ),
            },
            _ => Value::SimpleString(String::from_str("OK")),
        }
    } else {
        Value::BulkString(String::from_str("(error) Invalid arguments for: SET"))
    }
}

fn get_command(args: Vec<Value>, store: &mut Store, now: u64) -> (reply: Value)
    requires
        old(store).wf(),
    ensures
        final(store).wf(),
        reply@ == spec_get(views_of(args@), old(store)@, now).0,
        final(store)@ == spec_get(views_of(args@), old(store)@, now).1,
{
    let ghost vargs = views_of(args@);
    if args.len() != 1 {
        return Value::BulkString(String::from_str("(error) Invalid arguments for GET"));
    }
    match &args[0] {
        Value::BulkString(key) => {
            proof {
                assert(vargs[0] == args@[0]@);
            }
            let ghost m0 = store@;
            match store.get_and_expire_if_due(key, now) {
                None => {
                    proof {
                        if !m0.contains_key(key@) {
                            assert(m0.remove(key@) =~= m0);
                        }
                    }
                    Value::BulkString(String::from_str("-1"))
                },
                Some(v) => match v {
                    DBVal::Int(n) => Value::BulkString(i64_to_string(n)),
                    DBVal::String(s) => Value::BulkString(s),
                },
            }
        },
        _ => Value::BulkString(String::from_str("-1")),
    }
}

fn dispatch_command(name: String, args: Vec<Value>, store: &mut Store, now: u64) -> (reply: Value)
    requires
        old(store).wf(),
    ensures
        final(store).wf(),
        reply@ == spec_dispatch(name@, views_of(args@), old(store)@, now).0,
        final(store)@ == spec_dispatch(name@, views_of(args@), old(store)@, now).1,
{
    if cmd_matches(name.as_str(), "ping") {
        Value::SimpleString(String::from_str("PONG"))
    } else if cmd_matches(name.as_str(), "echo") {
        if args.len() >= 1 {
            let ghost vargs = views_of(args@);
            let mut args = args;
            let firstarg = args.remove(0);
            proof {
                assert(firstarg@ == vargs[0]);
            }
            firstarg
        } else {
            Value::BulkString(String::from_str("You did not provide an argument to ECHO back"))
        }
    } else if cmd_matches(name.as_str(), "set") {
        set_command(args, store, now)
    } else if cmd_matches(name.as_str(), "get") {
        get_command(args, store, now)
    } else {
        let mut msg = String::from_str("(error) Invalid command: ");
        msg.append(name.as_str());
        Value::BulkString(msg)
    }
}

/// Interprets one decoded value as a command against the store; the reply and
/// the new store are exactly what `spec_step` says.
pub fn execute_command(v: Value, store: &mut Store, now: u64) -> (reply: Value)
    requires
        old(store).wf(),
    ensures
        final(store).wf(),
        reply@ == spec_step(v@, old(store)@, now).0,
        final(store)@ == spec_step(v@, old(store)@, now).1,
{
    match v {
        Value::Array(a) => {
            let ghost va = a;
            if a.len() == 0 {
                return Value::BulkString(
                    String::from_str(
                        "(error) Error extracting commands: Expected command to be a bulk string",
                    ),
                );
            }
            let mut a = a;
            let first = a.remove(0);
            proof {
                assert(vec_views(va)[0] == first@);
                assert(views_of(a@) =~= vec_views(va).skip(1));
            }
            match first {
                Value::BulkString(name) => dispatch_command(name, a, store, now),
                _ => Value::BulkString(
                    String::from_str(
                        "(error) Error extracting commands: Expected command to be a bulk string",
                    ),
                ),
            }
        },
        _ => Value::BulkString(
            String::from_str("(error) Error extracting commands: Unexpected command format"),
        ),
    }
}

/// One whole session step: decode the buffered text, run the command, and
/// fall back to a best-effort error reply when the frame is malformed.
pub fn handle_frame(input: &str, store: &mut Store, now: u64) -> (reply: Value)
    requires
        old(store).wf(),
    ensures
        final(store).wf(),
        match spec_parse_message(input@) {
            Some(p) => reply@ == spec_step(p.0, old(store)@, now).0 && final(store)@ == spec_step(
                p.0,
                old(store)@,
                now,
            ).1,
            None => reply@ == ValueView::BulkString(
                "(error) Failed to read token: malformed frame"@,
            ) && final(store)@ == old(store)@,
        },
{
    match parse_message(input) {
        Ok((v, _consumed)) => execute_command(v, store, now),
        Err(_) => Value::BulkString(String::from_str("(error) Failed to read token: malformed frame")),
    }
}

} // verus!
