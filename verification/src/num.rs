//! Decimal numbers on the wire: parsing signed 64-bit integers out of text
//! and rendering integers back as decimal text, with exact specifications.
use vstd::prelude::*;

verus! {

/// Codec-level failure: the bytes at hand do not form a frame.
#[derive(Debug, Clone, Copy, PartialEq, Eq, Structural)]
pub enum RespError {
    MalformedFrame,
    BadCommandFormat,
    InvalidValueType,
    UnsupportedEncoding,
}

pub open spec fn is_digit(c: char) -> bool {
    48 <= c as u32 && c as u32 <= 57
}

pub open spec fn digit_val(c: char) -> int {
    c as u32 - 48
}

pub open spec fn all_digits(s: Seq<char>) -> bool {
    forall|i: int| 0 <= i < s.len() ==> is_digit(#[trigger] s[i])
}

/// The value of a digit string read in the usual way, most significant first.
pub open spec fn dec_val(s: Seq<char>) -> int
    decreases s.len(),
{
    if s.len() == 0 {
        0
    } else {
        dec_val(s.drop_last()) * 10 + digit_val(s.last())
    }
}

pub open spec fn digit_char(d: int) -> char {
    ((48 + d) as u8) as char
}

/// The decimal rendering of a non-negative integer, without sign or padding.
pub open spec fn spec_dec_digits(n: nat) -> Seq<char>
    decreases n,
{
    if n < 10 {
        seq![digit_char(n as int)]
    } else {
        spec_dec_digits(n / 10).push(digit_char((n % 10) as int))
    }
}

/// The decimal rendering of a signed integer: a minus sign for negatives.
pub open spec fn spec_i64_string(n: int) -> Seq<char> {
    if n < 0 {
        seq!['-'] + spec_dec_digits((-n) as nat)
    } else {
        spec_dec_digits(n as nat)
    }
}

pub open spec fn digits_part(s: Seq<char>) -> Seq<char> {
    if s.len() > 0 && (s[0] == '-' || s[0] == '+') {
        s.skip(1)
    } else {
        s
    }
}

pub open spec fn sign_of(s: Seq<char>) -> int {
    if s.len() > 0 && s[0] == '-' {
        -1
    } else {
        1
    }
}

/// What a signed 64-bit decimal parse accepts: an optional sign, then one or
/// more digits, whose signed value fits the 64-bit range.
pub open spec fn spec_parse_i64(s: Seq<char>) -> Option<i64> {
    let ds = digits_part(s);
    let v = sign_of(s) * dec_val(ds);
    if ds.len() > 0 && all_digits(ds) && i64::MIN <= v <= i64::MAX {
        Some(v as i64)
    } else {
        None
    }
}

/// What an unsigned 64-bit decimal parse accepts: no minus sign, an optional
/// plus sign, then one or more digits whose value fits in 64 bits.
pub open spec fn spec_parse_u64(s: Seq<char>) -> Option<u64> {
    if s.len() > 0 && s[0] == '-' {
        None
    } else {
        let ds = if s.len() > 0 && s[0] == '+' {
            s.skip(1)
        } else {
            s
        };
        if ds.len() > 0 && all_digits(ds) && dec_val(ds) <= u64::MAX {
            Some(dec_val(ds) as u64)
        } else {
            None
        }
    }
}

pub proof fn lemma_dec_val_nonneg(s: Seq<char>)
    requires
        all_digits(s),
    ensures
        dec_val(s) >= 0,
    decreases s.len(),
{
    if s.len() > 0 {
        assert(all_digits(s.drop_last())) by {
            assert(forall|i: int|
                0 <= i < s.len() - 1 ==> #[trigger] s.drop_last()[i] == s[i]);
        }
        lemma_dec_val_nonneg(s.drop_last());
    }
}

/// Reading more digits can only grow the (non-negative) value.
pub proof fn lemma_dec_val_prefix_le(s: Seq<char>, k: int)
    requires
        all_digits(s),
        0 <= k <= s.len(),
    ensures
        dec_val(s.subrange(0, k)) <= dec_val(s),
    decreases s.len() - k,
{
    if k < s.len() {
        let p = s.subrange(0, k);
        let q = s.subrange(0, k + 1);
        assert(q.drop_last() =~= p);
        assert(all_digits(p)) by {
            assert(forall|i: int| 0 <= i < k ==> #[trigger] p[i] == s[i]);
        }
        lemma_dec_val_nonneg(p);
        assert(dec_val(q) == dec_val(p) * 10 + digit_val(s[k]));
        assert(dec_val(p) * 10 >= dec_val(p)) by (nonlinear_arith)
            requires dec_val(p) >= 0;
        lemma_dec_val_prefix_le(s, k + 1);
    } else {
        assert(s.subrange(0, k) =~= s);
    }
}

/// The decimal rendering of a non-negative integer consists of digits and
/// reads back as exactly that integer.
pub proof fn lemma_dec_digits_props(n: nat)
    ensures
        all_digits(spec_dec_digits(n)),
        dec_val(spec_dec_digits(n)) == n,
        spec_dec_digits(n).len() >= 1,
    decreases n,
{
    if n < 10 {
        let ds = spec_dec_digits(n);
        assert(ds.drop_last() =~= Seq::<char>::empty());
        assert(digit_char(n as int) as u32 == 48 + n);
        assert(dec_val(ds) == dec_val(ds.drop_last()) * 10 + digit_val(ds.last()));
        assert(dec_val(Seq::<char>::empty()) == 0);
    } else {
        lemma_dec_digits_props(n / 10);
        let b = spec_dec_digits(n / 10);
        let ds = spec_dec_digits(n);
        assert(ds.drop_last() =~= b);
        assert(digit_char((n % 10) as int) as u32 == 48 + (n % 10));
        assert(all_digits(ds)) by {
            assert(forall|i: int| 0 <= i < b.len() ==> #[trigger] ds[i] == b[i]);
            assert(is_digit(ds[ds.len() - 1]));
        }
        assert(dec_val(ds) == dec_val(b) * 10 + (n % 10));
        assert((n / 10) * 10 + (n % 10) == n) by (nonlinear_arith);
    }
}

/// Rendering a signed integer as decimal text and parsing it back yields the
/// same integer.
pub proof fn lemma_i64_string_round_trip(n: i64)
    ensures
        spec_parse_i64(spec_i64_string(n as int)) == Some(n),
{
    if n >= 0 {
        let ds = spec_dec_digits(n as nat);
        lemma_dec_digits_props(n as nat);
        assert(ds[0] != '-' && ds[0] != '+') by {
            assert(is_digit(ds[0]));
        }
        assert(digits_part(ds) == ds);
    } else {
        let mag = (-(n as int)) as nat;
        let ds = spec_dec_digits(mag);
        lemma_dec_digits_props(mag);
        let s = seq!['-'] + ds;
        assert(s[0] == '-');
        assert(digits_part(s) =~= ds);
        assert(sign_of(s) == -1);
    }
}

/// Accumulates the value of the digit run that starts at `start`, refusing a
/// non-digit and any value above `limit`.
fn parse_digits(s: &str, start: usize, limit: u64) -> (r: Result<u64, RespError>)
    requires
        start <= s@.len(),
    ensures
        match r {
            Ok(acc) => {
                let ds = s@.skip(start as int);
                &&& ds.len() > 0
                &&& all_digits(ds)
                &&& dec_val(ds) == acc as int
                &&& acc <= limit
            },
            Err(e) => {
                let ds = s@.skip(start as int);
                &&& e == RespError::MalformedFrame
                &&& !(ds.len() > 0 && all_digits(ds) && dec_val(ds) <= limit as int)
            },
        },
{
    let n = s.unicode_len();
    let ghost ds = s@.skip(start as int);
    if start >= n {
        return Err(RespError::MalformedFrame);
    }
    let mut acc: u64 = 0;
    let mut j: usize = start;
    while j < n
        invariant
            start <= j <= n,
            n == s@.len(),
            ds == s@.skip(start as int),
            all_digits(s@.subrange(start as int, j as int)),
            acc as int == dec_val(s@.subrange(start as int, j as int)),
            acc <= limit,
        decreases n - j,
    {
        let c = s.get_char(j);
        let cu = c as u32;
        let ghost pre = s@.subrange(start as int, j as int);
        if cu < 48 || cu > 57 {
            proof {
                assert(!is_digit(s@[j as int]));
                assert(ds[j - start] == s@[j as int]);
            }
            return Err(RespError::MalformedFrame);
        }
        let d = (cu - 48) as u64;
        let ghost ext = s@.subrange(start as int, j + 1int);
        proof {
            assert(ext.drop_last() =~= pre);
            assert(ext.last() == s@[j as int]);
            assert(dec_val(ext) == acc as int * 10 + d as int);
            assert(all_digits(ext)) by {
                assert(forall|i: int| 0 <= i < ext.len() - 1 ==> #[trigger] ext[i] == pre[i]);
            }
        }
        let overflow: bool = if acc > limit / 10 {
            true
        } else {
            proof {
                assert(acc * 10 <= limit) by (nonlinear_arith)
                    requires acc <= limit / 10, limit / 10 * 10 + limit % 10 == limit, limit % 10 < 10;
            }
            let acc10 = acc * 10;
            if d > limit - acc10 {
                true
            } else {
                acc = acc10 + d;
                false
            }
        };
        if overflow {
            proof {
                assert(dec_val(ext) > limit as int) by {
                    if acc > limit / 10 {
                        assert(acc as int * 10 > limit as int) by (nonlinear_arith)
                            requires
                                acc as int >= limit as int / 10 + 1,
                                limit as int / 10 * 10 + limit as int % 10 == limit as int,
                                limit as int % 10 < 10;
                    }
                }
                assert(all_digits(ds) ==> dec_val(ds) > limit as int) by {
                    if all_digits(ds) {
                        assert(forall|i: int| 0 <= i < ext.len() ==> #[trigger] ext[i] == ds[i]);
                        assert(ext =~= ds.subrange(0, j + 1 - start as int));
                        lemma_dec_val_prefix_le(ds, j + 1 - start as int);
                    }
                }
            }
            return Err(RespError::MalformedFrame);
        }
        j += 1;
    }
    proof {
        assert(s@.subrange(start as int, n as int) =~= ds);
    }
    Ok(acc)
}

/// Parses a signed 64-bit integer from decimal text, accepting exactly the
/// strings `spec_parse_i64` accepts.
pub fn parse_int(buffer: &str) -> (r: Result<i64, RespError>)
    ensures
        match r {
            Ok(v) => spec_parse_i64(buffer@) == Some(v),
            Err(e) => spec_parse_i64(buffer@) is None && e == RespError::MalformedFrame,
        },
{
    let n = buffer.unicode_len();
    if n == 0 {
        return Err(RespError::MalformedFrame);
    }
    let first = buffer.get_char(0);
    let neg = first == '-';
    let skip_sign = neg || first == '+';
    let start: usize = if skip_sign {
        1
    } else {
        0
    };
    let limit: u64 = if neg {
        9223372036854775808
    } else {
        9223372036854775807
    };
    let ghost ds = digits_part(buffer@);
    proof {
        if skip_sign {
            assert(ds =~= buffer@.skip(1));
        } else {
            assert(ds =~= buffer@.skip(0));
        }
    }
    match parse_digits(buffer, start, limit) {
        Err(e) => {
            proof {
                if ds.len() > 0 && all_digits(ds) {
                    lemma_dec_val_nonneg(ds);
                }
            }
            Err(e)
        },
        Ok(acc) => {
            if neg {
                if acc == 9223372036854775808 {
                    Ok(i64::MIN)
                } else {
                    Ok(-(acc as i64))
                }
            } else {
                Ok(acc as i64)
            }
        },
    }
}

/// Parses an unsigned 64-bit integer from decimal text, accepting exactly the
/// strings `spec_parse_u64` accepts.
pub fn parse_u64(buffer: &str) -> (r: Result<u64, RespError>)
    ensures
        match r {
            Ok(v) => spec_parse_u64(buffer@) == Some(v),
            Err(e) => spec_parse_u64(buffer@) is None && e == RespError::MalformedFrame,
        },
{
    let n = buffer.unicode_len();
    if n == 0 {
        return Err(RespError::MalformedFrame);
    }
    let first = buffer.get_char(0);
    if first == '-' {
        return Err(RespError::MalformedFrame);
    }
    let start: usize = if first == '+' {
        1
    } else {
        0
    };
    let ghost ds = if buffer@[0] == '+' {
        buffer@.skip(1)
    } else {
        buffer@
    };
    proof {
        if start == 1 {
            assert(ds =~= buffer@.skip(1));
        } else {
            assert(ds =~= buffer@.skip(0));
        }
    }
    match parse_digits(buffer, start, u64::MAX) {
        Err(e) => {
            proof {
                if ds.len() > 0 && all_digits(ds) {
                    lemma_dec_val_nonneg(ds);
                }
            }
            Err(e)
        },
        Ok(acc) => Ok(acc),
    }
}

fn digit_str(d: u64) -> (r: &'static str)
    requires
        d < 10,
    ensures
        r@ =~= seq![digit_char(d as int)],
{
    let r: &'static str = match d {
        0 => "0",
        1 => "1",
        2 => "2",
        3 => "3",
        4 => "4",
        5 => "5",
        6 => "6",
        7 => "7",
        8 => "8",
        _ => "9",
    };
    proof {
        reveal_strlit("0");
        reveal_strlit("1");
        reveal_strlit("2");
        reveal_strlit("3");
        reveal_strlit("4");
        reveal_strlit("5");
        reveal_strlit("6");
        reveal_strlit("7");
        reveal_strlit("8");
        reveal_strlit("9");
    }
    r
}

/// Renders an unsigned integer as decimal text.
pub fn u64_to_string(n: u64) -> (r: String)
    ensures
        r@ == spec_dec_digits(n as nat),
    decreases n,
{
    if n < 10 {
        String::from_str(digit_str(n))
    } else {
        let mut s = u64_to_string(n / 10);
        s.append(digit_str(n % 10));
        proof {
            assert(s@ =~= spec_dec_digits(n as nat));
        }
        s
    }
}

/// Renders a signed integer as decimal text, as the store's replies need.
pub fn i64_to_string(n: i64) -> (r: String)
    ensures
        r@ == spec_i64_string(n as int),
{
    if n >= 0 {
        u64_to_string(n as u64)
    } else {
        let mag: u64 = ((-(n + 1)) as u64) + 1;
        proof {
            assert(mag as int == -(n as int));
        }
        let mut s = String::from_str("-");
        s.append(u64_to_string(mag).as_str());
        proof {
            reveal_strlit("-");
            assert(s@ =~= spec_i64_string(n as int));
        }
        s
    }
}

} // verus!
