//! The wire codec: a typed protocol value, its serialisation to text, and an
//! incremental decoder for the three frame shapes the protocol knows
//! (`+` simple string, `$` bulk string, `*` array).
use vstd::prelude::*;
use vstd::string::StrSliceExecFns;
use vstd::string::StringExecFns;

use crate::num::RespError;
use crate::num::parse_int;
use crate::num::spec_dec_digits;
use crate::num::spec_parse_i64;
use crate::num::u64_to_string;

verus! {

/// One protocol value as it travels on the wire.
#[derive(Debug)]
pub enum Value {
    SimpleString(String),
    BulkString(String),
    Array(Vec<Value>),
}

/// The mathematical shape of a `Value`: its strings as character sequences.
#[verifier::ext_equal]
pub enum ValueView {
    SimpleString(Seq<char>),
    BulkString(Seq<char>),
    Array(Seq<ValueView>),
}

impl View for Value {
    type V = ValueView;

    open spec fn view(&self) -> ValueView
        decreases self,
    {
        match self {
            Value::SimpleString(s) => ValueView::SimpleString(s@),
            Value::BulkString(s) => ValueView::BulkString(s@),
            Value::Array(vs) => ValueView::Array(vec_views(*vs)),
        }
    }
}

pub open spec fn vec_views(vs: Vec<Value>) -> Seq<ValueView>
    decreases vs,
{
    // the closure must terminate for every integer, so indices outside the
    // sequence, which Seq::new never evaluates, take a fixed value
    Seq::new(
        vs@.len(),
        |i: int|
            if 0 <= i < vs@.len() {
                vs@[i]@
            } else {
                ValueView::Array(Seq::empty())
            },
    )
}

pub open spec fn views_of(vs: Seq<Value>) -> Seq<ValueView> {
    Seq::new(vs.len(), |i: int| vs[i]@)
}

/// A carriage-return/line-feed pair starts at index `i`.
pub open spec fn crlf_at(s: Seq<char>, i: int) -> bool {
    0 <= i && i + 1 < s.len() && s[i] == '\r' && s[i + 1] == '\n'
}

/// The index of the first line-break pair, if any.
pub open spec fn spec_find_crlf(s: Seq<char>) -> Option<int>
    decreases s.len(),
{
    if s.len() < 2 {
        None
    } else if s[0] == '\r' && s[1] == '\n' {
        Some(0)
    } else {
        match spec_find_crlf(s.skip(1)) {
            Some(i) => Some(i + 1),
            None => None,
        }
    }
}

pub proof fn lemma_find_crlf_props(s: Seq<char>)
    ensures
        match spec_find_crlf(s) {
            Some(i) => crlf_at(s, i) && (forall|j: int| 0 <= j < i ==> !crlf_at(s, j)),
            None => forall|j: int| !crlf_at(s, j),
        },
    decreases s.len(),
{
    if s.len() < 2 {
    } else if s[0] == '\r' && s[1] == '\n' {
    } else {
        lemma_find_crlf_props(s.skip(1));
        let t = s.skip(1);
        match spec_find_crlf(t) {
            Some(i2) => {
                assert(crlf_at(s, i2 + 1)) by {
                    assert(t[i2] == s[i2 + 1]);
                    assert(t[i2 + 1] == s[i2 + 2]);
                }
                assert forall|j: int| 0 <= j < i2 + 1 implies !crlf_at(s, j) by {
                    if j > 0 && j + 1 < s.len() {
                        assert(t[j - 1] == s[j]);
                        assert(t[j] == s[j + 1]);
                        assert(!crlf_at(t, j - 1));
                    }
                }
            },
            None => {
                assert forall|j: int| !crlf_at(s, j) by {
                    if 0 <= j && j + 1 < s.len() {
                        if j > 0 {
                            assert(t[j - 1] == s[j]);
                            assert(t[j] == s[j + 1]);
                            assert(!crlf_at(t, j - 1));
                        }
                    }
                }
            },
        }
    }
}

pub proof fn lemma_find_crlf_unique(s: Seq<char>, i: int)
    requires
        crlf_at(s, i),
        forall|j: int| 0 <= j < i ==> !crlf_at(s, j),
    ensures
        spec_find_crlf(s) == Some(i),
{
    lemma_find_crlf_props(s);
    match spec_find_crlf(s) {
        Some(k) => {
            if k < i {
                assert(!crlf_at(s, k));
            } else if k > i {
                assert(!crlf_at(s, i));
            }
        },
        None => {
            assert(!crlf_at(s, i));
        },
    }
}

/// Scans for the first line-break pair; returns the text strictly before it
/// and the count of characters consumed through the pair.
pub fn read_until_crlf(buffer: &str) -> (r: Option<(String, usize)>)
    ensures
        match r {
            Some(p) => {
                &&& 2 <= p.1 <= buffer@.len()
                &&& spec_find_crlf(buffer@) == Some(p.1 - 2)
                &&& p.0@ == buffer@.subrange(0, p.1 - 2)
            },
            None => spec_find_crlf(buffer@) is None,
        },
{
    let n = buffer.unicode_len();
    let mut i: usize = 1;
    while i < n
        invariant
            1 <= i,
            n == buffer@.len(),
            forall|j: int| 0 <= j < i - 1 ==> !crlf_at(buffer@, j),
        decreases n - i,
    {
        if buffer.get_char(i - 1) == '\r' && buffer.get_char(i) == '\n' {
            let line = buffer.substring_char(0, i - 1).to_owned();
            proof {
                lemma_find_crlf_unique(buffer@, i - 1);
            }
            return Some((line, i + 1));
        }
        i += 1;
    }
    proof {
        lemma_find_crlf_props(buffer@);
        if let Some(k) = spec_find_crlf(buffer@) {
            assert(crlf_at(buffer@, k));
            assert(false);
        }
    }
    None
}

/// Decoding a simple string: the text between the marker and the first
/// line break.
pub open spec fn spec_parse_simple(s: Seq<char>) -> Option<(ValueView, int)> {
    match spec_find_crlf(s) {
        Some(i) => if 1 <= i {
            Some((ValueView::SimpleString(s.subrange(1, i)), i + 2))
        } else {
            None
        },
        None => None,
    }
}

/// Decoding a bulk string: a declared character count, then that many
/// characters verbatim, then a discarded line break.
pub open spec fn spec_parse_bulk(s: Seq<char>) -> Option<(ValueView, int)> {
    if s.len() < 1 {
        None
    } else {
        let t = s.skip(1);
        match spec_find_crlf(t) {
            Some(i) => match spec_parse_i64(t.subrange(0, i)) {
                Some(len) => {
                    let start = 1 + i + 2;
                    if len >= 0 && start + len + 2 <= s.len() {
                        Some((ValueView::BulkString(s.subrange(start, start + len)), start + len + 2))
                    } else {
                        None
                    }
                },
                None => None,
            },
            None => None,
        }
    }
}

/// Decoding an array: a declared element count, then that many values
/// decoded one after the other.
pub open spec fn spec_parse_array(s: Seq<char>) -> Option<(ValueView, int)>
    decreases s.len(), 1int, 0int,
{
    if s.len() < 1 {
        None
    } else {
        let t = s.skip(1);
        match spec_find_crlf(t) {
            Some(i) => match spec_parse_i64(t.subrange(0, i)) {
                Some(count) => {
                    let start = 1 + i + 2;
                    if count >= 0 && 3 <= start <= s.len() {
                        match spec_parse_elems(s.skip(start), count as int) {
                            Some(p) => Some((ValueView::Array(p.0), start + p.1)),
                            None => None,
                        }
                    } else {
                        None
                    }
                },
                None => None,
            },
            None => None,
        }
    }
}

pub open spec fn spec_parse_elems(s: Seq<char>, n: int) -> Option<(Seq<ValueView>, int)>
    decreases s.len(), 3int, n,
{
    if n <= 0 {
        Some((Seq::empty(), 0))
    } else {
        match spec_parse_message(s) {
            Some(p) => if 1 <= p.1 <= s.len() {
                match spec_parse_elems(s.skip(p.1), n - 1) {
                    Some(q) => Some((seq![p.0] + q.0, p.1 + q.1)),
                    None => None,
                }
            } else {
                None
            },
            None => None,
        }
    }
}

/// Decoding one value: the first character selects the frame shape.
pub open spec fn spec_parse_message(s: Seq<char>) -> Option<(ValueView, int)>
    decreases s.len(), 2int, 0int,
{
    if s.len() == 0 {
        None
    } else if s[0] == '+' {
        spec_parse_simple(s)
    } else if s[0] == '$' {
        spec_parse_bulk(s)
    } else if s[0] == '*' {
        spec_parse_array(s)
    } else {
        None
    }
}

/// A successful decode consumes at least one and at most all characters.
pub proof fn lemma_parse_message_bounds(s: Seq<char>)
    ensures
        spec_parse_message(s) matches Some(p) ==> 1 <= p.1 <= s.len(),
    decreases s.len(), 2int, 0int,
{
    if s.len() == 0 {
    } else if s[0] == '+' {
        lemma_find_crlf_props(s);
    } else if s[0] == '$' {
        lemma_find_crlf_props(s.skip(1));
    } else if s[0] == '*' {
        if s.len() >= 1 {
            let t = s.skip(1);
            lemma_find_crlf_props(t);
            if let Some(i) = spec_find_crlf(t) {
                if let Some(count) = spec_parse_i64(t.subrange(0, i)) {
                    let start = 1 + i + 2;
                    if count >= 0 && 3 <= start <= s.len() {
                        lemma_parse_elems_bounds(s.skip(start), count as int);
                    }
                }
            }
        }
    }
}

pub proof fn lemma_parse_elems_bounds(s: Seq<char>, n: int)
    ensures
        spec_parse_elems(s, n) matches Some(q) ==> 0 <= q.1 <= s.len(),
    decreases s.len(), 3int, n,
{
    if n <= 0 {
    } else {
        lemma_parse_message_bounds(s);
        if let Some(p) = spec_parse_message(s) {
            if 1 <= p.1 <= s.len() {
                lemma_parse_elems_bounds(s.skip(p.1), n - 1);
            }
        }
    }
}

/// Decodes one protocol value from the front of the buffer, returning it with
/// the count of characters consumed.
pub fn parse_message(buf: &str) -> (r: Result<(Value, usize), RespError>)
    ensures
        match r {
            Ok(p) => spec_parse_message(buf@) == Some((p.0@, p.1 as int)),
            Err(e) => spec_parse_message(buf@) is None && e == RespError::MalformedFrame,
        },
    decreases buf@.len(), 2int,
{
    let n = buf.unicode_len();
    if n == 0 {
        return Err(RespError::MalformedFrame);
    }
    let c = buf.get_char(0);
    if c == '+' {
        parse_simple_string(buf)
    } else if c == '$' {
        parse_bulk_string(buf)
    } else if c == '*' {
        parse_array(buf)
    } else {
        Err(RespError::MalformedFrame)
    }
}

pub fn parse_simple_string(buf: &str) -> (r: Result<(Value, usize), RespError>)
    ensures
        match r {
            Ok(p) => spec_parse_simple(buf@) == Some((p.0@, p.1 as int)),
            Err(e) => spec_parse_simple(buf@) is None && e == RespError::MalformedFrame,
        },
{
    match read_until_crlf(buf) {
        None => Err(RespError::MalformedFrame),
        Some((_line, len)) => {
            if len >= 3 {
                let content = buf.substring_char(1, len - 2).to_owned();
                Ok((Value::SimpleString(content), len))
            } else {
                Err(RespError::MalformedFrame)
            }
        },
    }
}

pub fn parse_bulk_string(buf: &str) -> (r: Result<(Value, usize), RespError>)
    ensures
        match r {
            Ok(p) => spec_parse_bulk(buf@) == Some((p.0@, p.1 as int)),
            Err(e) => spec_parse_bulk(buf@) is None && e == RespError::MalformedFrame,
        },
{
    let n = buf.unicode_len();
    if n == 0 {
        return Err(RespError::MalformedFrame);
    }
    let tail = buf.substring_char(1, n);
    proof {
        assert(tail@ =~= buf@.skip(1));
    }
    match read_until_crlf(tail) {
        None => Err(RespError::MalformedFrame),
        Some((line, hlen)) => {
            proof {
                assert(line@ == buf@.skip(1).subrange(0, hlen - 2));
            }
            match parse_int(line.as_str()) {
                Err(_) => Err(RespError::MalformedFrame),
                Ok(v) => {
                    if v < 0 {
                        return Err(RespError::MalformedFrame);
                    }
                    let start: usize = 1 + hlen;
                    let avail: usize = n - start;
                    if (v as u64) + 2 > (avail as u64) {
                        return Err(RespError::MalformedFrame);
                    }
                    let vlen = v as usize;
                    proof {
                        assert(vlen as int == v as int);
                    }
                    let content = buf.substring_char(start, start + vlen).to_owned();
                    Ok((Value::BulkString(content), start + vlen + 2))
                },
            }
        },
    }
}

pub fn parse_array(buf: &str) -> (r: Result<(Value, usize), RespError>)
    ensures
        match r {
            Ok(p) => spec_parse_array(buf@) == Some((p.0@, p.1 as int)),
            Err(e) => spec_parse_array(buf@) is None && e == RespError::MalformedFrame,
        },
    decreases buf@.len(), 1int,
{
    let n = buf.unicode_len();
    if n == 0 {
        return Err(RespError::MalformedFrame);
    }
    let tail = buf.substring_char(1, n);
    proof {
        assert(tail@ =~= buf@.skip(1));
    }
    match read_until_crlf(tail) {
        None => Err(RespError::MalformedFrame),
        Some((line, hlen)) => {
            proof {
                assert(line@ == buf@.skip(1).subrange(0, hlen - 2));
            }
            match parse_int(line.as_str()) {
                Err(_) => Err(RespError::MalformedFrame),
                Ok(count) => {
                    if count < 0 {
                        return Err(RespError::MalformedFrame);
                    }
                    let start: usize = 1 + hlen;
                    let ghost s0 = buf@.skip(start as int);
                    proof {
                        assert(spec_parse_array(buf@) == (match spec_parse_elems(s0, count as int) {
                            Some(p) => Some((ValueView::Array(p.0), start + p.1)),
                            None => None::<(ValueView, int)>,
                        }));
                    }
                    let mut items: Vec<Value> = Vec::new();
                    let mut consumed: usize = start;
                    let mut k: i64 = 0;
                    proof {
                        if let Some(q) = spec_parse_elems(s0, count as int) {
                            assert(views_of(items@) + q.0 =~= q.0);
                        }
                    }
                    while k < count
                        invariant
                            0 <= k <= count,
                            start <= consumed <= n,
                            3 <= start,
                            n == buf@.len(),
                            s0 == buf@.skip(start as int),
                            spec_parse_array(buf@) == (match spec_parse_elems(s0, count as int) {
                                Some(p) => Some((ValueView::Array(p.0), start + p.1)),
                                None => None::<(ValueView, int)>,
                            }),
                            spec_parse_elems(s0, count as int) == (match spec_parse_elems(
                                buf@.skip(consumed as int),
                                count - k,
                            ) {
                                Some(q) => Some(
                                    (views_of(items@) + q.0, consumed - start + q.1),
                                ),
                                None => None::<(Seq<ValueView>, int)>,
                            }),
                        decreases count - k,
                    {
                        let rest = buf.substring_char(consumed, n);
                        proof {
                            assert(rest@ =~= buf@.skip(consumed as int));
                        }
                        match parse_message(rest) {
                            Err(_) => {
                                return Err(RespError::MalformedFrame);
                            },
                            Ok((item, used)) => {
                                proof {
                                    lemma_parse_message_bounds(rest@);
                                    assert(rest@.skip(used as int) =~= buf@.skip(
                                        consumed + used as int,
                                    ));
                                    let ghost old_items = items@;
                                    if let Some(q) = spec_parse_elems(
                                        buf@.skip(consumed + used as int),
                                        count - k - 1,
                                    ) {
                                        assert(views_of(old_items.push(item)) =~= views_of(
                                            old_items,
                                        ) + seq![item@]);
                                        assert(views_of(old_items) + (seq![item@] + q.0) =~= (
                                        views_of(old_items.push(item)) + q.0));
                                    }
                                }
                                items.push(item);
                                consumed += used;
                                k += 1;
                            },
                        }
                    }
                    proof {
                        assert(spec_parse_elems(buf@.skip(consumed as int), 0) == Some(
                            (Seq::<ValueView>::empty(), 0int),
                        ));
                        if let Some(q) = spec_parse_elems(s0, count as int) {
                            assert(views_of(items@) + Seq::<ValueView>::empty() =~= views_of(
                                items@,
                            ));
                        }
                        assert(Value::Array(items)@ == ValueView::Array(views_of(items@))) by {
                            assert(vec_views(items) =~= views_of(items@));
                        }
                    }
                    Ok((Value::Array(items), consumed))
                },
            }
        },
    }
}

pub open spec fn spec_crlf() -> Seq<char> {
    seq!['\r', '\n']
}

/// Encoding: marker, then for bulk strings the character count and the text,
/// each segment closed by a line break. Arrays are never encoded.
pub open spec fn spec_serialise(v: ValueView) -> Seq<char> {
    match v {
        ValueView::SimpleString(s) => seq!['+'] + s + spec_crlf(),
        ValueView::BulkString(s) => seq!['$'] + spec_dec_digits(s.len()) + spec_crlf() + s
            + spec_crlf(),
        ValueView::Array(_) => Seq::empty(),
    }
}

impl Value {
    /// Serialises a reply value; only simple and bulk strings are ever sent.
    pub fn serialise(self) -> (r: String)
        requires
            !(self is Array),
        ensures
            r@ == spec_serialise(self@),
    {
        match self {
            Value::SimpleString(s) => {
                let mut out = String::from_str("+");
                out.append(s.as_str());
                out.append("\r\n");
                proof {
                    reveal_strlit("+");
                    reveal_strlit("\r\n");
                    assert(out@ =~= spec_serialise(ValueView::SimpleString(s@)));
                }
                out
            },
            Value::BulkString(s) => {
                let mut out = String::from_str("$");
                let n = s.as_str().unicode_len();
                let num = u64_to_string(n as u64);
                out.append(num.as_str());
                out.append("\r\n");
                out.append(s.as_str());
                out.append("\r\n");
                proof {
                    reveal_strlit("$");
                    reveal_strlit("\r\n");
                    assert(n as u64 as nat == s@.len());
                    assert(out@ =~= spec_serialise(ValueView::BulkString(s@)));
                }
                out
            },
            Value::Array(_) => {
                proof {
                    assert(false);
                }
                String::new()
            },
        }
    }

    /// The encoder's total entry: refuses an array rather than producing an
    /// invalid frame.
    pub fn try_serialise(self) -> (r: Result<String, RespError>)
        ensures
            match r {
                Ok(out) => !(self@ is Array) && out@ == spec_serialise(self@),
                Err(e) => self@ is Array && e == RespError::UnsupportedEncoding,
            },
    {
        let is_arr = match &self {
            Value::Array(_) => true,
            _ => false,
        };
        if is_arr {
            Err(RespError::UnsupportedEncoding)
        } else {
            Ok(self.serialise())
        }
    }
}

} // verus!
