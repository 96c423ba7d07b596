//! Frame codec: typed protocol values, their wire serialization, and a
//! parser from raw bytes back to values.

use vstd::prelude::*;

verus! {

use crate::num::{dec_bytes, spec_parse_i64};
use vstd::utf8::{
    char_is_scalar, char_u32_cast, decode_utf8, encode_scalar, encode_utf8,
    encode_utf8_decode_utf8, encode_utf8_valid_utf8, is_ascii_chars, is_ascii_chars_encode_utf8,
    valid_utf8,
};

/// The frame types of the wire protocol, one per leading tag byte.
#[derive(Clone, Copy, Debug, PartialEq, Eq)]
pub enum Dtype {
    SimpleString,
    SimpleError,
    Integer,
    Array,
    BulkString,
}

/// A typed protocol value, as parsed from or serialized to the wire.
#[derive(Debug, PartialEq)]
pub enum Value {
    SimpleString(String),
    SimpleError(String),
    BulkString(String),
    NullBulk,
    Array(Vec<Value>),
}

/// The mathematical model of a [`Value`]: texts are character sequences,
/// arrays are sequences of models.
pub enum ValueView {
    SimpleString(Seq<char>),
    SimpleError(Seq<char>),
    BulkString(Seq<char>),
    NullBulk,
    Array(Seq<ValueView>),
}

impl Value {
    pub open spec fn view(&self) -> ValueView
        decreases self, 0int, 0int,
    {
        match self {
            Value::SimpleString(s) => ValueView::SimpleString(s@),
            Value::SimpleError(s) => ValueView::SimpleError(s@),
            Value::BulkString(s) => ValueView::BulkString(s@),
            Value::NullBulk => ValueView::NullBulk,
            Value::Array(items) => ValueView::Array(view_items(items@, 0)),
        }
    }
}

/// The models of `items[i..]`, in order.
pub open spec fn view_items(items: Seq<Value>, i: int) -> Seq<ValueView>
    decreases items, 1int, items.len() - i,
{
    if i < 0 || i >= items.len() {
        Seq::empty()
    } else {
        seq![items[i]@] + view_items(items, i + 1)
    }
}

/// `view_items(items, i)` lists the model of each element from `i` on.
pub proof fn lemma_view_items(items: Seq<Value>, i: int)
    requires
        0 <= i <= items.len(),
    ensures
        view_items(items, i).len() == items.len() - i,
        forall|j: int| i <= j < items.len() ==> view_items(items, i)[j - i] == items[j]@,
    decreases items.len() - i,
{
    if i < items.len() {
        lemma_view_items(items, i + 1);
    }
}

/// Why a byte buffer failed to parse as a frame.
///
/// `Incomplete` means the buffer holds a prefix of a well-formed frame:
/// the caller should read more bytes and retry. `Malformed` means the
/// bytes can never become a well-formed frame: an unknown tag byte, a
/// bad length or count, or text that is not valid UTF-8.
#[derive(Clone, Copy, Debug, PartialEq, Eq, Structural)]
pub enum ProtocolError {
    Incomplete,
    Malformed,
}

pub open spec fn crlf() -> Seq<u8> {
    seq![13u8, 10u8]
}

/// The wire bytes of a value. Texts are UTF-8 encoded; bulk strings are
/// prefixed with their character count; arrays with their element count.
pub open spec fn spec_serialize(v: ValueView) -> Seq<u8>
    decreases v, 0int, 0int,
{
    match v {
        ValueView::SimpleString(s) => seq![43u8] + encode_utf8(s) + crlf(),
        ValueView::SimpleError(s) => seq![45u8] + encode_utf8(s) + crlf(),
        ValueView::BulkString(s) => seq![36u8] + dec_bytes(s.len() as int) + crlf() + encode_utf8(s)
            + crlf(),
        ValueView::NullBulk => seq![36u8, 45u8, 49u8, 13u8, 10u8],
        ValueView::Array(items) => seq![42u8] + dec_bytes(items.len() as int) + crlf()
            + spec_serialize_items(items, 0),
    }
}

/// The wire bytes of `items[i..]`, back to back.
pub open spec fn spec_serialize_items(items: Seq<ValueView>, i: int) -> Seq<u8>
    decreases items, 1int, items.len() - i,
{
    if i < 0 || i >= items.len() {
        Seq::empty()
    } else {
        spec_serialize(items[i]) + spec_serialize_items(items, i + 1)
    }
}

/// The position of the first CRLF pair at or after `i`, if any.
pub open spec fn find_crlf(b: Seq<u8>, i: int) -> Option<int>
    decreases b.len() - i,
{
    if i < 0 || i + 2 > b.len() {
        None
    } else if b[i] == 13 && b[i + 1] == 10 {
        Some(i)
    } else {
        find_crlf(b, i + 1)
    }
}

/// What `find_crlf` finds is a CRLF pair inside the buffer, and the
/// first one at or after `i`.
pub proof fn lemma_find_crlf(b: Seq<u8>, i: int)
    requires
        0 <= i,
        find_crlf(b, i) is Some,
    ensures
        ({
            let j = find_crlf(b, i)->Some_0;
            &&& i <= j
            &&& j + 2 <= b.len()
            &&& b[j] == 13 && b[j + 1] == 10
            &&& forall|k: int| i <= k < j ==> !(#[trigger] b[k] == 13 && b[k + 1] == 10)
        }),
    decreases b.len() - i,
{
    if i + 2 > b.len() {
    } else if b[i] == 13 && b[i + 1] == 10 {
    } else {
        lemma_find_crlf(b, i + 1);
    }
}

/// If a CRLF pair stands at `j`, and none starts in `[i, j)`, then
/// `find_crlf` finds exactly `j`.
pub proof fn lemma_find_crlf_at(b: Seq<u8>, i: int, j: int)
    requires
        0 <= i <= j,
        j + 2 <= b.len(),
        b[j] == 13 && b[j + 1] == 10,
        forall|k: int| i <= k < j ==> !(#[trigger] b[k] == 13 && b[k + 1] == 10),
    ensures
        find_crlf(b, i) == Some(j),
    decreases j - i,
{
    if i < j {
        lemma_find_crlf_at(b, i + 1, j);
    }
}

/// The result of parsing one frame that starts at `pos`: the value and
/// the position just past its last byte, or the reason there is none.
pub open spec fn spec_parse(b: Seq<u8>, pos: int) -> Result<(ValueView, int), ProtocolError>
    decreases b.len() - pos, 0int, 0int,
{
    if pos < 0 || pos >= b.len() {
        Err(ProtocolError::Incomplete)
    } else if b[pos] == 43 {
        match find_crlf(b, pos + 1) {
            None => Err(ProtocolError::Incomplete),
            Some(j) => {
                let line = b.subrange(pos + 1, j);
                if valid_utf8(line) {
                    Ok((ValueView::SimpleString(decode_utf8(line)), j + 2))
                } else {
                    Err(ProtocolError::Malformed)
                }
            },
        }
    } else if b[pos] == 36 {
        match find_crlf(b, pos + 1) {
            None => Err(ProtocolError::Incomplete),
            Some(j) => match spec_parse_i64(b.subrange(pos + 1, j)) {
                None => Err(ProtocolError::Malformed),
                Some(len) => {
                    if len < 0 {
                        Err(ProtocolError::Malformed)
                    } else {
                        let start = j + 2;
                        let end = start + len;
                        if end + 2 > b.len() {
                            Err(ProtocolError::Incomplete)
                        } else if !(b[end] == 13 && b[end + 1] == 10) {
                            Err(ProtocolError::Malformed)
                        } else {
                            let body = b.subrange(start, end);
                            if valid_utf8(body) {
                                Ok((ValueView::BulkString(decode_utf8(body)), end + 2))
                            } else {
                                Err(ProtocolError::Malformed)
                            }
                        }
                    }
                },
            },
        }
    } else if b[pos] == 42 {
        match find_crlf(b, pos + 1) {
            None => Err(ProtocolError::Incomplete),
            Some(j) => match spec_parse_i64(b.subrange(pos + 1, j)) {
                None => Err(ProtocolError::Malformed),
                Some(count) => {
                    if count < 0 || j < pos + 1 || j + 2 > b.len() {
                        Err(ProtocolError::Malformed)
                    } else {
                        match spec_parse_items(b, j + 2, count as int) {
                            Err(e) => Err(e),
                            Ok((items, end)) => Ok((ValueView::Array(items), end)),
                        }
                    }
                },
            },
        }
    } else {
        Err(ProtocolError::Malformed)
    }
}

/// The result of parsing `count` frames back to back from `pos`: the
/// values and the position just past the last one.
pub open spec fn spec_parse_items(b: Seq<u8>, pos: int, count: int) -> Result<
    (Seq<ValueView>, int),
    ProtocolError,
>
    decreases b.len() - pos, 1int, count,
{
    if count <= 0 {
        Ok((Seq::empty(), pos))
    } else {
        match spec_parse(b, pos) {
            Err(e) => Err(e),
            Ok((v, end)) => {
                if end <= pos || end > b.len() {
                    Err(ProtocolError::Malformed)
                } else {
                    match spec_parse_items(b, end, count - 1) {
                        Err(e) => Err(e),
                        Ok((rest, fin)) => Ok((seq![v] + rest, fin)),
                    }
                }
            },
        }
    }
}

impl Value {
    /// The wire bytes of this value.
    pub fn serialize(&self) -> (r: Vec<u8>)
        ensures
            r@ == spec_serialize(self@),
        decreases self, 0int, 0int,
    {
        match self {
            Value::SimpleString(s) => {
                let mut out: Vec<u8> = Vec::new();
                out.push(43);
                let mut body = s.as_str().as_bytes_vec();
                out.append(&mut body);
                out.push(13);
                out.push(10);
                proof {
                    assert(out@ =~= spec_serialize(self@));
                }
                out
            },
            Value::SimpleError(s) => {
                let mut out: Vec<u8> = Vec::new();
                out.push(45);
                let mut body = s.as_str().as_bytes_vec();
                out.append(&mut body);
                out.push(13);
                out.push(10);
                proof {
                    assert(out@ =~= spec_serialize(self@));
                }
                out
            },
            Value::BulkString(s) => {
                let mut out: Vec<u8> = Vec::new();
                out.push(36);
                let n = s.as_str().unicode_len();
                let mut digits = crate::num::format_u64(n as u64);
                out.append(&mut digits);
                out.push(13);
                out.push(10);
                let mut body = s.as_str().as_bytes_vec();
                out.append(&mut body);
                out.push(13);
                out.push(10);
                proof {
                    assert(out@ =~= spec_serialize(self@));
                }
                out
            },
            Value::NullBulk => {
                let mut out: Vec<u8> = Vec::new();
                out.push(36);
                out.push(45);
                out.push(49);
                out.push(13);
                out.push(10);
                proof {
                    assert(out@ =~= spec_serialize(self@));
                }
                out
            },
            Value::Array(items) => {
                let mut out: Vec<u8> = Vec::new();
                out.push(42);
                let mut digits = crate::num::format_u64(items.len() as u64);
                out.append(&mut digits);
                out.push(13);
                out.push(10);
                let ghost vi = view_items(items@, 0);
                proof {
                    lemma_view_items(items@, 0);
                    assert(out@ + spec_serialize_items(vi, 0) =~= spec_serialize(self@));
                }
                let mut k: usize = 0;
                while k < items.len()
                    invariant
                        *self == Value::Array(*items),
                        k <= items@.len(),
                        vi == view_items(items@, 0),
                        vi.len() == items@.len(),
                        forall|j: int| 0 <= j < items@.len() ==> vi[j] == items@[j]@,
                        out@ + spec_serialize_items(vi, k as int) == spec_serialize(self@),
                    decreases items@.len() - k,
                {
                    proof {
                        broadcast use vstd::std_specs::vec::group_vec_axioms;

                        assert(*self == Value::Array(*items));
                        assert(decreases_to!(*self => *items));
                        assert(decreases_to!(*items => items@));
                        assert(decreases_to!(items@ => items@[k as int]));
                        assert(decreases_to!(*self => items@[k as int]));
                    }
                    let mut piece = items[k].serialize();
                    proof {
                        assert(spec_serialize_items(vi, k as int) == spec_serialize(vi[k as int])
                            + spec_serialize_items(vi, k as int + 1));
                    }
                    out.append(&mut piece);
                    proof {
                        assert(out@ + spec_serialize_items(vi, k as int + 1) =~= spec_serialize(
                            self@,
                        ));
                    }
                    k = k + 1;
                }
                proof {
                    assert(out@ =~= spec_serialize(self@));
                }
                out
            },
        }
    }
}

/// The text a value carries, for the values that carry one.
pub open spec fn text_of(v: ValueView) -> Option<Seq<char>> {
    match v {
        ValueView::SimpleString(s) => Some(s),
        ValueView::BulkString(s) => Some(s),
        _ => None,
    }
}

impl Value {
    /// The text this value carries: the payload of a simple or bulk
    /// string, nothing for the other variants.
    pub fn value(&self) -> (r: Option<String>)
        ensures
            r matches Some(s) ==> text_of(self@) == Some(s@),
            r is None ==> text_of(self@) is None,
    {
        match self {
            Value::SimpleString(s) => Some(s.clone()),
            Value::BulkString(s) => Some(s.clone()),
            _ => None,
        }
    }
}

/// A copy of `buffer[from..to]`.
pub fn copy_range(buffer: &[u8], from: usize, to: usize) -> (r: Vec<u8>)
    requires
        from <= to <= buffer@.len(),
    ensures
        r@ == buffer@.subrange(from as int, to as int),
{
    let mut out: Vec<u8> = Vec::new();
    let mut k = from;
    while k < to
        invariant
            from <= k <= to <= buffer@.len(),
            out@ == buffer@.subrange(from as int, k as int),
        decreases to - k,
    {
        out.push(buffer[k]);
        k = k + 1;
        proof {
            assert(out@ =~= buffer@.subrange(from as int, k as int));
        }
    }
    out
}

/// Scan for the first CRLF pair at or after `start`; hand back the bytes
/// between `start` and the pair, and how many bytes that line takes on
/// the wire, terminator included.
pub fn read_until_crlf(buffer: &[u8], start: usize) -> (r: Option<(Vec<u8>, usize)>)
    requires
        start <= buffer@.len(),
    ensures
        r matches Some((line, len)) ==> {
            &&& find_crlf(buffer@, start as int) == Some(start + line@.len())
            &&& line@ == buffer@.subrange(start as int, start + line@.len())
            &&& len == line@.len() + 2
        },
        r is None ==> find_crlf(buffer@, start as int) is None,
{
    let n = buffer.len();
    let mut j = start;
    loop
        invariant
            start <= j <= n,
            n == buffer@.len(),
            find_crlf(buffer@, start as int) == find_crlf(buffer@, j as int),
        decreases n - j,
    {
        if j >= n || j + 1 >= n {
            return None;
        }
        if buffer[j] == 13 && buffer[j + 1] == 10 {
            let line = copy_range(buffer, start, j);
            return Some((line, j - start + 2));
        }
        j = j + 1;
    }
}

/// Parse the bytes as a signed decimal integer, as the body of a length
/// or count header.
pub fn parse_int(buffer: &[u8]) -> (r: Result<i64, ProtocolError>)
    ensures
        r matches Ok(v) ==> spec_parse_i64(buffer@) == Some(v),
        r is Err ==> spec_parse_i64(buffer@) is None && r == Err::<i64, ProtocolError>(
            ProtocolError::Malformed,
        ),
{
    let n = buffer.len();
    if n == 0 {
        return Err(ProtocolError::Malformed);
    }
    let b0 = buffer[0];
    let mut i: usize = 0;
    let mut neg = false;
    if b0 == 43 {
        i = 1;
    } else if b0 == 45 {
        neg = true;
        i = 1;
    }
    if i >= n {
        return Err(ProtocolError::Malformed);
    }
    let ghost digits = crate::num::int_digits(buffer@);
    proof {
        assert(digits =~= buffer@.subrange(i as int, n as int));
    }
    let limit: u128 = if neg {
        9223372036854775808
    } else {
        9223372036854775807
    };
    let mut acc: u128 = 0;
    let mut j = i;
    while j < n
        invariant
            i <= j <= n,
            n == buffer@.len(),
            i == 1 <==> (buffer@[0] == 43 || buffer@[0] == 45),
            neg <==> (buffer@[0] == 45),
            digits == buffer@.subrange(i as int, n as int),
            digits == crate::num::int_digits(buffer@),
            crate::num::all_digits(digits.take(j - i)),
            acc == crate::num::dec_value(digits.take(j - i)),
            limit == if neg {
                9223372036854775808u128
            } else {
                9223372036854775807u128
            },
            acc <= limit,
        decreases n - j,
    {
        let b = buffer[j];
        if b < 48 || b > 57 {
            proof {
                assert(digits[j - i] == buffer@[j as int]);
                assert(!crate::num::is_digit(digits[j - i]));
                assert(!crate::num::all_digits(digits));
                assert(!crate::num::is_int_literal(buffer@));
            }
            return Err(ProtocolError::Malformed);
        }
        let d = (b - 48) as u128;
        let next = acc * 10 + d;
        proof {
            assert(digits.take(j - i + 1).drop_last() =~= digits.take(j - i));
            assert(crate::num::dec_value(digits.take(j - i + 1)) == acc * 10 + d);
        }
        if next > limit {
            proof {
                if crate::num::is_int_literal(buffer@) {
                    crate::num::lemma_dec_value_prefix_le(digits, j - i + 1);
                    assert(crate::num::dec_value(digits) >= next);
                    assert(crate::num::int_value(buffer@) == crate::num::int_sign(buffer@)
                        * crate::num::dec_value(digits));
                    if neg {
                        assert(crate::num::int_value(buffer@) < i64::MIN);
                    } else {
                        assert(crate::num::int_value(buffer@) > i64::MAX);
                    }
                }
                assert(spec_parse_i64(buffer@) is None);
            }
            return Err(ProtocolError::Malformed);
        }
        acc = next;
        j = j + 1;
    }
    proof {
        assert(digits.take(n - i) =~= digits);
        assert(crate::num::is_int_literal(buffer@));
    }
    if neg {
        if acc == 9223372036854775808 {
            Ok(i64::MIN)
        } else {
            Ok(-(acc as i64))
        }
    } else {
        Ok(acc as i64)
    }
}

/// The parser functions return the value together with the position just
/// past its frame, exactly as `spec_parse` describes.
pub open spec fn parses_to(b: Seq<u8>, pos: int, r: Result<(Value, usize), ProtocolError>) -> bool {
    match r {
        Ok((v, end)) => spec_parse(b, pos) == Ok::<(ValueView, int), ProtocolError>(
            (v@, end as int),
        ) && pos < end <= b.len(),
        Err(e) => spec_parse(b, pos) == Err::<(ValueView, int), ProtocolError>(e),
    }
}

/// Parse a simple string or simple error frame whose tag stands at `pos`.
pub fn parse_simple_string(bytes: &[u8], pos: usize) -> (r: Result<(Value, usize), ProtocolError>)
    requires
        pos < bytes@.len(),
        bytes@[pos as int] == 43,
    ensures
        parses_to(bytes@, pos as int, r),
    decreases bytes@.len() - pos, 1int, 0int,
{
    let n = bytes.len();
    match read_until_crlf(bytes, pos + 1) {
        None => Err(ProtocolError::Incomplete),
        Some((line, len)) => {
            proof {
                lemma_find_crlf(bytes@, pos + 1);
                assert(pos + 1 + len <= n);
            }
            let end = pos + 1 + len;
            match crate::text::bytes_to_string(line) {
                None => Err(ProtocolError::Malformed),
                Some(s) => Ok((Value::SimpleString(s), end)),
            }
        },
    }
}

/// Parse a bulk string frame whose tag stands at `pos`.
pub fn parse_bulk_string(bytes: &[u8], pos: usize) -> (r: Result<(Value, usize), ProtocolError>)
    requires
        pos < bytes@.len(),
        bytes@[pos as int] == 36,
    ensures
        parses_to(bytes@, pos as int, r),
    decreases bytes@.len() - pos, 1int, 0int,
{
    let n = bytes.len();
    match read_until_crlf(bytes, pos + 1) {
        None => Err(ProtocolError::Incomplete),
        Some((line, len)) => {
            proof {
                lemma_find_crlf(bytes@, pos + 1);
            }
            match parse_int(line.as_slice()) {
                Err(_) => Err(ProtocolError::Malformed),
                Ok(l) => {
                    if l < 0 {
                        Err(ProtocolError::Malformed)
                    } else {
                        let start = pos + 1 + len;
                        if (l as u64) > ((n - start) as u64) {
                            Err(ProtocolError::Incomplete)
                        } else {
                            let end = start + (l as usize);
                            if n - end < 2 {
                                Err(ProtocolError::Incomplete)
                            } else if !(bytes[end] == 13 && bytes[end + 1] == 10) {
                                Err(ProtocolError::Malformed)
                            } else {
                                let body = copy_range(bytes, start, end);
                                match crate::text::bytes_to_string(body) {
                                    None => Err(ProtocolError::Malformed),
                                    Some(s) => Ok((Value::BulkString(s), end + 2)),
                                }
                            }
                        }
                    }
                },
            }
        },
    }
}

/// Parse an array frame whose tag stands at `pos`.
pub fn parse_array(bytes: &[u8], pos: usize) -> (r: Result<(Value, usize), ProtocolError>)
    requires
        pos < bytes@.len(),
        bytes@[pos as int] == 42,
    ensures
        parses_to(bytes@, pos as int, r),
    decreases bytes@.len() - pos, 1int, 0int,
{
    let n = bytes.len();
    match read_until_crlf(bytes, pos + 1) {
        None => Err(ProtocolError::Incomplete),
        Some((line, len)) => {
            proof {
                lemma_find_crlf(bytes@, pos + 1);
                assert(pos + 1 + len <= n);
            }
            match parse_int(line.as_slice()) {
                Err(_) => Err(ProtocolError::Malformed),
                Ok(c) => {
                    if c < 0 {
                        Err(ProtocolError::Malformed)
                    } else {
                        match parse_items(bytes, pos + 1 + len, c as u64) {
                            Err(e) => Err(e),
                            Ok((vals, end)) => Ok((Value::Array(vals), end)),
                        }
                    }
                },
            }
        },
    }
}

/// Parse `count` frames back to back, the first starting at `pos`.
pub fn parse_items(bytes: &[u8], pos: usize, count: u64) -> (r: Result<
    (Vec<Value>, usize),
    ProtocolError,
>)
    requires
        pos <= bytes@.len(),
    ensures
        r matches Ok((vals, end)) ==> spec_parse_items(bytes@, pos as int, count as int)
            == Ok::<(Seq<ValueView>, int), ProtocolError>((view_items(vals@, 0), end as int)) && pos
            <= end <= bytes@.len(),
        r matches Err(e) ==> spec_parse_items(bytes@, pos as int, count as int) == Err::<
            (Seq<ValueView>, int),
            ProtocolError,
        >(e),
    decreases bytes@.len() - pos, 3int, 0int,
{
    if count == 0 {
        let vals: Vec<Value> = Vec::new();
        proof {
            assert(view_items(vals@, 0) =~= Seq::<ValueView>::empty());
        }
        return Ok((vals, pos));
    }
    match parse_message(bytes, pos) {
        Err(e) => Err(e),
        Ok((v, end1)) => match parse_items(bytes, end1, count - 1) {
            Err(e) => Err(e),
            Ok((rest, end)) => {
                let ghost oldr = rest@;
                let mut rest = rest;
                rest.insert(0, v);
                proof {
                    oldr.insert_ensures(0, v);
                    lemma_view_items(rest@, 0);
                    lemma_view_items(oldr, 0);
                    assert forall|k: int| 0 <= k < rest@.len() implies view_items(rest@, 0)[k] == (
                    seq![v@] + view_items(oldr, 0))[k] by {
                        assert(view_items(rest@, 0)[k] == rest@[k]@);
                        if k > 0 {
                            assert(rest@[k] == oldr[k - 1]);
                            assert(view_items(oldr, 0)[k - 1] == oldr[k - 1]@);
                        }
                    }
                    assert(view_items(rest@, 0) =~= seq![v@] + view_items(oldr, 0));
                }
                Ok((rest, end))
            },
        },
    }
}

/// Parse the frame that starts at `pos`, dispatching on its tag byte.
pub fn parse_message(bytes: &[u8], pos: usize) -> (r: Result<(Value, usize), ProtocolError>)
    requires
        pos <= bytes@.len(),
    ensures
        parses_to(bytes@, pos as int, r),
    decreases bytes@.len() - pos, 2int, 0int,
{
    if pos >= bytes.len() {
        return Err(ProtocolError::Incomplete);
    }
    let tag = bytes[pos];
    if tag == 43 {
        parse_simple_string(bytes, pos)
    } else if tag == 36 {
        parse_bulk_string(bytes, pos)
    } else if tag == 42 {
        parse_array(bytes, pos)
    } else {
        Err(ProtocolError::Malformed)
    }
}

/// Parse the first frame in the buffer: the value and how many bytes of
/// the buffer it takes.
pub fn parse(bytes: &[u8]) -> (r: Result<(Value, usize), ProtocolError>)
    ensures
        r matches Ok((v, n)) ==> spec_parse(bytes@, 0) == Ok::<(ValueView, int), ProtocolError>(
            (v@, n as int),
        ) && 0 < n <= bytes@.len(),
        r matches Err(e) ==> spec_parse(bytes@, 0) == Err::<(ValueView, int), ProtocolError>(e),
{
    parse_message(bytes, 0)
}

/// A text without a CRLF character pair anywhere in it.
pub open spec fn no_crlf(s: Seq<char>) -> bool {
    forall|i: int| 0 <= i && i + 1 < s.len() ==> !((#[trigger] s[i]) == '\r' && s[i + 1] == '\n')
}

/// The values the round-trip law speaks of: simple strings whose text
/// holds no CRLF pair, ASCII bulk strings (their length header counts
/// characters, which only matches the bytes on the wire for ASCII), and
/// arrays of such values, with sizes a length header can carry.
pub open spec fn round_trippable(v: ValueView) -> bool
    decreases v, 0int, 0int,
{
    match v {
        ValueView::SimpleString(s) => no_crlf(s),
        ValueView::BulkString(s) => is_ascii_chars(s) && s.len() <= i64::MAX,
        ValueView::Array(items) => items.len() <= i64::MAX && round_trippable_items(items, 0),
        _ => false,
    }
}

pub open spec fn round_trippable_items(items: Seq<ValueView>, i: int) -> bool
    decreases items, 1int, items.len() - i,
{
    if i < 0 || i >= items.len() {
        true
    } else {
        round_trippable(items[i]) && round_trippable_items(items, i + 1)
    }
}

/// The UTF-8 bytes of one character: an ASCII character is its own
/// single byte; any other character encodes to bytes that all have the
/// high bit set.
proof fn lemma_encode_scalar_bytes(c: char)
    ensures
        ({
            let e = encode_scalar(c as u32);
            &&& 1 <= e.len() <= 4
            &&& ((c as u32) < 128 ==> e == seq![c as u8])
            &&& ((c as u32) >= 128 ==> forall|k: int| 0 <= k < e.len() ==> (#[trigger] e[k]) >= 128)
        }),
{
    char_is_scalar(c);
    let u = c as u32;
    let e = encode_scalar(u);
    if u < 128 {
        assert((u & 0x7F) as u8 == u as u8) by (bit_vector)
            requires
                u < 128,
        ;
        assert(e =~= seq![c as u8]);
    } else {
        assert((0x80 | (u & 0x3F) as u8) >= 128) by (bit_vector);
        assert((0x80 | ((u >> 6) & 0x3F) as u8) >= 128) by (bit_vector);
        assert((0x80 | ((u >> 12) & 0x3F) as u8) >= 128) by (bit_vector);
        assert((0xC0 | ((u >> 6) & 0x1F) as u8) >= 128) by (bit_vector);
        assert((0xE0 | ((u >> 12) & 0x0F) as u8) >= 128) by (bit_vector);
        assert((0xF0 | ((u >> 18) & 0x7) as u8) >= 128) by (bit_vector);
    }
}

/// The UTF-8 bytes of a text without a CRLF character pair hold no CRLF
/// byte pair either: the bytes 13 and 10 only ever stand for the
/// characters themselves.
proof fn lemma_encode_no_crlf(s: Seq<char>)
    requires
        no_crlf(s),
    ensures
        forall|k: int|
            0 <= k && k + 1 < encode_utf8(s).len() ==> !((#[trigger] encode_utf8(s)[k]) == 13
                && encode_utf8(s)[k + 1] == 10),
    decreases s.len(),
{
    if s.len() > 0 {
        let e0 = encode_scalar(s[0] as u32);
        let t = s.drop_first();
        let rest = encode_utf8(t);
        let enc = encode_utf8(s);
        lemma_encode_scalar_bytes(s[0]);
        assert(no_crlf(t)) by {
            assert(forall|i: int| 0 <= i && i + 1 < t.len() ==> (#[trigger] t[i]) == s[i + 1]);
        }
        lemma_encode_no_crlf(t);
        assert forall|k: int| 0 <= k && k + 1 < enc.len() implies !((#[trigger] enc[k]) == 13
            && enc[k + 1] == 10) by {
            if enc[k] == 13 && enc[k + 1] == 10 {
                if k + 1 < e0.len() {
                    assert(e0[k] == 13 && e0[k + 1] == 10);
                    assert(s[0] as u32 >= 128);
                } else if k < e0.len() {
                    assert(e0[k] == 13);
                    let u = s[0] as u32;
                    assert(u < 128) by {
                        if u >= 128 {
                            assert(e0[k] >= 128);
                        }
                    }
                    assert(k == 0 && e0[0] == ((u & 0x7F) as u8));
                    assert(u == 13) by (bit_vector)
                        requires
                            u < 128,
                            ((u & 0x7F) as u8) == 13,
                    ;
                    char_u32_cast(s[0], 13);
                    char_u32_cast('\r', 13);
                    assert(t.len() > 0);
                    assert(rest[0] == 10);
                    lemma_encode_scalar_bytes(t[0]);
                    assert(rest[0] == encode_scalar(t[0] as u32)[0]);
                    let w = t[0] as u32;
                    assert(w < 128) by {
                        if w >= 128 {
                            assert(encode_scalar(w)[0] >= 128);
                        }
                    }
                    assert(encode_scalar(w)[0] == ((w & 0x7F) as u8));
                    assert(w == 10) by (bit_vector)
                        requires
                            w < 128,
                            ((w & 0x7F) as u8) == 10,
                    ;
                    char_u32_cast(t[0], 10);
                    char_u32_cast('\n', 10);
                    assert(s[0] == '\r' && s[1] == '\n');
                } else {
                    assert(rest[k - e0.len()] == 13 && rest[k - e0.len() + 1] == 10);
                }
            }
        }
    }
}

/// Decimal digit bytes are never the CR byte.
proof fn lemma_digits_not_cr(n: int)
    requires
        0 <= n,
    ensures
        forall|k: int| 0 <= k < dec_bytes(n).len() ==> (#[trigger] dec_bytes(n)[k]) != 13,
{
    crate::num::lemma_dec_bytes(n);
}

/// Parsing from `pos` in a buffer that carries the wire bytes of `v`
/// there reads back exactly `v` and stops right after them, whatever
/// follows.
#[verifier::rlimit(60)]
pub proof fn lemma_parse_serialize(v: ValueView, b: Seq<u8>, pos: int)
    requires
        round_trippable(v),
        0 <= pos,
        pos + spec_serialize(v).len() <= b.len(),
        b.subrange(pos, pos + spec_serialize(v).len() as int) == spec_serialize(v),
    ensures
        spec_parse(b, pos) == Ok::<(ValueView, int), ProtocolError>(
            (v, pos + spec_serialize(v).len()),
        ),
    decreases v, 0int, 0int,
{
    let ser = spec_serialize(v);
    let len = ser.len() as int;
    assert forall|t: int| pos <= t < pos + len implies #[trigger] b[t] == ser[t - pos] by {
        assert(b.subrange(pos, pos + len)[t - pos] == b[t]);
    }
    match v {
        ValueView::SimpleString(s) => {
            let enc = encode_utf8(s);
            lemma_encode_no_crlf(s);
            let j = pos + 1 + enc.len() as int;
            assert(b[pos] == 43);
            assert(b[j] == 13 && b[j + 1] == 10);
            assert forall|k: int| pos + 1 <= k < j implies !(#[trigger] b[k] == 13 && b[k + 1]
                == 10) by {
                if k < j - 1 {
                    assert(b[k] == enc[k - pos - 1] && b[k + 1] == enc[k - pos]);
                } else {
                    assert(b[k + 1] == 13);
                }
            }
            lemma_find_crlf_at(b, pos + 1, j);
            assert(b.subrange(pos + 1, j) =~= enc);
            encode_utf8_valid_utf8(s);
            encode_utf8_decode_utf8(s);
        },
        ValueView::BulkString(s) => {
            let enc = encode_utf8(s);
            is_ascii_chars_encode_utf8(s);
            let d = dec_bytes(s.len() as int);
            crate::num::lemma_dec_bytes(s.len() as int);
            lemma_digits_not_cr(s.len() as int);
            let j = pos + 1 + d.len() as int;
            assert(b[pos] == 36);
            assert(b[j] == 13 && b[j + 1] == 10);
            assert forall|k: int| pos + 1 <= k < j implies !(#[trigger] b[k] == 13 && b[k + 1]
                == 10) by {
                assert(b[k] == d[k - pos - 1]);
            }
            lemma_find_crlf_at(b, pos + 1, j);
            assert(b.subrange(pos + 1, j) =~= d);
            crate::num::lemma_parse_dec_bytes(s.len() as int);
            let start = j + 2;
            let end = start + s.len() as int;
            assert(b[end] == 13 && b[end + 1] == 10);
            assert(b.subrange(start, end) =~= enc);
            encode_utf8_valid_utf8(s);
            encode_utf8_decode_utf8(s);
            assert(spec_parse(b, pos) == Ok::<(ValueView, int), ProtocolError>(
                (ValueView::BulkString(s), end + 2),
            ));
        },
        ValueView::Array(items) => {
            let d = dec_bytes(items.len() as int);
            crate::num::lemma_dec_bytes(items.len() as int);
            lemma_digits_not_cr(items.len() as int);
            let j = pos + 1 + d.len() as int;
            assert(b[pos] == 42);
            assert(b[j] == 13 && b[j + 1] == 10);
            assert forall|k: int| pos + 1 <= k < j implies !(#[trigger] b[k] == 13 && b[k + 1]
                == 10) by {
                assert(b[k] == d[k - pos - 1]);
            }
            lemma_find_crlf_at(b, pos + 1, j);
            assert(b.subrange(pos + 1, j) =~= d);
            crate::num::lemma_parse_dec_bytes(items.len() as int);
            let start = j + 2;
            let inner = spec_serialize_items(items, 0);
            assert(b.subrange(start, start + inner.len() as int) =~= inner);
            lemma_parse_serialize_items(items, 0, b, start);
            assert(items.skip(0) =~= items);
            assert(spec_parse_items(b, start, items.len() as int) == Ok::<
                (Seq<ValueView>, int),
                ProtocolError,
            >((items, start + inner.len())));
        },
        _ => {},
    }
}

/// Parsing `items.len() - i` frames from a buffer that carries the wire
/// bytes of `items[i..]` reads back exactly those values.
pub proof fn lemma_parse_serialize_items(items: Seq<ValueView>, i: int, b: Seq<u8>, pos: int)
    requires
        0 <= i <= items.len(),
        round_trippable_items(items, i),
        0 <= pos,
        pos + spec_serialize_items(items, i).len() <= b.len(),
        b.subrange(pos, pos + spec_serialize_items(items, i).len() as int) == spec_serialize_items(
            items,
            i,
        ),
    ensures
        spec_parse_items(b, pos, items.len() - i) == Ok::<(Seq<ValueView>, int), ProtocolError>(
            (items.skip(i), pos + spec_serialize_items(items, i).len()),
        ),
    decreases items, 1int, items.len() - i,
{
    if i == items.len() {
        assert(items.skip(i) =~= Seq::<ValueView>::empty());
    } else {
        let ser0 = spec_serialize(items[i]);
        let rest = spec_serialize_items(items, i + 1);
        let whole = spec_serialize_items(items, i);
        assert(whole == ser0 + rest);
        assert forall|t: int| pos <= t < pos + whole.len() implies #[trigger] b[t] == whole[t
            - pos] by {
            assert(b.subrange(pos, pos + whole.len() as int)[t - pos] == b[t]);
        }
        assert(b.subrange(pos, pos + ser0.len() as int) =~= ser0);
        lemma_parse_serialize(items[i], b, pos);
        let mid = pos + ser0.len() as int;
        assert(ser0.len() >= 1) by {
            match items[i] {
                ValueView::SimpleString(s) => {},
                ValueView::BulkString(s) => {},
                ValueView::NullBulk => {},
                ValueView::SimpleError(s) => {},
                ValueView::Array(more) => {},
            }
        }
        assert(b.subrange(mid, mid + rest.len() as int) =~= rest);
        lemma_parse_serialize_items(items, i + 1, b, mid);
        assert(seq![items[i]] + items.skip(i + 1) =~= items.skip(i));
    }
}

/// Round trip: parsing the wire bytes of a value reconstructs it and
/// consumes exactly their length.
pub proof fn lemma_round_trip(v: ValueView)
    requires
        round_trippable(v),
    ensures
        spec_parse(spec_serialize(v), 0) == Ok::<(ValueView, int), ProtocolError>(
            (v, spec_serialize(v).len() as int),
        ),
{
    let b = spec_serialize(v);
    assert(b.subrange(0, b.len() as int) =~= b);
    lemma_parse_serialize(v, b, 0);
}

} // verus!
