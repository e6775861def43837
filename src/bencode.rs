use vstd::prelude::*;
use crate::error::Error;
use crate::text::string_from_utf8;
use vstd::string::StringSliceAdditionalSpecFns;

verus! {

/// Byte that opens an integer.
pub const TAG_INT: u8 = 105;
/// Byte that opens a list.
pub const TAG_LIST: u8 = 108;
/// Byte that opens a dictionary.
pub const TAG_DICT: u8 = 100;
/// Byte that closes an integer, a list or a dictionary.
pub const TAG_END: u8 = 101;
/// Byte between the length of a byte string and its contents.
pub const COLON: u8 = 58;
/// Sign of a negative integer.
pub const MINUS: u8 = 45;

/// Mathematical model of a bencoded value.
pub enum Bencode {
    Int(int),
    Bytes(Seq<u8>),
    List(Seq<Bencode>),
    Dict(Seq<(Seq<u8>, Bencode)>),
}

/// A decoded bencoded value.
#[derive(Debug, PartialEq, Eq)]
pub enum Value {
    List(Vec<Value>),
    Number(i64),
    String(Vec<u8>),
    Object(Vec<(Vec<u8>, Value)>),
}

pub open spec fn items_view(vs: Seq<Value>) -> Seq<Bencode> {
    Seq::new(vs.len(), |i: int| vs[i]@)
}

pub open spec fn entries_view(ps: Seq<(Vec<u8>, Value)>) -> Seq<(Seq<u8>, Bencode)> {
    Seq::new(ps.len(), |i: int| (ps[i].0@, ps[i].1@))
}

impl View for Value {
    type V = Bencode;

    open spec fn view(&self) -> Bencode
        decreases self,
    {
        match self {
            Value::Number(n) => Bencode::Int(*n as int),
            Value::String(b) => Bencode::Bytes(b@),
            Value::List(vs) => Bencode::List(
                Seq::new(
                    vs.len() as nat,
                    |i: int|
                        if 0 <= i < vs.len() {
                            vs[i].view()
                        } else {
                            Bencode::Int(0)
                        },
                ),
            ),
            Value::Object(ps) => {
                let values = Seq::new(
                    ps@.len(),
                    |i: int|
                        if 0 <= i < ps@.len() {
                            ps@[i].1.view()
                        } else {
                            Bencode::Int(0)
                        },
                );
                Bencode::Dict(Seq::new(ps@.len(), |i: int| (ps@[i].0@, values[i])))
            },
        }
    }
}

pub open spec fn is_digit(b: u8) -> bool {
    48 <= b <= 57
}

pub open spec fn all_digits(d: Seq<u8>) -> bool {
    forall|k: int| 0 <= k < d.len() ==> is_digit(#[trigger] d[k])
}

/// The number that a sequence of ASCII decimal digits writes.
pub open spec fn digits_value(d: Seq<u8>) -> nat
    decreases d.len(),
{
    if d.len() == 0 {
        0
    } else {
        digits_value(d.drop_last()) * 10 + (d.last() - 48) as nat
    }
}

/// Index of the first byte equal to `b` at or after `i`; the length of `s` where there is none.
pub open spec fn scan_to(s: Seq<u8>, i: int, b: u8) -> int
    decreases s.len() - i,
{
    if i < 0 || i >= s.len() {
        s.len() as int
    } else if s[i] == b {
        i
    } else {
        scan_to(s, i + 1, b)
    }
}

/// The integer written by the text between `i` and `e`: an optional minus sign and at least
/// one decimal digit, within the range of `i64`.
pub open spec fn int_of(d: Seq<u8>) -> Option<int> {
    if d.len() > 0 && d[0] == MINUS {
        let m = d.drop_first();
        if m.len() > 0 && all_digits(m) && digits_value(m) <= 9223372036854775808 {
            Some(-digits_value(m))
        } else {
            None
        }
    } else if d.len() > 0 && all_digits(d) && digits_value(d) <= 9223372036854775807 {
        Some(digits_value(d) as int)
    } else {
        None
    }
}

/// `i<decimal>e`, where `i` is the position just after the opening `i`.
pub open spec fn parse_number(s: Seq<u8>, i: int) -> Option<(Bencode, int)> {
    let e = scan_to(s, i, TAG_END);
    if e >= s.len() {
        None
    } else {
        match int_of(s.subrange(i, e)) {
            Some(n) => Some((Bencode::Int(n), e + 1)),
            None => None,
        }
    }
}

/// `<len>:<bytes>`, where `i` is the position of the first digit of the length.
pub open spec fn parse_bytes(s: Seq<u8>, i: int) -> Option<(Bencode, int)> {
    let c = scan_to(s, i, COLON);
    if c >= s.len() || !all_digits(s.subrange(i, c)) || c == i {
        None
    } else {
        let n = digits_value(s.subrange(i, c));
        if c + 1 + n <= s.len() {
            Some((Bencode::Bytes(s.subrange(c + 1, c + 1 + n)), c + 1 + n))
        } else {
            None
        }
    }
}

/// Position of the first entry with key `k` at or after `j`; the length where there is none.
pub open spec fn key_position<V>(es: Seq<(Seq<u8>, V)>, k: Seq<u8>, j: int) -> int
    decreases es.len() - j,
{
    if j < 0 || j >= es.len() {
        es.len() as int
    } else if es[j].0 == k {
        j
    } else {
        key_position(es, k, j + 1)
    }
}

/// Adds an entry to a dictionary: a key that is present already gets the new value in its place.
pub open spec fn put_entry(es: Seq<(Seq<u8>, Bencode)>, k: Seq<u8>, v: Bencode) -> Seq<
    (Seq<u8>, Bencode),
> {
    let p = key_position(es, k, 0);
    if p < es.len() {
        es.update(p, (k, v))
    } else {
        es.push((k, v))
    }
}

/// The value that starts at position `i` of `s`, and the position just after it.
pub open spec fn parse_value(s: Seq<u8>, i: int) -> Option<(Bencode, int)>
    decreases s.len() - i, 0int,
{
    if i < 0 || i >= s.len() {
        None
    } else if is_digit(s[i]) {
        parse_bytes(s, i)
    } else if s[i] == TAG_INT {
        parse_number(s, i + 1)
    } else if s[i] == TAG_LIST {
        match parse_items(s, i + 1, Seq::empty()) {
            Some((xs, j)) => Some((Bencode::List(xs), j)),
            None => None,
        }
    } else if s[i] == TAG_DICT {
        match parse_entries(s, i + 1, Seq::empty()) {
            Some((es, j)) => Some((Bencode::Dict(es), j)),
            None => None,
        }
    } else {
        None
    }
}

/// The items of a list from position `i` up to its closing `e`, after those in `acc`.
pub open spec fn parse_items(s: Seq<u8>, i: int, acc: Seq<Bencode>) -> Option<(Seq<Bencode>, int)>
    decreases s.len() - i, 1int,
{
    if i < 0 || i >= s.len() {
        None
    } else if s[i] == TAG_END {
        Some((acc, i + 1))
    } else {
        match parse_value(s, i) {
            Some((v, j)) => if i < j <= s.len() {
                parse_items(s, j, acc.push(v))
            } else {
                None
            },
            None => None,
        }
    }
}

/// The entries of a dictionary from position `i` up to its closing `e`, put into `acc`.
/// A key that the closing `e` follows directly has no value and is left out.
pub open spec fn parse_entries(
    s: Seq<u8>,
    i: int,
    acc: Seq<(Seq<u8>, Bencode)>,
) -> Option<(Seq<(Seq<u8>, Bencode)>, int)>
    decreases s.len() - i, 1int,
{
    if i < 0 || i >= s.len() {
        None
    } else if s[i] == TAG_END {
        Some((acc, i + 1))
    } else {
        match parse_value(s, i) {
            Some((Bencode::Bytes(k), j)) => if !(i < j <= s.len()) {
                None
            } else if j < s.len() && s[j] == TAG_END {
                Some((acc, j + 1))
            } else {
                match parse_value(s, j) {
                    Some((v, m)) => if j < m <= s.len() {
                        parse_entries(s, m, put_entry(acc, k, v))
                    } else {
                        None
                    },
                    None => None,
                }
            },
            _ => None,
        }
    }
}

/// The value that a whole input decodes to; bytes after it are not read.
pub open spec fn decode_spec(s: Seq<u8>) -> Option<Bencode> {
    match parse_value(s, 0) {
        Some((v, _)) => Some(v),
        None => None,
    }
}

pub open spec fn decoded_view(r: Option<(Value, usize)>) -> Option<(Bencode, int)> {
    match r {
        Some((v, j)) => Some((v@, j as int)),
        None => None,
    }
}

pub(crate) proof fn lemma_list_view(vs: Vec<Value>)
    ensures
        Value::List(vs)@ == Bencode::List(items_view(vs@)),
{
    match Value::List(vs)@ {
        Bencode::List(xs) => {
            assert(xs =~= items_view(vs@));
        },
        _ => {},
    }
}

pub(crate) proof fn lemma_object_view(ps: Vec<(Vec<u8>, Value)>)
    ensures
        Value::Object(ps)@ == Bencode::Dict(entries_view(ps@)),
{
    let v = Value::Object(ps);
    let es = v@->Dict_0;
    assert forall|i: int| 0 <= i < es.len() implies #[trigger] es[i] == entries_view(ps@)[i] by {
        let e = ps@[i];
        assert(es[i] == (e.0@, e.1@));
    }
    assert(es =~= entries_view(ps@));
}


proof fn lemma_digits_prefix(d: Seq<u8>, m: int)
    requires
        0 <= m <= d.len(),
    ensures
        digits_value(d.subrange(0, m)) <= digits_value(d),
    decreases d.len(),
{
    if m < d.len() {
        lemma_digits_prefix(d.drop_last(), m);
        assert(d.drop_last().subrange(0, m) =~= d.subrange(0, m));
    } else {
        assert(d.subrange(0, m) =~= d);
    }
}

/// Reads the decimal digits in `s[a..b]`, if all of them are digits and the number is at most
/// `limit`.
pub(crate) fn read_digits(s: &[u8], a: usize, b: usize, limit: u64) -> (r: Option<u64>)
    requires
        a <= b <= s@.len(),
    ensures
        r == (if all_digits(s@.subrange(a as int, b as int)) && digits_value(
            s@.subrange(a as int, b as int),
        ) <= limit {
            Some(digits_value(s@.subrange(a as int, b as int)) as u64)
        } else {
            None::<u64>
        }),
{
    let ghost d = s@.subrange(a as int, b as int);
    let mut acc: u64 = 0;
    let mut k: usize = a;
    while k < b
        invariant
            a <= k <= b <= s@.len(),
            d == s@.subrange(a as int, b as int),
            all_digits(s@.subrange(a as int, k as int)),
            acc as nat == digits_value(s@.subrange(a as int, k as int)),
            acc <= limit,
        decreases b - k,
    {
        let c = s[k];
        assert(d.subrange(0, (k - a) as int) =~= s@.subrange(a as int, k as int));
        assert(d.subrange(0, (k + 1 - a) as int) =~= s@.subrange(a as int, k as int + 1));
        assert(s@.subrange(a as int, k as int + 1).drop_last() =~= s@.subrange(a as int, k as int));
        if c < 48 || c > 57 {
            assert(d[(k - a) as int] == c);
            return None;
        }
        let next: u128 = acc as u128 * 10 + (c - 48) as u128;
        if next > limit as u128 {
            proof {
                if all_digits(d) {
                    lemma_digits_prefix(d, (k + 1 - a) as int);
                }
            }
            return None;
        }
        acc = next as u64;
        k = k + 1;
    }
    assert(d =~= s@.subrange(a as int, k as int));
    Some(acc)
}

/// Position of the first byte equal to `b` at or after `i`; the length where there is none.
pub(crate) fn find_byte(s: &[u8], i: usize, b: u8) -> (r: usize)
    requires
        i <= s@.len(),
    ensures
        r as int == scan_to(s@, i as int, b),
        i <= r <= s@.len(),
{
    let mut j: usize = i;
    while j < s.len() && s[j] != b
        invariant
            i <= j <= s@.len(),
            scan_to(s@, i as int, b) == scan_to(s@, j as int, b),
        decreases s@.len() - j,
    {
        j = j + 1;
    }
    j
}

/// Decodes `i<decimal>e` at `position`, which holds the `i`.
fn decode_number(input: &[u8], position: usize) -> (r: Option<(Value, usize)>)
    requires
        position < input@.len(),
        input@[position as int] == TAG_INT,
    ensures
        decoded_view(r) == parse_number(input@, position + 1),
{
    let len = input.len();
    let start = position + 1;
    let end = find_byte(input, start, TAG_END);
    if end >= len {
        return None;
    }
    let ghost d = input@.subrange(start as int, end as int);
    if start < end && input[start] == MINUS {
        assert(d.drop_first() =~= input@.subrange(start + 1, end as int));
        match read_digits(input, start + 1, end, 9223372036854775808) {
            Some(n) if start + 1 < end => {
                let value: i64 = if n == 9223372036854775808 {
                    -9223372036854775808i64
                } else {
                    -(n as i64)
                };
                Some((Value::Number(value), end + 1))
            },
            _ => None,
        }
    } else {
        match read_digits(input, start, end, 9223372036854775807) {
            Some(n) if start < end => Some((Value::Number(n as i64), end + 1)),
            _ => None,
        }
    }
}

/// Decodes `<len>:<bytes>` at `position`, which holds the first digit of the length.
fn decode_string(input: &[u8], position: usize) -> (r: Option<(Value, usize)>)
    requires
        position < input@.len(),
        is_digit(input@[position as int]),
    ensures
        decoded_view(r) == parse_bytes(input@, position as int),
{
    let colon = find_byte(input, position, COLON);
    if colon >= input.len() || colon == position {
        return None;
    }
    match read_digits(input, position, colon, input.len() as u64) {
        None => {
            None
        },
        Some(n) => {
            let n = n as usize;
            if n > input.len() - (colon + 1) {
                return None;
            }
            let start = colon + 1;
            let stop = start + n;
            let mut bytes: Vec<u8> = Vec::new();
            let mut k: usize = start;
            while k < stop
                invariant
                    start <= k <= stop <= input@.len(),
                    stop == start + n,
                    bytes@ == input@.subrange(start as int, k as int),
                decreases stop - k,
            {
                bytes.push(input[k]);
                k = k + 1;
                assert(bytes@ =~= input@.subrange(start as int, k as int));
            }
            Some((Value::String(bytes), stop))
        },
    }
}

/// Byte-wise equality of two byte strings.
pub(crate) fn bytes_equal(a: &[u8], b: &[u8]) -> (r: bool)
    ensures
        r == (a@ == b@),
{
    if a.len() != b.len() {
        return false;
    }
    let mut k: usize = 0;
    while k < a.len()
        invariant
            a@.len() == b@.len(),
            0 <= k <= a@.len(),
            forall|j: int| 0 <= j < k ==> a@[j] == b@[j],
        decreases a@.len() - k,
    {
        if a[k] != b[k] {
            return false;
        }
        k = k + 1;
    }
    assert(a@ =~= b@);
    true
}

/// Index of the first entry whose key is `key`; the number of entries where there is none.
fn find_entry(entries: &Vec<(Vec<u8>, Value)>, key: &[u8]) -> (r: usize)
    ensures
        r as int == key_position(entries_view(entries@), key@, 0),
{
    let ghost es = entries_view(entries@);
    let mut j: usize = 0;
    while j < entries.len()
        invariant
            0 <= j <= entries@.len(),
            es == entries_view(entries@),
            key_position(es, key@, 0) == key_position(es, key@, j as int),
        decreases entries@.len() - j,
    {
        if bytes_equal(entries[j].0.as_slice(), key) {
            return j;
        }
        j = j + 1;
    }
    j
}

/// Decodes a list at `position`, which holds the `l`.
fn decode_list(input: &[u8], position: usize) -> (r: Option<(Value, usize)>)
    requires
        position < input@.len(),
        input@[position as int] == TAG_LIST,
    ensures
        decoded_view(r) == (match parse_items(input@, position + 1, Seq::empty()) {
            Some((xs, j)) => Some((Bencode::List(xs), j)),
            None => None,
        }),
    decreases input@.len() - position - 1, 1int,
{
    let len = input.len();
    let mut items: Vec<Value> = Vec::new();
    let mut p: usize = position + 1;
    assert(items_view(items@) =~= Seq::<Bencode>::empty());
    loop
        invariant
            position < p <= input@.len(),
            len == input@.len(),
            parse_items(input@, position + 1, Seq::empty()) == parse_items(
                input@,
                p as int,
                items_view(items@),
            ),
        decreases input@.len() - p,
    {
        if p >= len {
            return None;
        }
        if input[p] == TAG_END {
            proof {
                lemma_list_view(items);
            }
            return Some((Value::List(items), p + 1));
        }
        match decode_bencoded_at_position(input, p) {
            None => {
                return None;
            },
            Some((v, j)) => {
                if j <= p || j > len {
                    return None;
                }
                let ghost before = items@;
                items.push(v);
                assert(items_view(items@) =~= items_view(before).push(v@));
                p = j;
            },
        }
    }
}

/// Decodes a dictionary at `position`, which holds the `d`.
fn decode_dictionary(input: &[u8], position: usize) -> (r: Option<(Value, usize)>)
    requires
        position < input@.len(),
        input@[position as int] == TAG_DICT,
    ensures
        decoded_view(r) == (match parse_entries(input@, position + 1, Seq::empty()) {
            Some((es, j)) => Some((Bencode::Dict(es), j)),
            None => None,
        }),
    decreases input@.len() - position - 1, 1int,
{
    let len = input.len();
    let mut entries: Vec<(Vec<u8>, Value)> = Vec::new();
    let mut p: usize = position + 1;
    assert(entries_view(entries@) =~= Seq::<(Seq<u8>, Bencode)>::empty());
    loop
        invariant
            position < p <= input@.len(),
            len == input@.len(),
            parse_entries(input@, position + 1, Seq::empty()) == parse_entries(
                input@,
                p as int,
                entries_view(entries@),
            ),
        decreases input@.len() - p,
    {
        if p >= len {
            return None;
        }
        if input[p] == TAG_END {
            proof {
                lemma_object_view(entries);
            }
            return Some((Value::Object(entries), p + 1));
        }
        let (key, after_key) = match decode_bencoded_at_position(input, p) {
            Some((Value::String(key), j)) => (key, j),
            _ => {
                return None;
            },
        };
        if after_key <= p || after_key > len {
            return None;
        }
        if after_key < len && input[after_key] == TAG_END {
            proof {
                lemma_object_view(entries);
            }
            return Some((Value::Object(entries), after_key + 1));
        }
        let (value, after_value) = match decode_bencoded_at_position(input, after_key) {
            Some(found) => found,
            None => {
                return None;
            },
        };
        if after_value <= after_key || after_value > len {
            return None;
        }
        let ghost before = entries_view(entries@);
        let ghost kv = key@;
        let ghost vv = value@;
        let at = find_entry(&entries, key.as_slice());
        if at < entries.len() {
            entries.set(at, (key, value));
        } else {
            entries.push((key, value));
        }
        assert(entries_view(entries@) =~= put_entry(before, kv, vv));
        p = after_value;
    }
}

/// Decodes the value that starts at `position`, and gives the position just after it.
fn decode_bencoded_at_position(input: &[u8], position: usize) -> (r: Option<(Value, usize)>)
    requires
        position <= input@.len(),
    ensures
        decoded_view(r) == parse_value(input@, position as int),
    decreases input@.len() - position, 0int,
{
    if position >= input.len() {
        return None;
    }
    let next_symbol = input[position];
    if 48 <= next_symbol && next_symbol <= 57 {
        decode_string(input, position)
    } else if next_symbol == TAG_INT {
        decode_number(input, position)
    } else if next_symbol == TAG_DICT {
        decode_dictionary(input, position)
    } else if next_symbol == TAG_LIST {
        decode_list(input, position)
    } else {
        None
    }
}

/// The value stored under `key` in a dictionary; nothing for a key that is absent or a value
/// that is no dictionary.
pub open spec fn dict_get(v: Bencode, key: Seq<u8>) -> Option<Bencode> {
    match v {
        Bencode::Dict(es) => {
            let p = key_position(es, key, 0);
            if p < es.len() {
                Some(es[p].1)
            } else {
                None
            }
        },
        _ => None,
    }
}

fn copy_bytes(bytes: &[u8]) -> (r: Vec<u8>)
    ensures
        r@ == bytes@,
{
    let mut out: Vec<u8> = Vec::new();
    let mut k: usize = 0;
    while k < bytes.len()
        invariant
            0 <= k <= bytes@.len(),
            out@ == bytes@.subrange(0, k as int),
        decreases bytes@.len() - k,
    {
        out.push(bytes[k]);
        k = k + 1;
        assert(out@ =~= bytes@.subrange(0, k as int));
    }
    assert(out@ =~= bytes@);
    out
}

impl Value {
    /// The value stored under `key` when this is a dictionary.
    pub fn get_by_key(&self, key: &str) -> (r: Option<&Value>)
        ensures
            match dict_get(self@, key.spec_bytes()) {
                Some(v) => r matches Some(w) && w@ == v,
                None => r is None,
            },
    {
        match self {
            Value::Object(entries) => {
                proof {
                    lemma_object_view(*entries);
                }
                let at = find_entry(entries, key.as_bytes());
                if at < entries.len() {
                    Some(&entries[at].1)
                } else {
                    None
                }
            },
            _ => None,
        }
    }

    /// The value stored under `key` when this is a dictionary, taken out of it.
    pub fn into_by_key(self, key: &str) -> (r: Option<Value>)
        ensures
            match dict_get(self@, key.spec_bytes()) {
                Some(v) => r matches Some(w) && w@ == v,
                None => r is None,
            },
    {
        match self {
            Value::Object(mut entries) => {
                proof {
                    lemma_object_view(entries);
                }
                let at = find_entry(&entries, key.as_bytes());
                if at < entries.len() {
                    let (_, value) = entries.remove(at);
                    Some(value)
                } else {
                    None
                }
            },
            _ => None,
        }
    }

    /// The text of a byte string that is valid UTF-8.
    pub fn as_string(&self) -> (r: Option<String>)
        ensures
            match self@ {
                Bencode::Bytes(b) => if vstd::utf8::valid_utf8(b) {
                    r matches Some(s) && s@ == vstd::utf8::decode_utf8(b)
                } else {
                    r is None
                },
                _ => r is None,
            },
    {
        match self {
            Value::String(bytes) => string_from_utf8(copy_bytes(bytes.as_slice())),
            _ => None,
        }
    }

    /// The bytes of a byte string.
    pub fn as_bytes(&self) -> (r: Option<Vec<u8>>)
        ensures
            match self@ {
                Bencode::Bytes(b) => r matches Some(c) && c@ == b,
                _ => r is None,
            },
    {
        match self {
            Value::String(bytes) => Some(copy_bytes(bytes.as_slice())),
            _ => None,
        }
    }

    /// The number of an integer.
    pub fn as_number(&self) -> (r: Option<i64>)
        ensures
            match self@ {
                Bencode::Int(n) => r matches Some(m) && m as int == n,
                _ => r is None,
            },
    {
        match self {
            Value::Number(n) => Some(*n),
            _ => None,
        }
    }

    /// The items of a list.
    pub fn as_values(&self) -> (r: Option<&Vec<Value>>)
        ensures
            match self@ {
                Bencode::List(xs) => r matches Some(vs) && items_view(vs@) == xs,
                _ => r is None,
            },
    {
        match self {
            Value::List(values) => {
                proof {
                    lemma_list_view(*values);
                }
                Some(values)
            },
            _ => None,
        }
    }
}

/// Decodes the bencoded value at the start of `input`; bytes after it are not read.
pub fn decode_bencoded(input: &Vec<u8>) -> (r: Result<Value, Error>)
    ensures
        match decode_spec(input@) {
            Some(v) => r matches Ok(w) && w@ == v,
            None => r == Err::<Value, Error>(Error::Decode),
        },
{
    match decode_bencoded_at_position(input.as_slice(), 0) {
        Some((value, _)) => Ok(value),
        None => Err(Error::Decode),
    }
}

/// Decodes the bencoded value at the start of the bytes of `input`.
pub fn decode_bencoded_from_str(input: &str) -> (r: Result<Value, Error>)
    ensures
        match decode_spec(input.spec_bytes()) {
            Some(v) => r matches Ok(w) && w@ == v,
            None => r == Err::<Value, Error>(Error::Decode),
        },
{
    match decode_bencoded_at_position(input.as_bytes(), 0) {
        Some((value, _)) => Ok(value),
        None => Err(Error::Decode),
    }
}

/// ASCII decimal digits of `n`, without leading zeros.
pub open spec fn decimal(n: nat) -> Seq<u8>
    decreases n,
{
    if n < 10 {
        seq![(48 + n) as u8]
    } else {
        decimal(n / 10).push((48 + n % 10) as u8)
    }
}

/// Bencoding of a byte string.
pub open spec fn bytes_encoding(b: Seq<u8>) -> Seq<u8> {
    decimal(b.len()) + seq![COLON] + b
}

/// Bencoding of a non-negative integer.
pub open spec fn int_encoding(n: nat) -> Seq<u8> {
    seq![TAG_INT] + decimal(n) + seq![TAG_END]
}

/// Appends the decimal digits of `n`.
pub fn push_decimal(out: &mut Vec<u8>, n: u64)
    ensures
        final(out)@ == old(out)@ + decimal(n as nat),
    decreases n,
{
    if n >= 10 {
        push_decimal(out, n / 10);
    }
    let digit: u8 = (48 + n % 10) as u8;
    out.push(digit);
    proof {
        if n < 10 {
            assert(decimal(n as nat) =~= seq![digit]);
        }
    }
    assert(final(out)@ =~= old(out)@ + decimal(n as nat));
}

/// Appends the bencoding of a byte string.
pub fn push_bytes(out: &mut Vec<u8>, b: &[u8])
    ensures
        final(out)@ == old(out)@ + bytes_encoding(b@),
{
    push_decimal(out, b.len() as u64);
    out.push(COLON);
    let ghost mid = out@;
    let mut k: usize = 0;
    while k < b.len()
        invariant
            0 <= k <= b@.len(),
            out@ == mid + b@.subrange(0, k as int),
        decreases b@.len() - k,
    {
        out.push(b[k]);
        k = k + 1;
        assert(out@ =~= mid + b@.subrange(0, k as int));
    }
    assert(b@.subrange(0, k as int) =~= b@);
    assert(final(out)@ =~= old(out)@ + bytes_encoding(b@));
}

/// Appends the bencoding of a non-negative integer.
pub fn push_int(out: &mut Vec<u8>, n: u64)
    ensures
        final(out)@ == old(out)@ + int_encoding(n as nat),
{
    out.push(TAG_INT);
    push_decimal(out, n);
    out.push(TAG_END);
    assert(final(out)@ =~= old(out)@ + int_encoding(n as nat));
}

} // verus!
