//! The bencode reader: byte strings, integers, lists and dictionaries.
use vstd::prelude::*;

use crate::decimal::{is_digit, parse_i64_digits, parse_usize_digits, spec_parse_i64, spec_parse_usize};
use crate::errors::{AppError, BencodeError};

verus! {

/// A bencoded value. A dictionary holds its entries as a list, in the order
/// of its keys, which the reader insists be strictly increasing. Nothing
/// sorts the list: `encode` writes the entries in list order, so a dictionary
/// built out of key order (or with a key twice) encodes to bytes that `parse`
/// refuses, and the round-trip laws hold for well-formed values only (see
/// `utils::well_formed`).
#[derive(Debug, PartialEq, Eq)]
pub enum BencodeValue {
    String(Vec<u8>),
    Integer(i64),
    List(Vec<BencodeValue>),
    Dictionary(Vec<(Vec<u8>, BencodeValue)>),
}

/// The mathematical model of a bencoded value.
pub enum Bencode {
    Str(Seq<u8>),
    Int(i64),
    List(Seq<Bencode>),
    Dict(Seq<(Seq<u8>, Bencode)>),
}

pub open spec fn value_model(v: BencodeValue) -> Bencode
    decreases v, 0int,
{
    match v {
        BencodeValue::String(s) => Bencode::Str(s@),
        BencodeValue::Integer(i) => Bencode::Int(i),
        BencodeValue::List(l) => Bencode::List(list_model(l@)),
        BencodeValue::Dictionary(d) => Bencode::Dict(dict_model(d@)),
    }
}

pub open spec fn list_model(s: Seq<BencodeValue>) -> Seq<Bencode>
    decreases s, 0int,
{
    if s.len() == 0 {
        Seq::empty()
    } else {
        list_model(s.drop_last()).push(value_model(s.last()))
    }
}

pub open spec fn dict_model(s: Seq<(Vec<u8>, BencodeValue)>) -> Seq<(Seq<u8>, Bencode)>
    decreases s, 0int,
{
    if s.len() == 0 {
        Seq::empty()
    } else {
        dict_model(s.drop_last()).push((s.last().0@, value_model(s.last().1)))
    }
}

impl View for BencodeValue {
    type V = Bencode;

    open spec fn view(&self) -> Bencode {
        value_model(*self)
    }
}

/// The model of a list holds the model of each item, in order.
pub proof fn lemma_list_model(s: Seq<BencodeValue>)
    ensures
        list_model(s).len() == s.len(),
        forall|i: int| 0 <= i < s.len() ==> #[trigger] list_model(s)[i] == value_model(s[i]),
    decreases s.len(),
{
    if s.len() > 0 {
        lemma_list_model(s.drop_last());
    }
}

/// The model of a dictionary holds the model of each entry, in order.
pub proof fn lemma_dict_model(s: Seq<(Vec<u8>, BencodeValue)>)
    ensures
        dict_model(s).len() == s.len(),
        forall|i: int|
            0 <= i < s.len() ==> #[trigger] dict_model(s)[i] == (s[i].0@, value_model(s[i].1)),
    decreases s.len(),
{
    if s.len() > 0 {
        lemma_dict_model(s.drop_last());
    }
}

/// Lexicographic order on byte strings, as `Vec<u8>` compares them.
pub open spec fn bytes_lt(a: Seq<u8>, b: Seq<u8>) -> bool
    decreases a.len(),
{
    if a.len() == 0 {
        b.len() > 0
    } else if b.len() == 0 {
        false
    } else if a[0] != b[0] {
        a[0] < b[0]
    } else {
        bytes_lt(a.drop_first(), b.drop_first())
    }
}

/// Byte strings are ordered as `Vec<u8>` orders them: a string comes before
/// every longer string that it begins, and not before any string that it
/// is, or that begins it.
pub proof fn law_bytes_lt_on_prefixes(a: Seq<u8>, b: Seq<u8>)
    ensures
        a.len() <= b.len() && b.take(a.len() as int) == a ==> (bytes_lt(a, b) <==> a.len()
            < b.len()),
        b.len() <= a.len() && a.take(b.len() as int) == b ==> !bytes_lt(a, b),
    decreases a.len(),
{
    if a.len() > 0 && b.len() > 0 {
        law_bytes_lt_on_prefixes(a.drop_first(), b.drop_first());
        if a.len() <= b.len() && b.take(a.len() as int) == a {
            assert(b[0] == b.take(a.len() as int)[0]);
            assert(b.drop_first().take(a.drop_first().len() as int) =~= a.drop_first());
        }
        if b.len() <= a.len() && a.take(b.len() as int) == b {
            assert(a[0] == a.take(b.len() as int)[0]);
            assert(a.drop_first().take(b.drop_first().len() as int) =~= b.drop_first());
        }
    }
}

/// Where two byte strings first differ, the one with the smaller byte there
/// comes first.
pub proof fn law_bytes_lt_at_first_difference(a: Seq<u8>, b: Seq<u8>, k: int)
    requires
        0 <= k < a.len(),
        k < b.len(),
        a.take(k) == b.take(k),
        a[k] != b[k],
    ensures
        bytes_lt(a, b) <==> a[k] < b[k],
    decreases k,
{
    if k > 0 {
        assert(a[0] == a.take(k)[0]);
        assert(b[0] == b.take(k)[0]);
        assert(a.drop_first().take(k - 1) =~= b.drop_first().take(k - 1)) by {
            assert forall|j: int| 0 <= j < k - 1 implies a.drop_first()[j] == b.drop_first()[j] by {
                assert(a.take(k)[j + 1] == a[j + 1]);
                assert(b.take(k)[j + 1] == b[j + 1]);
                assert(a.take(k)[j + 1] == b.take(k)[j + 1]);
            }
        }
        law_bytes_lt_at_first_difference(a.drop_first(), b.drop_first(), k - 1);
    }
}

/// The index of the first occurrence of `b` in `s`.
pub open spec fn first_index(s: Seq<u8>, b: u8) -> Option<int>
    decreases s.len(),
{
    if s.len() == 0 {
        None
    } else if s[0] == b {
        Some(0)
    } else {
        match first_index(s.drop_first(), b) {
            Some(i) => Some(i + 1),
            None => None,
        }
    }
}

/// A string: its length in decimal, a colon, then that many bytes. Gives the
/// bytes and the number of input bytes read.
pub open spec fn spec_parse_string(s: Seq<u8>) -> Result<(Seq<u8>, int), BencodeError> {
    match first_index(s, 58) {
        None => Err(BencodeError::StringMissingColon),
        Some(c) => match spec_parse_usize(s.take(c)) {
            None => Err(BencodeError::StringInvalidLength),
            Some(len) => if c + 1 + len > s.len() {
                Err(BencodeError::UnexpectedEof)
            } else {
                Ok((s.subrange(c + 1, c + 1 + len), c + 1 + len))
            },
        },
    }
}

/// Whether an integer's digits start with a superfluous zero (`03`, `-0`).
pub open spec fn has_leading_zero(body: Seq<u8>) -> bool {
    (body.len() > 1 && body[0] == 48) || (body.len() >= 2 && body[0] == 45 && body[1] == 48)
}

/// An integer: `i`, its decimal digits, `e`. Expects `s[0]` to be `i`.
pub open spec fn spec_parse_integer(s: Seq<u8>) -> Result<(i64, int), BencodeError> {
    match first_index(s, 101) {
        None => Err(BencodeError::UnexpectedEof),
        Some(e) => {
            let body = s.subrange(1, e);
            if has_leading_zero(body) {
                Err(BencodeError::IntegerLeadingZero)
            } else if body.len() == 0 {
                Err(BencodeError::IntegerEmpty)
            } else {
                match spec_parse_i64(body) {
                    None => Err(BencodeError::InvalidIntegerFormat),
                    Some(v) => Ok((v, e + 1)),
                }
            }
        },
    }
}

/// The value at the start of `s`, and the number of bytes it spans.
pub open spec fn spec_parse_value(s: Seq<u8>) -> Result<(Bencode, int), BencodeError>
    decreases s.len(), 1int,
{
    if s.len() == 0 {
        Err(BencodeError::UnexpectedEof)
    } else if s[0] == 105 {
        match spec_parse_integer(s) {
            Ok((v, n)) => Ok((Bencode::Int(v), n)),
            Err(e) => Err(e),
        }
    } else if s[0] == 108 {
        match spec_parse_list_items(s.drop_first()) {
            Ok((items, n)) => Ok((Bencode::List(items), n + 1)),
            Err(e) => Err(e),
        }
    } else if s[0] == 100 {
        match spec_parse_dict_items(s.drop_first(), None) {
            Ok((entries, n)) => Ok((Bencode::Dict(entries), n + 1)),
            Err(e) => Err(e),
        }
    } else if is_digit(s[0]) {
        match spec_parse_string(s) {
            Ok((c, n)) => Ok((Bencode::Str(c), n)),
            Err(e) => Err(e),
        }
    } else {
        Err(BencodeError::InvalidType)
    }
}

/// The items of a list up to and including its closing `e`.
pub open spec fn spec_parse_list_items(s: Seq<u8>) -> Result<(Seq<Bencode>, int), BencodeError>
    decreases s.len(), 2int,
{
    if s.len() > 0 && s[0] == 101 {
        Ok((Seq::empty(), 1))
    } else {
        match spec_parse_value(s) {
            Err(e) => Err(e),
            Ok((v, n)) => if 0 < n <= s.len() {
                match spec_parse_list_items(s.skip(n)) {
                    Ok((rest, m)) => Ok((seq![v] + rest, n + m)),
                    Err(e) => Err(e),
                }
            } else {
                Err(BencodeError::UnexpectedEof)
            },
        }
    }
}

/// The entries of a dictionary up to and including its closing `e`; `last`
/// is the key read just before, which every key must exceed.
pub open spec fn spec_parse_dict_items(s: Seq<u8>, last: Option<Seq<u8>>) -> Result<
    (Seq<(Seq<u8>, Bencode)>, int),
    BencodeError,
>
    decreases s.len(), 2int,
{
    if s.len() > 0 && s[0] == 101 {
        Ok((Seq::empty(), 1))
    } else {
        match spec_parse_string(s) {
            Err(e) => Err(e),
            Ok((key, n)) => if last is Some && !bytes_lt(last->0, key) {
                Err(BencodeError::DictKeysNotSorted)
            } else if 0 < n <= s.len() {
                let rest = s.skip(n);
                match spec_parse_value(rest) {
                    Err(e) => Err(e),
                    Ok((v, m)) => if 0 < m <= rest.len() {
                        match spec_parse_dict_items(rest.skip(m), Some(key)) {
                            Ok((entries, k)) => Ok((seq![(key, v)] + entries, n + m + k)),
                            Err(e) => Err(e),
                        }
                    } else {
                        Err(BencodeError::UnexpectedEof)
                    },
                }
            } else {
                Err(BencodeError::UnexpectedEof)
            },
        }
    }
}

/// A whole document: one value and nothing after it.
pub open spec fn spec_parse(s: Seq<u8>) -> Result<Bencode, BencodeError> {
    match spec_parse_value(s) {
        Ok((v, n)) => if n == s.len() {
            Ok(v)
        } else {
            Err(BencodeError::TrailingData)
        },
        Err(e) => Err(e),
    }
}


/// `first_index` finds the first occurrence, or says there is none.
pub proof fn lemma_first_index(s: Seq<u8>, b: u8)
    ensures
        match first_index(s, b) {
            Some(i) => 0 <= i < s.len() && s[i] == b && forall|j: int| 0 <= j < i ==> s[j] != b,
            None => forall|j: int| 0 <= j < s.len() ==> s[j] != b,
        },
    decreases s.len(),
{
    if s.len() > 0 && s[0] != b {
        lemma_first_index(s.drop_first(), b);
        assert(forall|j: int| 0 < j < s.len() ==> s[j] == s.drop_first()[j - 1]);
    }
}

/// The result of a list read after `k` bytes that produced `acc` already.
pub open spec fn after_items(
    acc: Seq<Bencode>,
    k: int,
    r: Result<(Seq<Bencode>, int), BencodeError>,
) -> Result<(Seq<Bencode>, int), BencodeError> {
    match r {
        Ok((vs, m)) => Ok((acc + vs, k + m)),
        Err(e) => Err(e),
    }
}

/// The result of a dictionary read after `k` bytes that produced `acc` already.
pub open spec fn after_entries(
    acc: Seq<(Seq<u8>, Bencode)>,
    k: int,
    r: Result<(Seq<(Seq<u8>, Bencode)>, int), BencodeError>,
) -> Result<(Seq<(Seq<u8>, Bencode)>, int), BencodeError> {
    match r {
        Ok((vs, m)) => Ok((acc + vs, k + m)),
        Err(e) => Err(e),
    }
}

pub open spec fn key_view(k: Option<Vec<u8>>) -> Option<Seq<u8>> {
    match k {
        Some(k) => Some(k@),
        None => None,
    }
}

/// The first index at or after `from` that holds `b`.
pub(crate) fn find_byte(input: &[u8], from: usize, b: u8) -> (r: Option<usize>)
    requires
        from <= input.len(),
    ensures
        match first_index(input@.skip(from as int), b) {
            Some(i) => r == Some((from + i) as usize),
            None => r is None,
        },
{
    let ghost s = input@.skip(from as int);
    let mut i = from;
    while i < input.len()
        invariant
            from <= i <= input.len(),
            s == input@.skip(from as int),
            forall|j: int| from <= j < i ==> input@[j] != b,
        decreases input.len() - i,
    {
        if input[i] == b {
            proof {
                lemma_first_index(s, b);
                assert(s[i - from] == input@[i as int]);
                assert(forall|j: int| 0 <= j < i - from ==> s[j] == input@[from + j]);
            }
            return Some(i);
        }
        i = i + 1;
    }
    proof {
        lemma_first_index(s, b);
        assert(forall|j: int| 0 <= j < s.len() ==> s[j] == input@[from + j]);
    }
    None
}

/// Whether `a` comes strictly before `b` in lexicographic order.
fn bytes_less(a: &Vec<u8>, b: &Vec<u8>) -> (r: bool)
    ensures
        r == bytes_lt(a@, b@),
{
    let mut i: usize = 0;
    assert(a@.skip(0) =~= a@);
    assert(b@.skip(0) =~= b@);
    while i < a.len() && i < b.len() && a[i] == b[i]
        invariant
            i <= a.len(),
            i <= b.len(),
            bytes_lt(a@, b@) == bytes_lt(a@.skip(i as int), b@.skip(i as int)),
        decreases a.len() - i,
    {
        assert(a@.skip(i as int).drop_first() =~= a@.skip(i + 1));
        assert(b@.skip(i as int).drop_first() =~= b@.skip(i + 1));
        i = i + 1;
    }
    if i < a.len() && i < b.len() {
        assert(a@.skip(i as int)[0] == a@[i as int]);
        assert(b@.skip(i as int)[0] == b@[i as int]);
        a[i] < b[i]
    } else {
        i == a.len() && i < b.len()
    }
}

fn parse_string(input: &[u8], pos: usize) -> (r: Result<(Vec<u8>, usize), BencodeError>)
    requires
        pos <= input.len(),
    ensures
        match spec_parse_string(input@.skip(pos as int)) {
            Ok((c, n)) => r matches Ok((v, end)) && v@ == c && end == pos + n && pos < end
                <= input.len(),
            Err(e) => r == Err::<(Vec<u8>, usize), BencodeError>(e),
        },
{
    let ghost s = input@.skip(pos as int);
    proof {
        lemma_first_index(s, 58);
    }
    let colon = match find_byte(input, pos, 58) {
        Some(c) => c,
        None => {
            return Err(BencodeError::StringMissingColon);
        },
    };
    assert(s.take(colon - pos) =~= input@.subrange(pos as int, colon as int));
    let len = match parse_usize_digits(input, pos, colon) {
        Some(l) => l,
        None => {
            return Err(BencodeError::StringInvalidLength);
        },
    };
    let content_start = colon + 1;
    if len > input.len() - content_start {
        return Err(BencodeError::UnexpectedEof);
    }
    let content_end = content_start + len;
    let content = vstd::slice::slice_to_vec(
        vstd::slice::slice_subrange(input, content_start, content_end),
    );
    assert(content@ =~= s.subrange(colon - pos + 1, colon - pos + 1 + len));
    Ok((content, content_end))
}

fn parse_integer(input: &[u8], pos: usize) -> (r: Result<(i64, usize), BencodeError>)
    requires
        pos < input.len(),
        input@[pos as int] == 105,
    ensures
        match spec_parse_integer(input@.skip(pos as int)) {
            Ok((v, n)) => r == Ok::<(i64, usize), BencodeError>((v, (pos + n) as usize)) && pos
                + n <= input.len() && n > 0,
            Err(e) => r == Err::<(i64, usize), BencodeError>(e),
        },
{
    let ghost s = input@.skip(pos as int);
    let end_pos = match find_byte(input, pos, 101) {
        Some(e) => e,
        None => {
            return Err(BencodeError::UnexpectedEof);
        },
    };
    proof {
        lemma_first_index(s, 101);
    }
    assert(end_pos > pos);
    let start = pos + 1;
    let ghost body = s.subrange(1, end_pos - pos);
    assert(body =~= input@.subrange(start as int, end_pos as int));
    let blen = end_pos - start;
    if (blen > 1 && input[start] == 48) || (blen >= 2 && input[start] == 45 && input[start + 1]
        == 48) {
        return Err(BencodeError::IntegerLeadingZero);
    }
    if blen == 0 {
        return Err(BencodeError::IntegerEmpty);
    }
    match parse_i64_digits(input, start, end_pos) {
        Some(v) => Ok((v, end_pos + 1)),
        None => Err(BencodeError::InvalidIntegerFormat),
    }
}

fn parse_internal(input: &[u8], pos: usize) -> (r: Result<(BencodeValue, usize), BencodeError>)
    requires
        pos <= input.len(),
    ensures
        match spec_parse_value(input@.skip(pos as int)) {
            Ok((m, n)) => r matches Ok((v, end)) && v@ == m && end == pos + n && pos < end
                <= input.len(),
            Err(e) => r == Err::<(BencodeValue, usize), BencodeError>(e),
        },
    decreases input.len() - pos, 1int,
{
    if pos == input.len() {
        return Err(BencodeError::UnexpectedEof);
    }
    let ghost s = input@.skip(pos as int);
    assert(s[0] == input@[pos as int]);
    let first = input[pos];
    if first == 105 {
        match parse_integer(input, pos) {
            Ok((v, end)) => Ok((BencodeValue::Integer(v), end)),
            Err(e) => Err(e),
        }
    } else if first == 108 {
        parse_list(input, pos)
    } else if first == 100 {
        parse_dictionary(input, pos)
    } else if 48 <= first && first <= 57 {
        match parse_string(input, pos) {
            Ok((c, end)) => Ok((BencodeValue::String(c), end)),
            Err(e) => Err(e),
        }
    } else {
        Err(BencodeError::InvalidType)
    }
}

fn parse_list(input: &[u8], pos: usize) -> (r: Result<(BencodeValue, usize), BencodeError>)
    requires
        pos < input.len(),
        input@[pos as int] == 108,
    ensures
        match spec_parse_value(input@.skip(pos as int)) {
            Ok((m, n)) => r matches Ok((v, end)) && v@ == m && end == pos + n && pos < end
                <= input.len(),
            Err(e) => r == Err::<(BencodeValue, usize), BencodeError>(e),
        },
    decreases input.len() - pos, 0int,
{
    let ghost s = input@.skip(pos as int);
    assert(s.drop_first() =~= input@.skip(pos + 1));
    let mut elements: Vec<BencodeValue> = Vec::new();
    let mut cur = pos + 1;
    while !(cur < input.len() && input[cur] == 101)
        invariant
            pos < cur <= input.len(),
            input@.skip(pos as int).drop_first() == input@.skip(pos + 1),
            input@.skip(pos as int)[0] == 108,
            spec_parse_list_items(input@.skip(pos + 1)) == after_items(
                list_model(elements@),
                cur - (pos + 1),
                spec_parse_list_items(input@.skip(cur as int)),
            ),
        decreases input.len() - cur,
    {
        let ghost t = input@.skip(cur as int);
        assert(cur < input.len() ==> t[0] == input@[cur as int]);
        match parse_internal(input, cur) {
            Ok((v, end)) => {
                proof {
                    let n = end - cur;
                    assert(t.skip(n) =~= input@.skip(end as int));
                    let acc = list_model(elements@);
                    assert(elements@.push(v).drop_last() =~= elements@);
                    match spec_parse_list_items(input@.skip(end as int)) {
                        Ok((rest, m)) => {
                            assert(acc + (seq![v@] + rest) =~= acc.push(v@) + rest);
                        },
                        Err(e) => {},
                    }
                }
                elements.push(v);
                cur = end;
            },
            Err(e) => {
                return Err(e);
            },
        }
    }
    proof {
        let t = input@.skip(cur as int);
        assert(t[0] == input@[cur as int]);
        assert(list_model(elements@) + Seq::<Bencode>::empty() =~= list_model(elements@));
    }
    Ok((BencodeValue::List(elements), cur + 1))
}

fn parse_dictionary(input: &[u8], pos: usize) -> (r: Result<(BencodeValue, usize), BencodeError>)
    requires
        pos < input.len(),
        input@[pos as int] == 100,
    ensures
        match spec_parse_value(input@.skip(pos as int)) {
            Ok((m, n)) => r matches Ok((v, end)) && v@ == m && end == pos + n && pos < end
                <= input.len(),
            Err(e) => r == Err::<(BencodeValue, usize), BencodeError>(e),
        },
    decreases input.len() - pos, 0int,
{
    let ghost s = input@.skip(pos as int);
    assert(s.drop_first() =~= input@.skip(pos + 1));
    let mut entries: Vec<(Vec<u8>, BencodeValue)> = Vec::new();
    let mut last_key: Option<Vec<u8>> = None;
    let mut cur = pos + 1;
    while !(cur < input.len() && input[cur] == 101)
        invariant
            pos < cur <= input.len(),
            input@.skip(pos as int).drop_first() == input@.skip(pos + 1),
            input@.skip(pos as int)[0] == 100,
            spec_parse_dict_items(input@.skip(pos + 1), None) == after_entries(
                dict_model(entries@),
                cur - (pos + 1),
                spec_parse_dict_items(
                    input@.skip(cur as int),
                    key_view(last_key),
                ),
            ),
        decreases input.len() - cur,
    {
        let ghost t = input@.skip(cur as int);
        assert(cur < input.len() ==> t[0] == input@[cur as int]);
        let (key, after_key) = match parse_string(input, cur) {
            Ok(x) => x,
            Err(e) => {
                return Err(e);
            },
        };
        match &last_key {
            Some(prev) => {
                if !bytes_less(prev, &key) {
                    return Err(BencodeError::DictKeysNotSorted);
                }
            },
            None => {},
        }
        let ghost rest = t.skip(after_key - cur);
        assert(rest =~= input@.skip(after_key as int));
        let (value, end) = match parse_internal(input, after_key) {
            Ok(x) => x,
            Err(e) => {
                return Err(e);
            },
        };
        proof {
            let m = end - after_key;
            assert(rest.skip(m) =~= input@.skip(end as int));
            let acc = dict_model(entries@);
            assert(entries@.push((key, value)).drop_last() =~= entries@);
            match spec_parse_dict_items(input@.skip(end as int), Some(key@)) {
                Ok((more, k)) => {
                    assert(acc + (seq![(key@, value@)] + more) =~= acc.push((key@, value@))
                        + more);
                },
                Err(e) => {},
            }
        }
        let key_copy = key.clone();
        assert(key_copy@ == key@);
        entries.push((key, value));
        last_key = Some(key_copy);
        cur = end;
    }
    proof {
        let t = input@.skip(cur as int);
        assert(t[0] == input@[cur as int]);
        assert(dict_model(entries@) + Seq::<(Seq<u8>, Bencode)>::empty() =~= dict_model(
            entries@,
        ));
    }
    Ok((BencodeValue::Dictionary(entries), cur + 1))
}

/// Reads one bencoded document.
pub fn parse(input: &[u8]) -> (r: Result<BencodeValue, AppError>)
    ensures
        match spec_parse(input@) {
            Ok(m) => r matches Ok(v) && v@ == m,
            Err(e) => r == Err::<BencodeValue, AppError>(AppError::Bencode(e)),
        },
{
    assert(input@.skip(0) =~= input@);
    let (value, end) = match parse_internal(input, 0) {
        Ok(x) => x,
        Err(e) => {
            return Err(AppError::Bencode(e));
        },
    };
    if end == input.len() {
        Ok(value)
    } else {
        Err(AppError::Bencode(BencodeError::TrailingData))
    }
}

} // verus!
