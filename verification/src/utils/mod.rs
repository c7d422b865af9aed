//! Writing bencode, and reading what a torrent file says about its torrent.
use vstd::prelude::*;

use crate::bencode_parser::{
    law_bytes_lt_on_prefixes, bytes_lt, dict_model, first_index, has_leading_zero, lemma_dict_model, lemma_first_index,
    lemma_list_model, list_model, spec_parse, spec_parse_dict_items, spec_parse_integer,
    spec_parse_list_items, spec_parse_string, spec_parse_value, value_model, Bencode,
    BencodeValue,
};
use crate::decimal::{
    canonical_digits, lemma_canonical_digits, lemma_digits_value_positive, all_digits, decimal_digits, digits_value, is_digit, lemma_decimal_digits, lemma_signed_decimal,
    push_decimal, push_signed_decimal, signed_decimal, spec_parse_i64, spec_parse_usize,
    unsigned_body,
};
use crate::errors::{AppError, BencodeError};
use crate::hashing::{sha1_digest, sha1_spec};
use crate::text::{
    lemma_ascii_utf8, url_encode_binary, url_encode_spec, utf8_lossy, utf8_lossy_spec,
};
use vstd::string::StringExecFns;
use vstd::utf8::{decode_utf8, valid_utf8};

pub mod peer;

verus! {

/// The canonical bencoding of a value.
pub open spec fn spec_encode(v: Bencode) -> Seq<u8>
    decreases v, 0int,
{
    match v {
        Bencode::Str(s) => decimal_digits(s.len()) + seq![58u8] + s,
        Bencode::Int(i) => seq![105u8] + signed_decimal(i as int) + seq![101u8],
        Bencode::List(l) => seq![108u8] + encode_items(l) + seq![101u8],
        Bencode::Dict(d) => seq![100u8] + encode_entries(d) + seq![101u8],
    }
}

/// The items of a list, written one after the other.
pub open spec fn encode_items(l: Seq<Bencode>) -> Seq<u8>
    decreases l, 0int,
{
    if l.len() == 0 {
        Seq::empty()
    } else {
        spec_encode(l[0]) + encode_items(l.drop_first())
    }
}

/// The entries of a dictionary, each key written as a string before its value.
pub open spec fn encode_entries(d: Seq<(Seq<u8>, Bencode)>) -> Seq<u8>
    decreases d, 0int,
{
    if d.len() == 0 {
        Seq::empty()
    } else {
        decimal_digits(d[0].0.len()) + seq![58u8] + d[0].0 + spec_encode(d[0].1) + encode_entries(
            d.drop_first(),
        )
    }
}

/// Appends all of `s`.
fn push_bytes(out: &mut Vec<u8>, s: &[u8])
    ensures
        final(out)@ == old(out)@ + s@,
{
    let mut i: usize = 0;
    while i < s.len()
        invariant
            i <= s.len(),
            out@ == old(out)@ + s@.take(i as int),
        decreases s.len() - i,
    {
        assert(s@.take(i + 1) =~= s@.take(i as int).push(s@[i as int]));
        out.push(s[i]);
        i = i + 1;
    }
    assert(s@.take(i as int) =~= s@);
}

/// Writes a value in bencode: strings as `<length>:<bytes>`, integers as
/// `i<digits>e`, lists as `l<items>e` and dictionaries as `d<entries>e`.
pub fn encode(value: &BencodeValue) -> (r: Vec<u8>)
    ensures
        r@ == spec_encode(value@),
    decreases value,
{
    let mut result: Vec<u8> = Vec::new();
    match value {
        BencodeValue::String(s) => {
            push_decimal(&mut result, s.len() as u64);
            result.push(58);
            push_bytes(&mut result, s.as_slice());
            assert(result@ =~= spec_encode(value@));
        },
        BencodeValue::Integer(i) => {
            result.push(105);
            push_signed_decimal(&mut result, *i);
            result.push(101);
            assert(result@ =~= spec_encode(value@));
        },
        BencodeValue::List(l) => {
            let ghost m = list_model(l@);
            proof {
                lemma_list_model(l@);
            }
            result.push(108);
            let mut i: usize = 0;
            assert(m.skip(0) =~= m);
            while i < l.len()
                invariant
                    i <= l.len(),
                    *value == BencodeValue::List(*l),
                    m == list_model(l@),
                    m.len() == l@.len(),
                    forall|j: int| 0 <= j < l@.len() ==> #[trigger] m[j] == value_model(l@[j]),
                    result@ + encode_items(m.skip(i as int)) == seq![108u8] + encode_items(m),
                decreases l.len() - i,
            {
                proof {
                    assert(decreases_to!(*value => (*value)->List_0));
                    assert(decreases_to!(*l => l@));
                    assert(decreases_to!(l@ => l@[i as int]));
                }
                let item = encode(&l[i]);
                proof {
                    assert(m.skip(i as int)[0] == m[i as int]);
                    assert(m.skip(i as int).drop_first() =~= m.skip(i + 1));
                    assert(result@ + item@ + encode_items(m.skip(i + 1)) =~= result@ + encode_items(
                        m.skip(i as int),
                    ));
                }
                push_bytes(&mut result, item.as_slice());
                i = i + 1;
            }
            result.push(101);
            assert(m.skip(i as int) =~= Seq::<Bencode>::empty());
            assert(result@ =~= spec_encode(value@));
        },
        BencodeValue::Dictionary(d) => {
            let ghost m = dict_model(d@);
            proof {
                lemma_dict_model(d@);
            }
            result.push(100);
            let mut i: usize = 0;
            assert(m.skip(0) =~= m);
            while i < d.len()
                invariant
                    i <= d.len(),
                    *value == BencodeValue::Dictionary(*d),
                    m == dict_model(d@),
                    m.len() == d@.len(),
                    forall|j: int|
                        0 <= j < d@.len() ==> #[trigger] m[j] == (d@[j].0@, value_model(d@[j].1)),
                    result@ + encode_entries(m.skip(i as int)) == seq![100u8] + encode_entries(m),
                decreases d.len() - i,
            {
                let key = &d[i].0;
                proof {
                    assert(decreases_to!(*value => (*value)->Dictionary_0));
                    assert(decreases_to!(*d => d@));
                    assert(decreases_to!(d@ => d@[i as int]));
                    assert(decreases_to!(d@[i as int] => d@[i as int].1));
                }
                let item = encode(&d[i].1);
                proof {
                    assert(m.skip(i as int)[0] == m[i as int]);
                    assert(m.skip(i as int).drop_first() =~= m.skip(i + 1));
                }
                let ghost before = result@;
                push_decimal(&mut result, key.len() as u64);
                result.push(58);
                push_bytes(&mut result, key.as_slice());
                push_bytes(&mut result, item.as_slice());
                proof {
                    assert(result@ + encode_entries(m.skip(i + 1)) =~= before + encode_entries(
                        m.skip(i as int),
                    ));
                }
                i = i + 1;
            }
            result.push(101);
            assert(m.skip(i as int) =~= Seq::<(Seq<u8>, Bencode)>::empty());
            assert(result@ =~= spec_encode(value@));
        },
    }
    result
}


/// The first value kept under `key` in a dictionary.
pub open spec fn dict_get(d: Seq<(Seq<u8>, Bencode)>, key: Seq<u8>) -> Option<Bencode>
    decreases d.len(),
{
    if d.len() == 0 {
        None
    } else if d[0].0 == key {
        Some(d[0].1)
    } else {
        dict_get(d.drop_first(), key)
    }
}

proof fn lemma_dict_get(d: Seq<(Seq<u8>, Bencode)>, key: Seq<u8>)
    ensures
        match dict_get(d, key) {
            Some(v) => exists|j: int|
                0 <= j < d.len() && d[j].0 == key && d[j].1 == v && forall|k: int|
                    0 <= k < j ==> d[k].0 != key,
            None => forall|k: int| 0 <= k < d.len() ==> d[k].0 != key,
        },
    decreases d.len(),
{
    if d.len() > 0 && d[0].0 != key {
        lemma_dict_get(d.drop_first(), key);
        assert(forall|k: int| 0 < k < d.len() ==> d[k] == d.drop_first()[k - 1]);
        if let Some(v) = dict_get(d, key) {
            let j = choose|j: int|
                0 <= j < d.drop_first().len() && d.drop_first()[j].0 == key && d.drop_first()[j].1
                    == v && forall|k: int| 0 <= k < j ==> d.drop_first()[k].0 != key;
            assert(d[j + 1] == d.drop_first()[j]);
            assert forall|k: int| 0 <= k < j + 1 implies d[k].0 != key by {
                if k > 0 {
                    assert(d[k] == d.drop_first()[k - 1]);
                }
            }
        }
    }
}

/// Whether two byte strings are the same.
fn bytes_eq(a: &[u8], b: &[u8]) -> (r: bool)
    ensures
        r == (a@ == b@),
{
    if a.len() != b.len() {
        return false;
    }
    let mut i: usize = 0;
    while i < a.len()
        invariant
            i <= a.len(),
            a.len() == b.len(),
            forall|j: int| 0 <= j < i ==> a@[j] == b@[j],
        decreases a.len() - i,
    {
        if a[i] != b[i] {
            return false;
        }
        i = i + 1;
    }
    assert(a@ =~= b@);
    true
}

/// The value kept under `key` in a dictionary, as `BTreeMap::get` finds it.
pub fn dict_lookup<'a>(d: &'a Vec<(Vec<u8>, BencodeValue)>, key: &[u8]) -> (r: Option<
    &'a BencodeValue,
>)
    ensures
        match dict_get(dict_model(d@), key@) {
            Some(v) => r matches Some(x) && x@ == v,
            None => r is None,
        },
{
    let ghost m = dict_model(d@);
    proof {
        lemma_dict_model(d@);
        lemma_dict_get(m, key@);
    }
    let mut i: usize = 0;
    while i < d.len()
        invariant
            i <= d.len(),
            m == dict_model(d@),
            m.len() == d@.len(),
            forall|j: int| 0 <= j < d@.len() ==> #[trigger] m[j] == (d@[j].0@, value_model(d@[j].1)),
            forall|k: int| 0 <= k < i ==> m[k].0 != key@,
            match dict_get(m, key@) {
                Some(v) => exists|j: int|
                    0 <= j < m.len() && m[j].0 == key@ && m[j].1 == v && forall|k: int|
                        0 <= k < j ==> m[k].0 != key@,
                None => forall|k: int| 0 <= k < m.len() ==> m[k].0 != key@,
            },
        decreases d.len() - i,
    {
        assert(m[i as int].0 == d@[i as int].0@);
        if bytes_eq(d[i].0.as_slice(), key) {
            proof {
                if let Some(v) = dict_get(m, key@) {
                    let j = choose|j: int|
                        0 <= j < m.len() && m[j].0 == key@ && m[j].1 == v && forall|k: int|
                            0 <= k < j ==> m[k].0 != key@;
                    assert(j == i);
                }
            }
            return Some(&d[i].1);
        }
        i = i + 1;
    }
    None
}

/// The keys that a torrent file is read by: `announce`.
pub open spec fn key_announce() -> Seq<u8> {
    seq![97u8, 110, 110, 111, 117, 110, 99, 101]
}

/// `info`
pub open spec fn key_info() -> Seq<u8> {
    seq![105u8, 110, 102, 111]
}

/// `pieces`
pub open spec fn key_pieces() -> Seq<u8> {
    seq![112u8, 105, 101, 99, 101, 115]
}

/// `piece length`
pub open spec fn key_piece_length() -> Seq<u8> {
    seq![112u8, 105, 101, 99, 101, 32, 108, 101, 110, 103, 116, 104]
}

/// `length`
pub open spec fn key_length() -> Seq<u8> {
    seq![108u8, 101, 110, 103, 116, 104]
}

/// `files`
pub open spec fn key_files() -> Seq<u8> {
    seq![102u8, 105, 108, 101, 115]
}

/// The length of one file of a multi-file torrent: its `length` if that is
/// an integer, else nothing.
pub open spec fn file_length(f: Bencode) -> nat {
    match f {
        Bencode::Dict(fd) => match dict_get(fd, key_length()) {
            Some(Bencode::Int(len)) => (len as u64) as nat,
            _ => 0,
        },
        _ => 0,
    }
}

pub open spec fn files_total(files: Seq<Bencode>) -> nat
    decreases files.len(),
{
    if files.len() == 0 {
        0
    } else {
        files_total(files.drop_last()) + file_length(files.last())
    }
}

/// The size of the content: the `length` of a single-file torrent, else the
/// sum of the lengths of its `files`, else zero.
pub open spec fn info_total_size(info: Seq<(Seq<u8>, Bencode)>) -> nat {
    match dict_get(info, key_length()) {
        Some(Bencode::Int(length)) => (length as u64) as nat,
        _ => match dict_get(info, key_files()) {
            Some(Bencode::List(files)) => files_total(files),
            _ => 0,
        },
    }
}

/// What a torrent file says: its announce URL, its info dictionary, the
/// concatenated piece digests, the piece length (as the low 32 bits of the
/// integer) and the info dictionary's entries, or why it cannot be read.
pub open spec fn torrent_fields(v: Bencode) -> Result<
    (Seq<u8>, Bencode, Seq<u8>, u32, Seq<(Seq<u8>, Bencode)>),
    BencodeError,
> {
    match v {
        Bencode::Dict(root) => match dict_get(root, key_announce()) {
            Some(Bencode::Str(announce)) => match dict_get(root, key_info()) {
                None => Err(BencodeError::MissingInfoDict),
                Some(info) => match info {
                    Bencode::Dict(info_map) => match dict_get(info_map, key_pieces()) {
                        Some(Bencode::Str(pieces)) => match dict_get(
                            info_map,
                            key_piece_length(),
                        ) {
                            Some(Bencode::Int(pl)) => Ok((announce, info, pieces, pl as u32, info_map)),
                            _ => Err(BencodeError::InvalidType),
                        },
                        _ => Err(BencodeError::InvalidType),
                    },
                    _ => Err(BencodeError::InvalidType),
                },
            },
            _ => Err(BencodeError::MissingAnnounceURL),
        },
        _ => Err(BencodeError::RootNotADictionary),
    }
}

/// Whether the content size of a readable torrent fits in a `u64`; adding
/// up the lengths of the files of a torrent whose size does not overflows.
pub open spec fn size_fits(v: Bencode) -> bool {
    match torrent_fields(v) {
        Ok((_, _, _, _, info_map)) => info_total_size(info_map) <= u64::MAX,
        Err(_) => true,
    }
}

/// The digests of the pieces: consecutive 20-byte chunks, ignoring any
/// shorter remainder.
pub open spec fn piece_chunks(pieces: Seq<u8>) -> Seq<Seq<u8>> {
    Seq::new(pieces.len() / 20, |k: int| pieces.subrange(20 * k, 20 * k + 20))
}

proof fn lemma_files_total_prefix(files: Seq<Bencode>, i: int)
    requires
        0 <= i <= files.len(),
    ensures
        files_total(files.take(i)) <= files_total(files),
    decreases files.len() - i,
{
    if i < files.len() {
        lemma_files_total_prefix(files, i + 1);
        assert(files.take(i + 1).drop_last() =~= files.take(i));
    } else {
        assert(files.take(i) =~= files);
    }
}

fn file_length_of(file: &BencodeValue) -> (r: u64)
    ensures
        r == file_length(file@),
{
    match file {
        BencodeValue::Dictionary(fd) => {
            let key: [u8; 6] = [108u8, 101, 110, 103, 116, 104];
            assert(key@ =~= key_length());
            match dict_lookup(fd, key.as_slice()) {
                Some(BencodeValue::Integer(len)) => *len as u64,
                _ => 0,
            }
        },
        _ => 0,
    }
}

/// The content size of a torrent whose info dictionary is `info_map`, or
/// nothing when it does not fit in a `u64`.
fn info_total_size_checked(info_map: &Vec<(Vec<u8>, BencodeValue)>) -> (r: Option<u64>)
    ensures
        info_total_size(dict_model(info_map@)) <= u64::MAX ==> r == Some(
            info_total_size(dict_model(info_map@)) as u64,
        ),
        info_total_size(dict_model(info_map@)) > u64::MAX ==> r is None,
{
    let length_key: [u8; 6] = [108u8, 101, 110, 103, 116, 104];
    assert(length_key@ =~= key_length());
    let files_key: [u8; 5] = [102u8, 105, 108, 101, 115];
    assert(files_key@ =~= key_files());
    match dict_lookup(info_map, length_key.as_slice()) {
        Some(BencodeValue::Integer(length)) => {
            return Some(*length as u64);
        },
        _ => {},
    }
    match dict_lookup(info_map, files_key.as_slice()) {
        Some(BencodeValue::List(files)) => {
            let ghost m = list_model(files@);
            proof {
                lemma_list_model(files@);
            }
            let mut total: u64 = 0;
            let mut i: usize = 0;
            assert(info_total_size(dict_model(info_map@)) == files_total(m));
            while i < files.len()
                invariant
                    i <= files.len(),
                    info_total_size(dict_model(info_map@)) == files_total(m),
                    m == list_model(files@),
                    m.len() == files@.len(),
                    forall|j: int| 0 <= j < files@.len() ==> #[trigger] m[j] == value_model(files@[j]),
                    total == files_total(m.take(i as int)),
                decreases files.len() - i,
            {
                assert(m.take(i + 1).drop_last() =~= m.take(i as int));
                assert(m.take(i + 1).last() == m[i as int]);
                let len = file_length_of(&files[i]);
                match total.checked_add(len) {
                    Some(t) => {
                        total = t;
                    },
                    None => {
                        proof {
                            lemma_files_total_prefix(m, i + 1);
                        }
                        return None;
                    },
                }
                i = i + 1;
            }
            assert(m.take(i as int) =~= m);
            Some(total)
        },
        _ => Some(0),
    }
}

/// The digests of the pieces, as 20-byte arrays.
fn chunk_digests(pieces: &Vec<u8>) -> (r: Vec<[u8; 20]>)
    ensures
        r@.map_values(|h: [u8; 20]| h@) == piece_chunks(pieces@),
{
    let count = pieces.len() / 20;
    assert(20 * count <= pieces@.len());
    let mut out: Vec<[u8; 20]> = Vec::new();
    let mut k: usize = 0;
    while k < count
        invariant
            k <= count,
            count == pieces@.len() / 20,
            20 * count <= pieces@.len(),
            pieces@.len() == pieces.len(),
            out@.len() == k,
            forall|j: int| 0 <= j < k ==> #[trigger] out@[j]@ == pieces@.subrange(20 * j, 20 * j + 20),
        decreases count - k,
    {
        assert(20 * k + 20 <= 20 * count) by (nonlinear_arith)
            requires
                k < count,
        ;
        let base = 20 * k;
        let mut h: [u8; 20] = [0u8; 20];
        let mut b: usize = 0;
        while b < 20
            invariant
                b <= 20,
                k < count,
                count == pieces@.len() / 20,
                base == 20 * k,
                base + 20 <= pieces@.len(),
                pieces@.len() == pieces.len(),
                forall|c: int| 0 <= c < b ==> h@[c] == pieces@[base + c],
            decreases 20 - b,
        {
            h[b] = pieces[base + b];
            b = b + 1;
        }
        assert(h@ =~= pieces@.subrange(20 * k, 20 * k + 20));
        out.push(h);
        k = k + 1;
    }
    assert(out@.map_values(|h: [u8; 20]| h@) =~= piece_chunks(pieces@));
    out
}

/// Whether adding up the content size of the torrent stays within a `u64`
/// (see `size_fits`): what `get_torrent_info` needs of its input.
pub fn torrent_size_fits(bencode_data: &BencodeValue) -> (r: bool)
    ensures
        r == size_fits(bencode_data@),
{
    match get_torrent_fields(bencode_data) {
        Ok((_, _, _, _, info_map)) => info_total_size_checked(info_map).is_some(),
        Err(_) => true,
    }
}

/// Finds the fields of a torrent file (see `torrent_fields`).
fn get_torrent_fields(bencode_data: &BencodeValue) -> (r: Result<
    (&Vec<u8>, &BencodeValue, &Vec<u8>, u32, &Vec<(Vec<u8>, BencodeValue)>),
    BencodeError,
>)
    ensures
        match torrent_fields(bencode_data@) {
            Ok((announce, info, pieces, pl, info_map)) => r matches Ok((a, i, p, l, m)) && a@
                == announce && i@ == info && p@ == pieces && l == pl && dict_model(m@)
                == info_map,
            Err(e) => r == Err::<
                (&Vec<u8>, &BencodeValue, &Vec<u8>, u32, &Vec<(Vec<u8>, BencodeValue)>),
                BencodeError,
            >(e),
        },
{
    let announce_key: [u8; 8] = [97u8, 110, 110, 111, 117, 110, 99, 101];
    assert(announce_key@ =~= key_announce());
    let info_key: [u8; 4] = [105u8, 110, 102, 111];
    assert(info_key@ =~= key_info());
    let pieces_key: [u8; 6] = [112u8, 105, 101, 99, 101, 115];
    assert(pieces_key@ =~= key_pieces());
    let piece_length_key: [u8; 12] = [112u8, 105, 101, 99, 101, 32, 108, 101, 110, 103, 116, 104];
    assert(piece_length_key@ =~= key_piece_length());
    let root_dict = match bencode_data {
        BencodeValue::Dictionary(d) => d,
        _ => {
            return Err(BencodeError::RootNotADictionary);
        },
    };
    let announce_url = match dict_lookup(root_dict, announce_key.as_slice()) {
        Some(BencodeValue::String(s)) => s,
        _ => {
            return Err(BencodeError::MissingAnnounceURL);
        },
    };
    let info_dict = match dict_lookup(root_dict, info_key.as_slice()) {
        Some(v) => v,
        None => {
            return Err(BencodeError::MissingInfoDict);
        },
    };
    let info_map = match info_dict {
        BencodeValue::Dictionary(d) => d,
        _ => {
            return Err(BencodeError::InvalidType);
        },
    };
    let pieces_bytes = match dict_lookup(info_map, pieces_key.as_slice()) {
        Some(BencodeValue::String(s)) => s,
        _ => {
            return Err(BencodeError::InvalidType);
        },
    };
    let piece_length = match dict_lookup(info_map, piece_length_key.as_slice()) {
        Some(BencodeValue::Integer(i)) => *i as u32,
        _ => {
            return Err(BencodeError::InvalidType);
        },
    };
    Ok((announce_url, info_dict, pieces_bytes, piece_length, info_map))
}

/// Reads what the client needs from a torrent file: the announce URL (its
/// bytes decoded as UTF-8 with replacement), the info hash (the SHA-1 of the
/// re-encoded info dictionary), the digest of each piece, the piece length
/// and the content size.
pub fn get_torrent_info(bencode_data: &BencodeValue) -> (r: Result<
    (String, [u8; 20], Vec<[u8; 20]>, u32, u64),
    AppError,
>)
    requires
        size_fits(bencode_data@),
    ensures
        match torrent_fields(bencode_data@) {
            Ok((announce, info, pieces, piece_length, info_map)) => r matches Ok(
                (url, info_hash, piece_hashes, pl, total_size),
            ) && url@ == utf8_lossy_spec(announce) && (valid_utf8(announce) ==> url@ == decode_utf8(
                announce,
            )) && info_hash@ == sha1_spec(spec_encode(info))
                && piece_hashes@.map_values(|h: [u8; 20]| h@) == piece_chunks(pieces) && pl
                == piece_length && total_size == info_total_size(info_map),
            Err(e) => r == Err::<(String, [u8; 20], Vec<[u8; 20]>, u32, u64), AppError>(
                AppError::Bencode(e),
            ),
        },
{
    let (announce_url, info_dict, pieces_bytes, piece_length, info_map) = match get_torrent_fields(
        bencode_data,
    ) {
        Ok(fields) => fields,
        Err(e) => {
            return Err(AppError::Bencode(e));
        },
    };
    let info_bytes = encode(info_dict);
    let info_hash = sha1_digest(info_bytes.as_slice());
    let piece_hashes = chunk_digests(pieces_bytes);
    let total_size = match info_total_size_checked(info_map) {
        Some(t) => t,
        None => {
            assert(false);
            0
        },
    };
    Ok((utf8_lossy(announce_url.as_slice()), info_hash, piece_hashes, piece_length, total_size))
}

/// The SHA-1 of the re-encoded info dictionary of a torrent file.
pub fn calculate_info_hash(bencode_data: &BencodeValue) -> (r: Result<[u8; 20], &'static str>)
    ensures
        match bencode_data@ {
            Bencode::Dict(root) => match dict_get(root, key_info()) {
                Some(info) => r matches Ok(h) && h@ == sha1_spec(spec_encode(info)),
                None => r matches Err(m) && m@ == "Torrent metadata is missing 'info' dictionary"@,
            },
            _ => r matches Err(m) && m@ == "Root of torrent file is not a dictionary"@,
        },
{
    let info_key: [u8; 4] = [105u8, 110, 102, 111];
    assert(info_key@ =~= key_info());
    if let BencodeValue::Dictionary(root_dict) = bencode_data {
        if let Some(info_value) = dict_lookup(root_dict, info_key.as_slice()) {
            let info_bytes = encode(info_value);
            Ok(sha1_digest(info_bytes.as_slice()))
        } else {
            Err("Torrent metadata is missing 'info' dictionary")
        }
    } else {
        Err("Root of torrent file is not a dictionary")
    }
}

/// The info dictionary that `get_torrent_info` hashes is the one that
/// `calculate_info_hash` hashes: the `info` entry of the root dictionary.
/// So on a torrent that `get_torrent_info` reads, both give the SHA-1 of
/// its canonical re-encoding.
pub proof fn law_info_hash_agrees(v: Bencode)
    ensures
        torrent_fields(v) matches Ok((_, info, _, _, _)) ==> (v matches Bencode::Dict(root)
            && dict_get(root, key_info()) == Some(info)),
{
}

/// The piece length of a readable torrent is the `piece length` integer of
/// its info dictionary, whenever that integer fits in a `u32`.
pub proof fn law_piece_length_is_read_exactly(v: Bencode, n: i64)
    requires
        v matches Bencode::Dict(root) && (dict_get(root, key_info()) matches Some(
            Bencode::Dict(info),
        ) && dict_get(info, key_piece_length()) == Some(Bencode::Int(n))),
        0 <= n <= u32::MAX,
        torrent_fields(v) is Ok,
    ensures
        torrent_fields(v) matches Ok((_, _, _, pl, _)) && pl == n,
{
}

/// The decimal numeral of `n` as text.
pub open spec fn decimal_text(n: nat) -> Seq<char> {
    decimal_digits(n).map_values(|b: u8| b as char)
}

/// The URL of the first announce to the tracker: the announce URL with the
/// info hash and peer id percent-encoded, port 6881, nothing transferred yet,
/// `total_size` bytes left, compact peer lists asked for, and the `started`
/// event.
pub open spec fn tracker_url_spec(
    announce: Seq<char>,
    info_hash: Seq<u8>,
    peer_id: Seq<u8>,
    total_size: u64,
) -> Seq<char> {
    announce + "?info_hash="@ + url_encode_spec(info_hash) + "&peer_id="@ + url_encode_spec(
        peer_id,
    ) + "&port=6881&uploaded=0&downloaded=0&left="@ + decimal_text(total_size as nat)
        + "&compact=1&event=started"@
}

/// Builds the URL of the first announce to the tracker (see
/// `tracker_url_spec`).
pub fn build_tracker_url(
    announce_url: &str,
    info_hash: &[u8; 20],
    peer_id: &[u8; 20],
    total_size: u64,
) -> (r: Result<String, AppError>)
    ensures
        r matches Ok(url) && url@ == tracker_url_spec(
            announce_url@,
            info_hash@,
            peer_id@,
            total_size,
        ),
{
    let info_hash_encoded = url_encode_binary(info_hash.as_slice());
    let peer_id_encoded = url_encode_binary(peer_id.as_slice());
    let mut left_digits: Vec<u8> = Vec::new();
    push_decimal(&mut left_digits, total_size);
    proof {
        lemma_decimal_digits(total_size as nat);
        assert(left_digits@ =~= decimal_digits(total_size as nat));
        assert forall|i: int| 0 <= i < left_digits@.len() implies left_digits@[i] < 128 by {
            assert(is_digit(decimal_digits(total_size as nat)[i]));
        }
        lemma_ascii_utf8(left_digits@);
    }
    let left = utf8_lossy(left_digits.as_slice());
    let mut url = announce_url.to_owned();
    url.append("?info_hash=");
    url.append(info_hash_encoded.as_str());
    url.append("&peer_id=");
    url.append(peer_id_encoded.as_str());
    url.append("&port=6881&uploaded=0&downloaded=0&left=");
    url.append(left.as_str());
    url.append("&compact=1&event=started");
    Ok(url)
}

/// `-BC0001-`, the client's prefix of every peer id.
pub open spec fn peer_id_prefix() -> Seq<u8> {
    seq![45u8, 66, 67, 48, 48, 48, 49, 45]
}

/// A random `u32` from `rand::random`. Trusted only to return; nothing is
/// said of its value.
#[verifier::external_body]
pub(crate) fn random_u32() -> u32 {
    rand::random::<u32>()
}

/// The peer id made from twelve random bytes: the client prefix, then one
/// decimal digit per byte (the byte modulo ten).
pub fn peer_id_from_random(random: &[u8; 12]) -> (r: [u8; 20])
    ensures
        r@.take(8) == peer_id_prefix(),
        forall|k: int| 0 <= k < 12 ==> r@[8 + k] == random@[k] % 10 + 48,
{
    let mut peer_id: [u8; 20] = [0u8; 20];
    peer_id[0] = 45;
    peer_id[1] = 66;
    peer_id[2] = 67;
    peer_id[3] = 48;
    peer_id[4] = 48;
    peer_id[5] = 48;
    peer_id[6] = 49;
    peer_id[7] = 45;
    let mut i: usize = 8;
    while i < 20
        invariant
            8 <= i <= 20,
            peer_id@.len() == 20,
            peer_id@.take(8) == peer_id_prefix(),
            forall|k: int| 0 <= k < i - 8 ==> peer_id@[8 + k] == random@[k] % 10 + 48,
        decreases 20 - i,
    {
        peer_id[i] = (random[i - 8] % 10) + 48;
        assert(peer_id@.take(8) =~= peer_id_prefix());
        i = i + 1;
    }
    peer_id
}

/// A fresh peer id: the client prefix `-BC0001-` and twelve random decimal
/// digits, each made from a random byte (the low byte of a random `u32`,
/// which is how `rand` draws a `u8`).
pub fn generate_peer_id() -> (r: [u8; 20])
    ensures
        r@.take(8) == peer_id_prefix(),
        forall|i: int| 8 <= i < 20 ==> is_digit(#[trigger] r@[i]),
{
    let mut random: [u8; 12] = [0u8; 12];
    let mut i: usize = 0;
    while i < 12
        invariant
            i <= 12,
        decreases 12 - i,
    {
        random[i] = (random_u32() % 256) as u8;
        i = i + 1;
    }
    let r = peer_id_from_random(&random);
    assert forall|i: int| 8 <= i < 20 implies is_digit(#[trigger] r@[i]) by {
        assert(r@[8 + (i - 8)] == random@[i - 8] % 10 + 48);
    }
    r
}

/// A value that bencode can carry: every string fits in memory and the keys
/// of every dictionary are strictly increasing.
pub open spec fn well_formed(v: Bencode) -> bool
    decreases v, 0int,
{
    match v {
        Bencode::Str(s) => s.len() <= usize::MAX,
        Bencode::Int(_) => true,
        Bencode::List(l) => items_well_formed(l),
        Bencode::Dict(d) => entries_well_formed(d),
    }
}

pub open spec fn items_well_formed(l: Seq<Bencode>) -> bool
    decreases l, 0int,
{
    if l.len() == 0 {
        true
    } else {
        well_formed(l[0]) && items_well_formed(l.drop_first())
    }
}

pub open spec fn entries_well_formed(d: Seq<(Seq<u8>, Bencode)>) -> bool
    decreases d, 0int,
{
    if d.len() == 0 {
        true
    } else {
        &&& d[0].0.len() <= usize::MAX
        &&& well_formed(d[0].1)
        &&& (d.len() > 1 ==> bytes_lt(d[0].0, d[1].0))
        &&& entries_well_formed(d.drop_first())
    }
}

/// An encoding starts with the byte that announces its kind.
proof fn lemma_encode_first(v: Bencode)
    ensures
        spec_encode(v).len() >= 1,
        spec_encode(v)[0] == 105 || spec_encode(v)[0] == 108 || spec_encode(v)[0] == 100
            || is_digit(spec_encode(v)[0]),
{
    match v {
        Bencode::Str(s) => {
            lemma_decimal_digits(s.len());
            assert(spec_encode(v)[0] == decimal_digits(s.len())[0]);
        },
        _ => {},
    }
}

/// The first occurrence of `b` in `x` is at `i`.
proof fn lemma_first_index_at(x: Seq<u8>, b: u8, i: int)
    requires
        0 <= i < x.len(),
        x[i] == b,
        forall|j: int| 0 <= j < i ==> x[j] != b,
    ensures
        first_index(x, b) == Some(i),
{
    lemma_first_index(x, b);
}

/// A string written as `<length>:<bytes>` reads back, whatever follows it.
proof fn lemma_parse_string_encoded(s: Seq<u8>, t: Seq<u8>)
    requires
        s.len() <= usize::MAX,
    ensures
        spec_parse_string(decimal_digits(s.len()) + seq![58u8] + s + t) == Ok::<
            (Seq<u8>, int),
            BencodeError,
        >((s, (decimal_digits(s.len()).len() + 1 + s.len()) as int)),
{
    let d = decimal_digits(s.len());
    let x = d + seq![58u8] + s + t;
    lemma_decimal_digits(s.len());
    assert(forall|j: int| 0 <= j < d.len() ==> x[j] == d[j]);
    assert(forall|j: int| 0 <= j < d.len() ==> is_digit(#[trigger] d[j]));
    lemma_first_index_at(x, 58, d.len() as int);
    assert(x.take(d.len() as int) =~= d);
    assert(is_digit(d[0]));
    assert(unsigned_body(d) == d);
    assert(x.subrange(d.len() + 1 as int, d.len() + 1 + s.len() as int) =~= s);
}

/// An integer written as `i<digits>e` reads back, whatever follows it.
proof fn lemma_parse_integer_encoded(i: i64, t: Seq<u8>)
    ensures
        spec_parse_integer(seq![105u8] + signed_decimal(i as int) + seq![101u8] + t) == Ok::<
            (i64, int),
            BencodeError,
        >((i, signed_decimal(i as int).len() + 2 as int)),
{
    let d = signed_decimal(i as int);
    let x = seq![105u8] + d + seq![101u8] + t;
    lemma_signed_decimal(i);
    assert(forall|j: int| 1 <= j < d.len() + 1 ==> x[j] == d[j - 1]);
    assert forall|j: int| 0 <= j < d.len() + 1 implies x[j] != 101 by {
        if j > 0 {
            assert(x[j] == d[j - 1]);
        }
    }
    lemma_first_index_at(x, 101, d.len() + 1 as int);
    assert(x.subrange(1, d.len() + 1 as int) =~= d);
    assert(!has_leading_zero(d));
}

/// Any well-formed value, once written, reads back as itself and the reader
/// stops exactly at the end of its encoding, whatever follows it.
pub proof fn lemma_parse_encoded(v: Bencode, t: Seq<u8>)
    requires
        well_formed(v),
    ensures
        spec_parse_value(spec_encode(v) + t) == Ok::<(Bencode, int), BencodeError>(
            (v, spec_encode(v).len() as int),
        ),
    decreases v, 1int,
{
    let x = spec_encode(v) + t;
    lemma_encode_first(v);
    assert(x[0] == spec_encode(v)[0]);
    match v {
        Bencode::Str(s) => {
            lemma_decimal_digits(s.len());
            assert(x =~= decimal_digits(s.len()) + seq![58u8] + s + t);
            lemma_parse_string_encoded(s, t);
        },
        Bencode::Int(i) => {
            assert(x =~= seq![105u8] + signed_decimal(i as int) + seq![101u8] + t);
            lemma_parse_integer_encoded(i, t);
        },
        Bencode::List(l) => {
            assert(x.drop_first() =~= encode_items(l) + seq![101u8] + t);
            lemma_parse_items(l, t);
        },
        Bencode::Dict(d) => {
            assert(x.drop_first() =~= encode_entries(d) + seq![101u8] + t);
            lemma_parse_entries(d, None, t);
        },
    }
}

proof fn lemma_parse_items(l: Seq<Bencode>, t: Seq<u8>)
    requires
        items_well_formed(l),
    ensures
        spec_parse_list_items(encode_items(l) + seq![101u8] + t) == Ok::<
            (Seq<Bencode>, int),
            BencodeError,
        >((l, encode_items(l).len() + 1 as int)),
    decreases l, 0int,
{
    let x = encode_items(l) + seq![101u8] + t;
    if l.len() == 0 {
        assert(x[0] == 101);
        assert(l =~= Seq::<Bencode>::empty());
    } else {
        let first = spec_encode(l[0]);
        let more = encode_items(l.drop_first()) + seq![101u8] + t;
        assert(x =~= first + more);
        lemma_encode_first(l[0]);
        assert(x[0] == first[0]);
        lemma_parse_encoded(l[0], more);
        assert(x.skip(first.len() as int) =~= more);
        lemma_parse_items(l.drop_first(), t);
        assert(seq![l[0]] + l.drop_first() =~= l);
    }
}

proof fn lemma_parse_entries(d: Seq<(Seq<u8>, Bencode)>, last: Option<Seq<u8>>, t: Seq<u8>)
    requires
        entries_well_formed(d),
        last is Some && d.len() > 0 ==> bytes_lt(last->0, d[0].0),
    ensures
        spec_parse_dict_items(encode_entries(d) + seq![101u8] + t, last) == Ok::<
            (Seq<(Seq<u8>, Bencode)>, int),
            BencodeError,
        >((d, encode_entries(d).len() + 1 as int)),
    decreases d, 0int,
{
    let x = encode_entries(d) + seq![101u8] + t;
    if d.len() == 0 {
        assert(x[0] == 101);
        assert(d =~= Seq::<(Seq<u8>, Bencode)>::empty());
    } else {
        let key = d[0].0;
        let kd = decimal_digits(key.len());
        let value = spec_encode(d[0].1);
        let more = encode_entries(d.drop_first()) + seq![101u8] + t;
        assert(x =~= kd + seq![58u8] + key + (value + more));
        lemma_decimal_digits(key.len());
        assert(x[0] == kd[0]);
        lemma_parse_string_encoded(key, value + more);
        let n = kd.len() + 1 + key.len() as int;
        let rest = x.skip(n);
        assert(rest =~= value + more);
        lemma_parse_encoded(d[0].1, more);
        assert(rest.skip(value.len() as int) =~= more);
        lemma_parse_entries(d.drop_first(), Some(key), t);
        assert(seq![(key, d[0].1)] + d.drop_first() =~= d);
    }
}

/// Reading back what `encode` writes gives the value that was written, for
/// every value whose strings fit in memory and whose dictionary keys are
/// strictly increasing.
pub proof fn law_parse_inverts_encode(v: Bencode)
    requires
        well_formed(v),
    ensures
        spec_parse(spec_encode(v)) == Ok::<Bencode, BencodeError>(v),
{
    lemma_parse_encoded(v, Seq::empty());
    assert(spec_encode(v) + Seq::<u8>::empty() =~= spec_encode(v));
}


/// An encoding followed by more bytes is refused as trailing data.
pub proof fn law_trailing_bytes_are_refused(v: Bencode, t: Seq<u8>)
    requires
        well_formed(v),
        t.len() > 0,
    ensures
        spec_parse(spec_encode(v) + t) == Err::<Bencode, BencodeError>(BencodeError::TrailingData),
{
    lemma_parse_encoded(v, t);
}

/// A dictionary whose second key does not come after its first, in byte
/// order, is refused, whatever the values.
pub proof fn law_dictionary_keys_must_increase(k1: Seq<u8>, v1: Bencode, k2: Seq<u8>, v2: Bencode)
    requires
        k1.len() <= usize::MAX,
        k2.len() <= usize::MAX,
        well_formed(v1),
        well_formed(v2),
        !bytes_lt(k1, k2),
    ensures
        spec_parse(
            seq![100u8] + spec_encode(Bencode::Str(k1)) + spec_encode(v1) + spec_encode(
                Bencode::Str(k2),
            ) + spec_encode(v2) + seq![101u8],
        ) == Err::<Bencode, BencodeError>(BencodeError::DictKeysNotSorted),
{
    let e1 = spec_encode(Bencode::Str(k1));
    let e2 = spec_encode(Bencode::Str(k2));
    let x1 = spec_encode(v1);
    let x2 = spec_encode(v2);
    let s = seq![100u8] + e1 + x1 + e2 + x2 + seq![101u8];
    let body = s.drop_first();
    let after_key = x1 + e2 + x2 + seq![101u8];
    let rest2 = e2 + x2 + seq![101u8];
    let tail2 = x2 + seq![101u8];
    assert(body =~= decimal_digits(k1.len()) + seq![58u8] + k1 + after_key);
    lemma_decimal_digits(k1.len());
    lemma_decimal_digits(k2.len());
    assert(body[0] == decimal_digits(k1.len())[0]);
    lemma_parse_string_encoded(k1, after_key);
    let n1 = decimal_digits(k1.len()).len() + 1 + k1.len();
    assert(body.skip(n1 as int) =~= x1 + rest2);
    lemma_parse_encoded(v1, rest2);
    assert(body.skip(n1 as int).skip(x1.len() as int) =~= rest2);
    assert(rest2 =~= decimal_digits(k2.len()) + seq![58u8] + k2 + tail2);
    assert(rest2[0] == decimal_digits(k2.len())[0]);
    lemma_parse_string_encoded(k2, tail2);
    assert(spec_parse_dict_items(rest2, Some(k1)) == Err::<
        (Seq<(Seq<u8>, Bencode)>, int),
        BencodeError,
    >(BencodeError::DictKeysNotSorted));
    assert(s[0] == 100);
}


/// An integer's digits as `to_string` writes them: an optional `-`, then a
/// canonical numeral.
pub open spec fn canonical_integer(body: Seq<u8>) -> bool {
    if body.len() > 0 && body[0] == 45 {
        canonical_digits(body.drop_first())
    } else {
        canonical_digits(body)
    }
}

/// The length before the first `:` is written canonically.
pub open spec fn canonical_length(s: Seq<u8>) -> bool {
    match first_index(s, 58) {
        Some(c) => canonical_digits(s.take(c)),
        None => false,
    }
}

/// Every numeral of the value at the start of `s` (integers and string
/// lengths, dictionary keys included) is written as `to_string` writes it:
/// no `+` and no superfluous leading zero.
pub open spec fn canonical_value(s: Seq<u8>) -> bool
    decreases s.len(), 1int,
{
    if s.len() == 0 {
        false
    } else if s[0] == 105 {
        match first_index(s, 101) {
            Some(e) => 1 <= e && canonical_integer(s.subrange(1, e)),
            None => false,
        }
    } else if s[0] == 108 {
        canonical_items(s.drop_first())
    } else if s[0] == 100 {
        canonical_entries(s.drop_first())
    } else {
        canonical_length(s)
    }
}

/// The numerals of the items of a list, up to its closing `e`, are canonical.
pub open spec fn canonical_items(s: Seq<u8>) -> bool
    decreases s.len(), 2int,
{
    if s.len() > 0 && s[0] == 101 {
        true
    } else {
        match spec_parse_value(s) {
            Ok((v, n)) => if 0 < n <= s.len() {
                canonical_value(s) && canonical_items(s.skip(n))
            } else {
                false
            },
            Err(_) => false,
        }
    }
}

/// The numerals of the entries of a dictionary, up to its closing `e`, are
/// canonical.
pub open spec fn canonical_entries(s: Seq<u8>) -> bool
    decreases s.len(), 2int,
{
    if s.len() > 0 && s[0] == 101 {
        true
    } else {
        match spec_parse_string(s) {
            Ok((key, n)) => if 0 < n <= s.len() {
                let rest = s.skip(n);
                canonical_length(s) && match spec_parse_value(rest) {
                    Ok((v, m)) => if 0 < m <= rest.len() {
                        canonical_value(rest) && canonical_entries(rest.skip(m))
                    } else {
                        false
                    },
                    Err(_) => false,
                }
            } else {
                false
            },
            Err(_) => false,
        }
    }
}

proof fn lemma_canonical_string(s: Seq<u8>)
    requires
        canonical_length(s),
    ensures
        spec_parse_string(s) matches Ok((content, n)) ==> decimal_digits(content.len())
            + seq![58u8] + content == s.take(n),
{
    if let Ok((content, n)) = spec_parse_string(s) {
        lemma_first_index(s, 58);
        let c = first_index(s, 58)->0;
        let d = s.take(c);
        assert(is_digit(d[0]));
        assert(unsigned_body(d) == d);
        lemma_canonical_digits(d);
        assert(content.len() == digits_value(d));
        assert(decimal_digits(content.len()) + seq![58u8] + content =~= s.take(n));
    }
}

proof fn lemma_canonical_integer(s: Seq<u8>)
    requires
        s.len() > 0,
        s[0] == 105,
        canonical_value(s),
    ensures
        spec_parse_integer(s) matches Ok((v, n)) ==> seq![105u8] + signed_decimal(v as int)
            + seq![101u8] == s.take(n),
{
    if let Ok((v, n)) = spec_parse_integer(s) {
        lemma_first_index(s, 101);
        let e = first_index(s, 101)->0;
        let body = s.subrange(1, e);
        assert(!has_leading_zero(body));
        if body[0] == 45 {
            let d = body.drop_first();
            lemma_canonical_digits(d);
            assert(d[0] == body[1]);
            lemma_digits_value_positive(d);
            assert(signed_decimal(v as int) =~= body);
        } else {
            assert(is_digit(body[0]));
            assert(unsigned_body(body) == body);
            lemma_canonical_digits(body);
            assert(signed_decimal(v as int) =~= body);
        }
        assert(seq![105u8] + signed_decimal(v as int) + seq![101u8] =~= s.take(n));
    }
}

proof fn lemma_canonical_value(s: Seq<u8>)
    ensures
        canonical_value(s) ==> (spec_parse_value(s) matches Ok((v, n)) ==> spec_encode(v)
            == s.take(n)),
    decreases s.len(), 1int,
{
    if s.len() > 0 && canonical_value(s) {
        if s[0] == 105 {
            lemma_canonical_integer(s);
        } else if s[0] == 108 {
            lemma_canonical_items(s.drop_first());
            lemma_parsed_items_wf(s.drop_first());
            if let Ok((l, m)) = spec_parse_list_items(s.drop_first()) {
                assert(seq![108u8] + s.drop_first().take(m) =~= s.take(m + 1));
            }
        } else if s[0] == 100 {
            lemma_canonical_entries(s.drop_first(), None);
            lemma_parsed_entries_wf(s.drop_first(), None);
            if let Ok((d, m)) = spec_parse_dict_items(s.drop_first(), None) {
                assert(seq![100u8] + s.drop_first().take(m) =~= s.take(m + 1));
            }
        } else if is_digit(s[0]) {
            lemma_canonical_string(s);
        }
    }
}

proof fn lemma_canonical_items(s: Seq<u8>)
    ensures
        canonical_items(s) ==> (spec_parse_list_items(s) matches Ok((l, n)) ==> encode_items(l)
            + seq![101u8] == s.take(n)),
    decreases s.len(), 2int,
{
    if s.len() > 0 && s[0] == 101 {
        assert(s.take(1) =~= seq![101u8]);
        assert(encode_items(Seq::<Bencode>::empty()) == Seq::<u8>::empty());
        assert(encode_items(Seq::<Bencode>::empty()) + seq![101u8] =~= seq![101u8]);
    } else if canonical_items(s) {
        lemma_canonical_value(s);
        if let Ok((v, n)) = spec_parse_value(s) {
            if 0 < n <= s.len() {
                lemma_canonical_items(s.skip(n));
                lemma_parsed_items_wf(s.skip(n));
                if let Ok((rest, m)) = spec_parse_list_items(s.skip(n)) {
                    let l = seq![v] + rest;
                    assert(l[0] == v);
                    assert(l.drop_first() =~= rest);
                    assert(encode_items(l) == spec_encode(v) + encode_items(rest));
                    assert(s.take(n) + s.skip(n).take(m) =~= s.take(n + m));
                    assert(encode_items(l) + seq![101u8] =~= s.take(n) + (encode_items(rest)
                        + seq![101u8]));
                }
            }
        }
    }
}

proof fn lemma_canonical_entries(s: Seq<u8>, last: Option<Seq<u8>>)
    ensures
        canonical_entries(s) ==> (spec_parse_dict_items(s, last) matches Ok((d, n))
            ==> encode_entries(d) + seq![101u8] == s.take(n)),
    decreases s.len(), 2int,
{
    if s.len() > 0 && s[0] == 101 {
        assert(s.take(1) =~= seq![101u8]);
        assert(encode_entries(Seq::<(Seq<u8>, Bencode)>::empty()) + seq![101u8] =~= seq![101u8]);
    } else if canonical_entries(s) {
        lemma_canonical_string(s);
        if let Ok((key, n)) = spec_parse_string(s) {
            if 0 < n <= s.len() && !(last is Some && !bytes_lt(last->0, key)) {
                let rest = s.skip(n);
                lemma_canonical_value(rest);
                if let Ok((v, m)) = spec_parse_value(rest) {
                    if 0 < m <= rest.len() {
                        lemma_canonical_entries(rest.skip(m), Some(key));
                        lemma_parsed_entries_wf(rest.skip(m), Some(key));
                        if let Ok((more, k)) = spec_parse_dict_items(rest.skip(m), Some(key)) {
                            let d = seq![(key, v)] + more;
                            assert(d[0] == (key, v));
                            assert(d.drop_first() =~= more);
                            assert(rest.take(m) + rest.skip(m).take(k) =~= rest.take(m + k));
                            assert(s.take(n) + rest.take(m + k) =~= s.take(n + m + k));
                            assert(encode_entries(d) + seq![101u8] =~= (decimal_digits(key.len())
                                + seq![58u8] + key) + spec_encode(v) + (encode_entries(more)
                                + seq![101u8]));
                        }
                    }
                }
            }
        }
    }
}

/// Writing back what the reader accepted gives the input byte for byte,
/// when every numeral in it (integers and string lengths) is written as
/// `to_string` writes it: no `+` and no superfluous leading zero.
pub proof fn law_encode_of_canonical_parse_is_input(s: Seq<u8>)
    ensures
        canonical_value(s) ==> (spec_parse(s) matches Ok(v) ==> spec_encode(v) == s),
{
    lemma_canonical_value(s);
    if let Ok((v, n)) = spec_parse_value(s) {
        if n == s.len() {
            assert(s.take(n) =~= s);
        }
    }
}


/// A key that begins the next key comes before it: a dictionary whose second
/// key is its first key extended by more bytes reads back as written.
pub proof fn law_dictionary_with_extended_key_reads_back(
    k: Seq<u8>,
    x: Seq<u8>,
    v: Bencode,
    w: Bencode,
)
    requires
        x.len() > 0,
        k.len() + x.len() <= usize::MAX,
        well_formed(v),
        well_formed(w),
    ensures
        spec_parse(
            seq![100u8] + spec_encode(Bencode::Str(k)) + spec_encode(v) + spec_encode(
                Bencode::Str(k + x),
            ) + spec_encode(w) + seq![101u8],
        ) == Ok::<Bencode, BencodeError>(Bencode::Dict(seq![(k, v), (k + x, w)])),
{
    let d = seq![(k, v), (k + x, w)];
    law_bytes_lt_on_prefixes(k, k + x);
    assert((k + x).take(k.len() as int) =~= k);
    let tail = seq![(k + x, w)];
    assert(d.drop_first() =~= tail);
    assert(tail.drop_first() =~= Seq::<(Seq<u8>, Bencode)>::empty());
    assert(entries_well_formed(Seq::<(Seq<u8>, Bencode)>::empty()));
    assert(entries_well_formed(tail));
    assert(entries_well_formed(d));
    assert(well_formed(Bencode::Dict(d)));
    law_parse_inverts_encode(Bencode::Dict(d));
    assert(encode_entries(Seq::<(Seq<u8>, Bencode)>::empty()) == Seq::<u8>::empty());
    assert(encode_entries(tail) =~= spec_encode(Bencode::Str(k + x)) + spec_encode(w));
    assert(encode_entries(d) =~= spec_encode(Bencode::Str(k)) + spec_encode(v) + encode_entries(
        tail,
    ));
    assert(spec_encode(Bencode::Dict(d)) =~= seq![100u8] + spec_encode(Bencode::Str(k))
        + spec_encode(v) + spec_encode(Bencode::Str(k + x)) + spec_encode(w) + seq![101u8]);
}


proof fn lemma_parsed_value_wf(s: Seq<u8>)
    ensures
        spec_parse_value(s) matches Ok((v, n)) ==> well_formed(v) && 0 < n <= s.len(),
    decreases s.len(), 1int,
{
    if s.len() > 0 {
        if s[0] == 108 {
            lemma_parsed_items_wf(s.drop_first());
        } else if s[0] == 100 {
            lemma_parsed_entries_wf(s.drop_first(), None);
        } else if s[0] == 105 {
            lemma_first_index(s, 101);
        } else {
            lemma_first_index(s, 58);
        }
    }
}

proof fn lemma_parsed_items_wf(s: Seq<u8>)
    ensures
        spec_parse_list_items(s) matches Ok((l, n)) ==> items_well_formed(l) && 0 < n <= s.len(),
    decreases s.len(), 2int,
{
    if !(s.len() > 0 && s[0] == 101) {
        lemma_parsed_value_wf(s);
        if let Ok((v, n)) = spec_parse_value(s) {
            if 0 < n <= s.len() {
                lemma_parsed_items_wf(s.skip(n));
                if let Ok((rest, m)) = spec_parse_list_items(s.skip(n)) {
                    let l = seq![v] + rest;
                    assert(l[0] == v);
                    assert(l.drop_first() =~= rest);
                }
            }
        }
    }
}

proof fn lemma_parsed_entries_wf(s: Seq<u8>, last: Option<Seq<u8>>)
    ensures
        spec_parse_dict_items(s, last) matches Ok((d, n)) ==> {
            &&& entries_well_formed(d)
            &&& 0 < n <= s.len()
            &&& (last is Some && d.len() > 0 ==> bytes_lt(last->0, d[0].0))
        },
    decreases s.len(), 2int,
{
    if !(s.len() > 0 && s[0] == 101) {
        lemma_first_index(s, 58);
        if let Ok((key, n)) = spec_parse_string(s) {
            if !(last is Some && !bytes_lt(last->0, key)) && 0 < n <= s.len() {
                let rest = s.skip(n);
                lemma_parsed_value_wf(rest);
                if let Ok((v, m)) = spec_parse_value(rest) {
                    if 0 < m <= rest.len() {
                        lemma_parsed_entries_wf(rest.skip(m), Some(key));
                        if let Ok((more, k)) = spec_parse_dict_items(rest.skip(m), Some(key)) {
                            let d = seq![(key, v)] + more;
                            assert(d[0] == (key, v));
                            assert(d.drop_first() =~= more);
                            if more.len() > 0 {
                                assert(d[1] == more[0]);
                            }
                        }
                    }
                }
            }
        }
    }
}

/// Whatever the reader accepts is well formed: its dictionary keys are
/// strictly increasing and its strings fit in memory.
pub proof fn law_parsed_values_are_well_formed(s: Seq<u8>)
    ensures
        spec_parse(s) matches Ok(v) ==> well_formed(v),
{
    lemma_parsed_value_wf(s);
}

/// Whatever the reader accepts, written back out with `encode`, reads back as
/// the same value.
pub proof fn law_encode_of_parsed_reads_back(s: Seq<u8>)
    ensures
        spec_parse(s) matches Ok(v) ==> spec_parse(spec_encode(v)) == Ok::<Bencode, BencodeError>(
            v,
        ),
{
    lemma_parsed_value_wf(s);
    if let Ok(v) = spec_parse(s) {
        law_parse_inverts_encode(v);
    }
}

} // verus!
