use vstd::prelude::*;
use vstd::utf8::{valid_utf8, decode_utf8};
use crate::data_type::{DataType, tag_of};
use crate::errors::{ErrorModel, TNetStrError};
use crate::text::{
    all_digits, bool_text, decimal_text, digit_run_value, digits_value, is_digit, parse_bool,
    parse_decimal, parse_signed, signed_text,
};
use crate::tnet::{
    lemma_entries_model_push, lemma_pairs_model_push, entries_model, pairs_model, DataModel, EntryModel, TNetData, TNetDictionary, TNetEntry,
    TNetFloat,
};

verus! {

/// Number of consecutive digits from `p` on.
pub open spec fn digit_run(s: Seq<u8>, p: int) -> nat
    decreases s.len() - p,
{
    if 0 <= p < s.len() && is_digit(s[p]) {
        1 + digit_run(s, p + 1)
    } else {
        0
    }
}

/// The value of the length digits at `p`.
pub open spec fn declared_length(s: Seq<u8>, p: int) -> nat {
    digits_value(s.subrange(p, p + digit_run(s, p)))
}

/// The length prefix at `p`: one to nine digits, then `:`.
pub open spec fn length_field(s: Seq<u8>, p: int) -> Result<nat, ErrorModel> {
    let d = digit_run(s, p);
    if d > 9 {
        Err(ErrorModel::LengthTooLong)
    } else if p + d >= s.len() {
        Err(ErrorModel::LengthTerminatorNotFound)
    } else if s[p + d] != 58 {
        Err(ErrorModel::NonASCIINumericValueInLengthField(s[p + d]))
    } else if d == 0 {
        Err(ErrorModel::NoLengthSpecified)
    } else {
        Ok(declared_length(s, p))
    }
}

/// Where the payload of the entry at `p` begins.
pub open spec fn payload_start(s: Seq<u8>, p: int) -> int {
    p + digit_run(s, p) + 1
}

/// Where the entry at `p` ends: just past its type marker.
pub open spec fn entry_end(s: Seq<u8>, p: int) -> int {
    payload_start(s, p) + declared_length(s, p) + 1
}

/// The entry that starts at `p`, or the first rule it breaks.
pub open spec fn entry_at(s: Seq<u8>, p: int) -> Result<EntryModel, ErrorModel>
    decreases s.len() - p, 0int,
{
    match length_field(s, p) {
        Err(e) => Err(e),
        Ok(n) => {
            let start = payload_start(s, p);
            if start + n >= s.len() {
                Err(ErrorModel::LengthWasNotAccurate)
            } else {
                match tag_of(s[start + n]) {
                    None => Err(ErrorModel::UnrecognizedDataType(s[start + n])),
                    Some(t) => match payload_value(t, s.subrange(start, start + n)) {
                        Err(e) => Err(e),
                        Ok(d) => Ok(EntryModel { data: d, size: n as u32, tag: t }),
                    },
                }
            }
        },
    }
}

/// What a payload means under a given kind.
pub open spec fn payload_value(t: DataType, b: Seq<u8>) -> Result<DataModel, ErrorModel>
    decreases b.len(), 2int,
{
    match t {
        DataType::Bytes => Ok(DataModel::Bytes(b)),
        DataType::Null => Ok(DataModel::Null),
        DataType::Integer => if !valid_utf8(b) {
            Err(ErrorModel::DataNotUTF8Compatible)
        } else {
            match signed_text(b) {
                None => Err(ErrorModel::CouldNotParseData),
                Some(v) => Ok(DataModel::Integer(v)),
            }
        },
        DataType::Boolean => if !valid_utf8(b) {
            Err(ErrorModel::DataNotUTF8Compatible)
        } else {
            match bool_text(b) {
                None => Err(ErrorModel::CouldNotParseData),
                Some(v) => Ok(DataModel::Boolean(v)),
            }
        },
        DataType::Float => if !valid_utf8(b) {
            Err(ErrorModel::DataNotUTF8Compatible)
        } else {
            match decimal_text(b) {
                None => Err(ErrorModel::FloatParseError(decode_utf8(b))),
                Some((i, f)) => Ok(DataModel::Float(i, f)),
            }
        },
        DataType::List => match list_items(b, 0) {
            Err(e) => Err(e),
            Ok(items) => Ok(DataModel::List(items)),
        },
        DataType::Dictionary => match dict_pairs(b, 0) {
            Err(e) => Err(e),
            Ok(pairs) => Ok(DataModel::Dictionary(pairs)),
        },
    }
}

/// The entries of a list payload from `p` to its end.
pub open spec fn list_items(b: Seq<u8>, p: int) -> Result<Seq<EntryModel>, ErrorModel>
    decreases b.len() - p, 1int,
{
    if p >= b.len() {
        Ok(Seq::empty())
    } else {
        match entry_at(b, p) {
            Err(e) => Err(e),
            Ok(e) => if entry_end(b, p) > b.len() {
                Err(ErrorModel::LengthWasNotAccurate)
            } else {
                match list_items(b, entry_end(b, p)) {
                    Err(x) => Err(x),
                    Ok(rest) => Ok(seq![e] + rest),
                }
            },
        }
    }
}

/// The key/value pairs of a dictionary payload from `p` to its end.
pub open spec fn dict_pairs(b: Seq<u8>, p: int) -> Result<Seq<(EntryModel, EntryModel)>, ErrorModel>
    decreases b.len() - p, 1int,
{
    if p >= b.len() {
        Ok(Seq::empty())
    } else {
        match entry_at(b, p) {
            Err(e) => Err(e),
            Ok(k) => {
                let q = entry_end(b, p);
                if q >= b.len() {
                    Err(ErrorModel::UnbalancedDictionary)
                } else {
                    match entry_at(b, q) {
                        Err(e) => Err(e),
                        Ok(v) => if k.tag != DataType::Bytes {
                            Err(ErrorModel::DictionaryKeyWasNotBytes)
                        } else if entry_end(b, q) > b.len() {
                            Err(ErrorModel::LengthWasNotAccurate)
                        } else {
                            match dict_pairs(b, entry_end(b, q)) {
                                Err(x) => Err(x),
                                Ok(rest) => Ok(seq![(k, v)] + rest),
                            }
                        },
                    }
                }
            },
        }
    }
}

/// What decoding a buffer gives: its first entry; later bytes are not read.
pub open spec fn decode(s: Seq<u8>) -> Result<EntryModel, ErrorModel> {
    entry_at(s, 0)
}


/// Results of a successful scan carried in front of what is still to come.
pub open spec fn prepend<A>(pre: Seq<A>, r: Result<Seq<A>, ErrorModel>) -> Result<Seq<A>, ErrorModel> {
    match r {
        Ok(rest) => Ok(pre + rest),
        Err(e) => Err(e),
    }
}

pub open spec fn entry_result(r: Result<TNetEntry, TNetStrError>, m: Result<EntryModel, ErrorModel>) -> bool {
    match m {
        Ok(em) => r matches Ok(e) && e@ == em,
        Err(x) => r matches Err(y) && y@ == x,
    }
}

pub open spec fn data_result(r: Result<TNetData, TNetStrError>, m: Result<DataModel, ErrorModel>) -> bool {
    match m {
        Ok(dm) => r matches Ok(d) && d@ == dm,
        Err(x) => r matches Err(y) && y@ == x,
    }
}

pub open spec fn pow10(n: nat) -> nat
    decreases n,
{
    if n == 0 {
        1
    } else {
        10 * pow10((n - 1) as nat)
    }
}

pub proof fn lemma_digits_bound(s: Seq<u8>)
    requires
        all_digits(s),
    ensures
        digits_value(s) < pow10(s.len()),
    decreases s.len(),
{
    if s.len() > 0 {
        let t = s.drop_last();
        assert(all_digits(t)) by {
            assert forall|i: int| 0 <= i < t.len() implies is_digit(#[trigger] t[i]) by {
                assert(s[i] == t[i]);
            }
        }
        lemma_digits_bound(t);
        assert(is_digit(s[s.len() - 1]));
        let v = digits_value(t);
        let q = pow10(t.len());
        assert(v * 10 + 9 < 10 * q) by (nonlinear_arith)
            requires
                v < q,
        ;
    }
}

pub proof fn lemma_digit_run_split(s: Seq<u8>, p: int, i: int)
    requires
        0 <= p <= i <= s.len(),
        forall|k: int| p <= k < i ==> is_digit(#[trigger] s[k]),
    ensures
        digit_run(s, p) == (i - p) + digit_run(s, i),
    decreases i - p,
{
    if p < i {
        lemma_digit_run_split(s, p + 1, i);
    }
}

/// Relies on std::str::from_utf8: it accepts exactly the well-formed UTF-8
/// sequences, and the text it returns is what those bytes encode.
#[verifier::external_body]
fn utf8_text(b: &[u8]) -> (r: Option<String>)
    ensures
        r is Some <==> valid_utf8(b@),
        r matches Some(s) ==> s@ == decode_utf8(b@),
{
    match std::str::from_utf8(b) {
        Ok(s) => Some(s.to_string()),
        Err(_) => None,
    }
}

fn copy_bytes(s: &[u8]) -> (r: Vec<u8>)
    ensures
        r@ == s@,
{
    let mut r: Vec<u8> = Vec::new();
    let mut i: usize = 0;
    while i < s.len()
        invariant
            i <= s@.len(),
            r@ == s@.subrange(0, i as int),
        decreases s@.len() - i,
    {
        r.push(s[i]);
        i = i + 1;
        assert(r@ =~= s@.subrange(0, i as int));
    }
    assert(r@ =~= s@);
    r
}

/// Takes one byte of a length prefix: a digit is kept, `:` closes the prefix.
pub fn read_length_byte(byte: &u8, bytes_read: &mut Vec<u8>) -> (r: Result<Option<u32>, TNetStrError>)
    requires
        old(bytes_read)@.len() <= 9,
        all_digits(old(bytes_read)@),
    ensures
        *byte == 58 ==> {
            &&& final(bytes_read)@ == old(bytes_read)@
            &&& if old(bytes_read)@.len() == 0 {
                r matches Err(TNetStrError::NoLengthSpecified)
            } else {
                &&& digits_value(old(bytes_read)@) < 1000000000
                &&& r == Ok::<Option<u32>, TNetStrError>(Some(digits_value(old(bytes_read)@) as u32))
            }
        },
        is_digit(*byte) ==> {
            &&& final(bytes_read)@ == old(bytes_read)@.push(*byte)
            &&& if final(bytes_read)@.len() > 9 {
                r matches Err(TNetStrError::LengthTooLong)
            } else {
                r matches Ok(None)
            }
        },
        *byte != 58 && !is_digit(*byte) ==> {
            &&& final(bytes_read)@ == old(bytes_read)@
            &&& (r matches Err(TNetStrError::NonASCIINumericValueInLengthField(b)) && b == *byte)
        },
{
    if *byte == 58u8 {
        if bytes_read.len() == 0 {
            return Err(TNetStrError::NoLengthSpecified);
        }
        let n = bytes_read.len();
        proof {
            lemma_digits_bound(bytes_read@);
            reveal_with_fuel(pow10, 10);
            assert(pow10(9) == 1000000000);
            if n < 9 {
                lemma_pow10_mono(n as nat, 9);
            }
            assert(bytes_read@.subrange(0, n as int) =~= bytes_read@);
        }
        match digit_run_value(bytes_read.as_slice(), 0, n, 999999999u64) {
            Some(v) => Ok(Some(v as u32)),
            None => Err(TNetStrError::CouldNotParseLength),
        }
    } else if 48u8 <= *byte && *byte <= 57u8 {
        bytes_read.push(*byte);
        proof {
            assert forall|i: int| 0 <= i < bytes_read@.len() implies is_digit(#[trigger] bytes_read@[i]) by {
                if i < old(bytes_read)@.len() {
                    assert(bytes_read@[i] == old(bytes_read)@[i]);
                }
            }
        }
        if bytes_read.len() > 9 {
            Err(TNetStrError::LengthTooLong)
        } else {
            Ok(None)
        }
    } else {
        Err(TNetStrError::NonASCIINumericValueInLengthField(*byte))
    }
}

pub proof fn lemma_pow10_mono(a: nat, b: nat)
    requires
        a <= b,
    ensures
        pow10(a) <= pow10(b),
    decreases b - a,
{
    if a < b {
        lemma_pow10_mono(a, (b - 1) as nat);
    }
}

/// Reads the length prefix at `*position` and moves past its `:`.
pub fn parse_length(input: &[u8], position: &mut usize) -> (r: Result<u32, TNetStrError>)
    requires
        *old(position) <= input@.len(),
    ensures
        match length_field(input@, *old(position) as int) {
            Ok(n) => {
                &&& r == Ok::<u32, TNetStrError>(n as u32)
                &&& n < 1000000000
                &&& *final(position) == payload_start(input@, *old(position) as int)
            },
            Err(e) => r matches Err(x) && x@ == e,
        },
{
    let start = *position;
    let mut bytes_read: Vec<u8> = Vec::new();
    let mut i: usize = start;
    while i < input.len()
        invariant
            start <= i <= input@.len(),
            *position == start,
            start == *old(position),
            bytes_read@ == input@.subrange(start as int, i as int),
            all_digits(bytes_read@),
            bytes_read@.len() <= 9,
        decreases input@.len() - i,
    {
        let byte = input[i];
        proof {
            assert forall|k: int| start <= k < i implies is_digit(#[trigger] input@[k]) by {
                assert(input@[k] == bytes_read@[k - start]);
            }
            lemma_digit_run_split(input@, start as int, i as int);
            assert(input@.subrange(start as int, i as int) =~= bytes_read@);
        }
        match read_length_byte(&byte, &mut bytes_read) {
            Err(e) => {
                proof {
                    if is_digit(byte) {
                        assert(digit_run(input@, i as int) >= 1);
                    }
                }
                return Err(e);
            },
            Ok(Some(len)) => {
                *position = i + 1;
                return Ok(len);
            },
            Ok(None) => {},
        }
        i = i + 1;
        assert(bytes_read@ =~= input@.subrange(start as int, i as int));
    }
    proof {
        assert forall|k: int| start <= k < i implies is_digit(#[trigger] input@[k]) by {
            assert(input@[k] == bytes_read@[k - start]);
        }
        lemma_digit_run_split(input@, start as int, i as int);
    }
    Err(TNetStrError::LengthTerminatorNotFound)
}


/// Interprets a payload under its kind.
fn payload_data(t: DataType, payload: &[u8]) -> (r: Result<TNetData, TNetStrError>)
    ensures
        data_result(r, payload_value(t, payload@)),
    decreases payload@.len(), 2int,
{
    match t {
        DataType::Bytes => Ok(TNetData::Bytes(copy_bytes(payload))),
        DataType::Null => Ok(TNetData::Null),
        DataType::Integer => match utf8_text(payload) {
            None => Err(TNetStrError::DataNotUTF8Compatible),
            Some(_) => match parse_signed(payload) {
                None => Err(TNetStrError::CouldNotParseData),
                Some(v) => Ok(TNetData::Integer(v)),
            },
        },
        DataType::Boolean => match utf8_text(payload) {
            None => Err(TNetStrError::DataNotUTF8Compatible),
            Some(_) => match parse_bool(payload) {
                None => Err(TNetStrError::CouldNotParseData),
                Some(v) => Ok(TNetData::Boolean(v)),
            },
        },
        DataType::Float => match utf8_text(payload) {
            None => Err(TNetStrError::DataNotUTF8Compatible),
            Some(text) => match parse_decimal(payload) {
                None => Err(TNetStrError::FloatParseError(text)),
                Some((integral, fractional)) => Ok(TNetData::Float(TNetFloat { integral, fractional })),
            },
        },
        DataType::List => match parse_list(payload) {
            Err(e) => Err(e),
            Ok(l) => Ok(TNetData::List(l)),
        },
        DataType::Dictionary => match parse_dictionary(payload) {
            Err(e) => Err(e),
            Ok(d) => Ok(TNetData::Dictionary(d)),
        },
    }
}

/// Decodes the entry at `*position` and moves past it.
pub fn parse_entry(input: &[u8], position: &mut usize) -> (r: Result<TNetEntry, TNetStrError>)
    requires
        *old(position) <= input@.len(),
    ensures
        entry_result(r, entry_at(input@, *old(position) as int)),
        r is Ok ==> *final(position) == entry_end(input@, *old(position) as int),
        r is Ok ==> *final(position) <= input@.len(),
    decreases input@.len() - *old(position), 0int,
{
    let len = match parse_length(input, position) {
        Ok(l) => l,
        Err(e) => return Err(e),
    };
    let start = *position;
    let n = len as usize;
    if n >= input.len() - start {
        return Err(TNetStrError::LengthWasNotAccurate);
    }
    let payload = &input[start..start + n];
    let t = match DataType::from_byte(&input[start + n]) {
        Ok(t) => t,
        Err(e) => return Err(e),
    };
    *position = start + n + 1;
    let data = match payload_data(t, payload) {
        Ok(d) => d,
        Err(e) => return Err(e),
    };
    Ok(TNetEntry { data, size: len, data_type: t })
}

/// Decodes a list payload: entries one after another until it is used up.
pub fn parse_list(bytes: &[u8]) -> (r: Result<Vec<TNetEntry>, TNetStrError>)
    ensures
        match list_items(bytes@, 0) {
            Ok(items) => r matches Ok(l) && entries_model(l@) == items,
            Err(e) => r matches Err(x) && x@ == e,
        },
    decreases bytes@.len(), 1int,
{
    let mut position: usize = 0;
    let mut list: Vec<TNetEntry> = Vec::new();
    assert(entries_model(list@) =~= Seq::<EntryModel>::empty());
    assert(list_items(bytes@, 0) =~= prepend(entries_model(list@), list_items(bytes@, 0)));
    while position < bytes.len()
        invariant
            position <= bytes@.len(),
            list_items(bytes@, 0) == prepend(entries_model(list@), list_items(bytes@, position as int)),
        decreases bytes@.len() - position,
    {
        let ghost p = position as int;
        let entry = match parse_entry(bytes, &mut position) {
            Ok(e) => e,
            Err(e) => return Err(e),
        };
        proof {
            lemma_entries_model_push(list@, entry);
            let rest = list_items(bytes@, position as int);
            if let Ok(r) = rest {
                assert(entries_model(list@) + (seq![entry@] + r) =~= entries_model(list@).push(entry@) + r);
            }
        }
        list.push(entry);
    }
    proof {
        assert(entries_model(list@) + Seq::<EntryModel>::empty() =~= entries_model(list@));
    }
    Ok(list)
}

/// Decodes a dictionary payload: keys and values in turn; keys must be byte strings.
pub fn parse_dictionary(bytes: &[u8]) -> (r: Result<TNetDictionary, TNetStrError>)
    ensures
        match dict_pairs(bytes@, 0) {
            Ok(pairs) => r matches Ok(d) && pairs_model(d.entries@) == pairs,
            Err(e) => r matches Err(x) && x@ == e,
        },
    decreases bytes@.len(), 1int,
{
    let mut position: usize = 0;
    let mut dict = TNetDictionary::new();
    let len = bytes.len();
    assert(pairs_model(dict.entries@) =~= Seq::<(EntryModel, EntryModel)>::empty());
    assert(dict_pairs(bytes@, 0) =~= prepend(pairs_model(dict.entries@), dict_pairs(bytes@, 0)));
    while position < len
        invariant
            len == bytes@.len(),
            position <= len,
            dict_pairs(bytes@, 0) == prepend(pairs_model(dict.entries@), dict_pairs(bytes@, position as int)),
        decreases len - position,
    {
        let key = match parse_entry(bytes, &mut position) {
            Ok(e) => e,
            Err(e) => return Err(e),
        };
        if !(position < len) {
            return Err(TNetStrError::UnbalancedDictionary);
        }
        let value = match parse_entry(bytes, &mut position) {
            Ok(e) => e,
            Err(e) => return Err(e),
        };
        let ghost before = dict.entries@;
        let ghost km = key@;
        let ghost vm = value@;
        match dict.add(key, value) {
            Ok(()) => {},
            Err(e) => return Err(e),
        }
        proof {
            lemma_pairs_model_push(before, key, value);
            let rest = dict_pairs(bytes@, position as int);
            if let Ok(r) = rest {
                assert(pairs_model(before) + (seq![(km, vm)] + r) =~= pairs_model(before).push((km, vm)) + r);
            }
        }
    }
    proof {
        assert(pairs_model(dict.entries@) + Seq::<(EntryModel, EntryModel)>::empty() =~= pairs_model(dict.entries@));
    }
    Ok(dict)
}

/// Decodes an entry whose length digits were read apart from the rest
/// (its payload and marker, in `body`).
pub fn parse_framed(length_digits: &[u8], body: &[u8]) -> (r: Result<TNetEntry, TNetStrError>)
    ensures
        entry_result(r, decode(length_digits@ + seq![58u8] + body@)),
{
    let mut all: Vec<u8> = copy_bytes(length_digits);
    all.push(58u8);
    let mut i: usize = 0;
    let ghost head = all@;
    while i < body.len()
        invariant
            i <= body@.len(),
            all@ == head + body@.subrange(0, i as int),
        decreases body@.len() - i,
    {
        all.push(body[i]);
        i = i + 1;
        assert(all@ =~= head + body@.subrange(0, i as int));
    }
    assert(all@ =~= length_digits@ + seq![58u8] + body@);
    parse(all.as_slice())
}

/// Decodes the first entry of a buffer; bytes after it are not read.
pub fn parse(data: &[u8]) -> (r: Result<TNetEntry, TNetStrError>)
    ensures
        entry_result(r, decode(data@)),
{
    let mut pos: usize = 0;
    parse_entry(data, &mut pos)
}

} // verus!
