use vstd::prelude::*;
use vstd::utf8::{encode_utf8, encode_utf8_valid_utf8, is_ascii_chars, is_ascii_chars_encode_utf8, valid_utf8};
use crate::data_type::{tag_byte, DataType};
use crate::parse::{
    decode, dict_pairs, digit_run, entry_at, entry_end, length_field, list_items, payload_start,
    payload_value, declared_length, lemma_digit_run_split, lemma_digits_bound, lemma_pow10_mono, pow10,
};
use crate::ser::{
    false_text, float_digits, framed, items_wire, kind_of, pairs_wire, payload_wire, true_text,
    value_wire,
};
use crate::text::{
    all_digits, decimal_digits, digits_value, find_dot, is_digit, lemma_decimal_digits,
    signed_digits,
};
use crate::tnet::{DataModel, EntryModel};

verus! {

broadcast use {vstd::seq::axiom_seq_index_decreases, vstd::seq::axiom_seq_subrange_decreases};

/// An entry as the encoder would write it: its size and tag are those of its
/// value's encoding, and so are those of every entry inside it.
pub open spec fn canonical(m: EntryModel) -> bool
    decreases m, 1int,
{
    &&& m.size as nat == payload_wire(m.data).len()
    &&& m.tag == kind_of(m.data)
    &&& data_wf(m.data)
}

/// A value that the grammar can carry: every payload fits a nine-digit
/// length, and dictionary keys are byte strings.
pub open spec fn data_wf(d: DataModel) -> bool
    decreases d, 0int,
{
    &&& payload_wire(d).len() < 1000000000
    &&& match d {
        DataModel::List(items) => forall|i: int| 0 <= i < items.len() ==> canonical(#[trigger] items[i]),
        DataModel::Dictionary(pairs) => forall|i: int|
            0 <= i < pairs.len() ==> {
                &&& canonical((#[trigger] pairs[i]).0)
                &&& canonical(pairs[i].1)
                &&& pairs[i].0.tag == DataType::Bytes
            },
        _ => true,
    }
}


proof fn lemma_ascii_valid(b: Seq<u8>)
    requires
        forall|i: int| 0 <= i < b.len() ==> #[trigger] b[i] < 128,
    ensures
        valid_utf8(b),
{
    let chars = Seq::new(b.len(), |i: int| b[i] as char);
    assert(is_ascii_chars(chars));
    is_ascii_chars_encode_utf8(chars);
    encode_utf8_valid_utf8(chars);
    assert(encode_utf8(chars) =~= b);
}

proof fn lemma_decimal_digits_len(n: nat, k: nat)
    requires
        1 <= k,
        n < pow10(k),
    ensures
        decimal_digits(n).len() <= k,
    decreases k,
{
    if n >= 10 {
        if k == 1 {
            assert(pow10(1) == 10 * pow10(0));
        } else {
            assert(pow10(k) == 10 * pow10((k - 1) as nat));
            lemma_decimal_digits_len(n / 10, (k - 1) as nat);
        }
    }
}

proof fn lemma_short_length(n: nat)
    requires
        n < 1000000000,
    ensures
        1 <= decimal_digits(n).len() <= 9,
        all_digits(decimal_digits(n)),
        digits_value(decimal_digits(n)) == n,
{
    reveal_with_fuel(pow10, 10);
    assert(pow10(9) == 1000000000);
    lemma_decimal_digits_len(n, 9);
    lemma_decimal_digits(n);
}

/// Where `s` holds a framed payload at `p`, the decoder reads back its
/// length, payload and marker.
proof fn lemma_frame_at(s: Seq<u8>, p: int, marker: u8, payload: Seq<u8>)
    requires
        payload.len() < 1000000000,
        0 <= p,
        p + framed(marker, payload).len() <= s.len(),
        s.subrange(p, p + framed(marker, payload).len()) == framed(marker, payload),
    ensures
        length_field(s, p) == Ok::<nat, crate::errors::ErrorModel>(payload.len()),
        declared_length(s, p) == payload.len(),
        payload_start(s, p) + payload.len() < s.len(),
        s.subrange(payload_start(s, p), payload_start(s, p) + payload.len()) == payload,
        s[payload_start(s, p) + payload.len()] == marker,
        entry_end(s, p) == p + framed(marker, payload).len(),
{
    let f = framed(marker, payload);
    let dd = decimal_digits(payload.len());
    let l = dd.len() as int;
    lemma_short_length(payload.len());
    assert forall|i: int| 0 <= i < f.len() implies s[p + i] == #[trigger] f[i] by {
        assert(s.subrange(p, p + f.len())[i] == s[p + i]);
    }
    assert forall|k: int| p <= k < p + l implies is_digit(#[trigger] s[k]) by {
        assert(s[p + (k - p)] == f[k - p]);
        assert(f[k - p] == dd[k - p]);
    }
    lemma_digit_run_split(s, p, p + l);
    assert(s[p + l] == f[l]);
    assert(f[l] == 58);
    assert(digit_run(s, p + l) == 0);
    assert(s.subrange(p, p + l) =~= dd) by {
        assert forall|i: int| 0 <= i < l implies s.subrange(p, p + l)[i] == dd[i] by {
            assert(s[p + i] == f[i]);
        }
    }
    let start = p + l + 1;
    let n = payload.len() as int;
    assert(s.subrange(start, start + n) =~= payload) by {
        assert forall|i: int| 0 <= i < n implies s.subrange(start, start + n)[i] == payload[i] by {
            assert(s[p + (l + 1 + i)] == f[l + 1 + i]);
        }
    }
    assert(s[p + (l + 1 + n)] == f[l + 1 + n]);
}

pub proof fn lemma_items_prefix(items: Seq<EntryModel>, k: int)
    requires
        0 <= k <= items.len(),
    ensures
        items_wire(items.subrange(0, k)).len() <= items_wire(items).len(),
        items_wire(items).subrange(0, items_wire(items.subrange(0, k)).len() as int)
            == items_wire(items.subrange(0, k)),
    decreases items.len(),
{
    if k == items.len() {
        assert(items.subrange(0, k) =~= items);
        assert(items_wire(items).subrange(0, items_wire(items).len() as int) =~= items_wire(items));
    } else {
        let t = items.subrange(0, items.len() - 1);
        lemma_items_prefix(t, k);
        assert(t.subrange(0, k) =~= items.subrange(0, k));
        let a = items_wire(items.subrange(0, k));
        let w = items_wire(t);
        assert(items_wire(items) == w + value_wire(items[items.len() - 1].data));
        assert(items_wire(items).subrange(0, a.len() as int) =~= w.subrange(0, a.len() as int));
    }
}

proof fn lemma_items_step(items: Seq<EntryModel>, k: int)
    requires
        0 <= k < items.len(),
    ensures
        items_wire(items.subrange(0, k + 1)) == items_wire(items.subrange(0, k)) + value_wire(items[k].data),
{
    let t = items.subrange(0, k + 1);
    assert(t.subrange(0, k) =~= items.subrange(0, k));
}

pub proof fn lemma_pairs_prefix(pairs: Seq<(EntryModel, EntryModel)>, k: int)
    requires
        0 <= k <= pairs.len(),
    ensures
        pairs_wire(pairs.subrange(0, k)).len() <= pairs_wire(pairs).len(),
        pairs_wire(pairs).subrange(0, pairs_wire(pairs.subrange(0, k)).len() as int)
            == pairs_wire(pairs.subrange(0, k)),
    decreases pairs.len(),
{
    if k == pairs.len() {
        assert(pairs.subrange(0, k) =~= pairs);
        assert(pairs_wire(pairs).subrange(0, pairs_wire(pairs).len() as int) =~= pairs_wire(pairs));
    } else {
        let t = pairs.subrange(0, pairs.len() - 1);
        lemma_pairs_prefix(t, k);
        assert(t.subrange(0, k) =~= pairs.subrange(0, k));
        let a = pairs_wire(pairs.subrange(0, k));
        let w = pairs_wire(t);
        let last = pairs[pairs.len() - 1];
        assert(pairs_wire(pairs) == w + value_wire(last.0.data) + value_wire(last.1.data));
        assert(pairs_wire(pairs).subrange(0, a.len() as int) =~= w.subrange(0, a.len() as int));
    }
}

proof fn lemma_pairs_step(pairs: Seq<(EntryModel, EntryModel)>, k: int)
    requires
        0 <= k < pairs.len(),
    ensures
        pairs_wire(pairs.subrange(0, k + 1)) == pairs_wire(pairs.subrange(0, k)) + value_wire(pairs[k].0.data)
            + value_wire(pairs[k].1.data),
{
    let t = pairs.subrange(0, k + 1);
    assert(t.subrange(0, k) =~= pairs.subrange(0, k));
}

/// Bytes `w` stand in `s` at `p`.
pub open spec fn holds_at(s: Seq<u8>, p: int, w: Seq<u8>) -> bool {
    &&& 0 <= p
    &&& p + w.len() <= s.len()
    &&& s.subrange(p, p + w.len()) == w
}

proof fn lemma_holds_inside(s: Seq<u8>, w: Seq<u8>, a: int, b: int)
    requires
        w.len() <= s.len(),
        s.subrange(0, w.len() as int) == w,
        0 <= a <= b <= w.len(),
    ensures
        holds_at(s, a, w.subrange(a, b)),
{
    assert(s.subrange(a, b) =~= w.subrange(a, b)) by {
        assert forall|i: int| 0 <= i < b - a implies s.subrange(a, b)[i] == w.subrange(a, b)[i] by {
            assert(s.subrange(0, w.len() as int)[a + i] == s[a + i]);
        }
    }
}

/// The encoding of a well-formed value decodes to it, wherever it stands.
proof fn lemma_value_at(d: DataModel, s: Seq<u8>, p: int)
    requires
        data_wf(d),
        holds_at(s, p, value_wire(d)),
    ensures
        entry_at(s, p) == Ok::<EntryModel, crate::errors::ErrorModel>(
            EntryModel { data: d, size: payload_wire(d).len() as u32, tag: kind_of(d) },
        ),
        entry_end(s, p) == p + value_wire(d).len(),
    decreases d, 2int,
{
    lemma_frame_at(s, p, tag_byte(kind_of(d)), payload_wire(d));
    lemma_payload_value(d);
    crate::data_type::lemma_tag_bijective(kind_of(d), 0);
}

proof fn lemma_payload_value(d: DataModel)
    requires
        data_wf(d),
    ensures
        payload_value(kind_of(d), payload_wire(d)) == Ok::<DataModel, crate::errors::ErrorModel>(d),
    decreases d, 1int,
{
    match d {
        DataModel::Integer(i) => {
            let t = signed_digits(i);
            if i < 0 {
                let m = (-(i as int)) as nat;
                lemma_decimal_digits(m);
                assert(t.subrange(1, t.len() as int) =~= decimal_digits(m));
            } else {
                lemma_decimal_digits(i as nat);
            }
            lemma_ascii_valid(t);
        },
        DataModel::Boolean(b) => {
            lemma_ascii_valid(true_text());
            lemma_ascii_valid(false_text());
        },
        DataModel::Float(a, b) => {
            let t = float_digits(a, b);
            let da = decimal_digits(a as nat);
            let db = decimal_digits(b as nat);
            lemma_decimal_digits(a as nat);
            lemma_decimal_digits(b as nat);
            lemma_find_dot_after_digits(t, 0, da.len() as int);
            assert(t.subrange(0, da.len() as int) =~= da);
            assert(t.subrange(da.len() as int + 1, t.len() as int) =~= db);
            lemma_ascii_valid(t);
        },
        DataModel::List(items) => {
            lemma_items(items, 0);
            assert(items.subrange(0, 0) =~= Seq::<EntryModel>::empty());
            assert(items.subrange(0, items.len() as int) =~= items);
        },
        DataModel::Dictionary(pairs) => {
            lemma_pairs(pairs, 0);
            assert(pairs.subrange(0, 0) =~= Seq::<(EntryModel, EntryModel)>::empty());
            assert(pairs.subrange(0, pairs.len() as int) =~= pairs);
        },
        _ => {},
    }
}

proof fn lemma_find_dot_after_digits(t: Seq<u8>, i: int, k: int)
    requires
        0 <= i <= k < t.len(),
        t[k] == 46,
        forall|j: int| i <= j < k ==> is_digit(#[trigger] t[j]),
    ensures
        find_dot(t, i) == k,
    decreases k - i,
{
    if i < k {
        lemma_find_dot_after_digits(t, i + 1, k);
    }
}

proof fn lemma_items(items: Seq<EntryModel>, k: int)
    requires
        forall|i: int| 0 <= i < items.len() ==> canonical(#[trigger] items[i]),
        0 <= k <= items.len(),
    ensures
        list_items(items_wire(items), items_wire(items.subrange(0, k)).len() as int)
            == Ok::<Seq<EntryModel>, crate::errors::ErrorModel>(items.subrange(k, items.len() as int)),
    decreases items, items.len() - k,
{
    let w = items_wire(items);
    let pos = items_wire(items.subrange(0, k)).len() as int;
    if k == items.len() {
        assert(items.subrange(0, k) =~= items);
        assert(items.subrange(k, items.len() as int) =~= Seq::<EntryModel>::empty());
    } else {
        let e = items[k];
        lemma_items_step(items, k);
        lemma_items_prefix(items, k + 1);
        let next = items_wire(items.subrange(0, k + 1)).len() as int;
        lemma_holds_inside(w, items_wire(items.subrange(0, k + 1)), pos, next);
        assert(items_wire(items.subrange(0, k + 1)).subrange(pos, next) =~= value_wire(e.data));
        lemma_value_at(e.data, w, pos);
        lemma_items(items, k + 1);
        assert(seq![e] + items.subrange(k + 1, items.len() as int) =~= items.subrange(k, items.len() as int));
    }
}

proof fn lemma_pairs(pairs: Seq<(EntryModel, EntryModel)>, k: int)
    requires
        forall|i: int|
            0 <= i < pairs.len() ==> {
                &&& canonical((#[trigger] pairs[i]).0)
                &&& canonical(pairs[i].1)
                &&& pairs[i].0.tag == DataType::Bytes
            },
        0 <= k <= pairs.len(),
    ensures
        dict_pairs(pairs_wire(pairs), pairs_wire(pairs.subrange(0, k)).len() as int)
            == Ok::<Seq<(EntryModel, EntryModel)>, crate::errors::ErrorModel>(pairs.subrange(k, pairs.len() as int)),
    decreases pairs, pairs.len() - k,
{
    let w = pairs_wire(pairs);
    let pos = pairs_wire(pairs.subrange(0, k)).len() as int;
    if k == pairs.len() {
        assert(pairs.subrange(0, k) =~= pairs);
        assert(pairs.subrange(k, pairs.len() as int) =~= Seq::<(EntryModel, EntryModel)>::empty());
    } else {
        let (key, val) = pairs[k];
        lemma_pairs_step(pairs, k);
        lemma_pairs_prefix(pairs, k + 1);
        let wk = value_wire(key.data);
        let wv = value_wire(val.data);
        let whole = pairs_wire(pairs.subrange(0, k + 1));
        let mid = pos + wk.len();
        let next = whole.len() as int;
        lemma_holds_inside(w, whole, pos, mid);
        lemma_holds_inside(w, whole, mid, next);
        assert(whole.subrange(pos, mid) =~= wk);
        assert(whole.subrange(mid, next) =~= wv);
        assert(decreases_to!(pairs => pairs[k]));
        lemma_value_at(key.data, w, pos);
        lemma_value_at(val.data, w, mid);
        lemma_pairs(pairs, k + 1);
        assert(seq![(key, val)] + pairs.subrange(k + 1, pairs.len() as int) =~= pairs.subrange(k, pairs.len() as int));
    }
}

/// Decoding what the encoder writes for a well-formed entry gives back that
/// entry: its value, the size of its encoded payload and its kind.
pub proof fn lemma_round_trip(m: EntryModel)
    requires
        canonical(m),
    ensures
        decode(value_wire(m.data)) == Ok::<EntryModel, crate::errors::ErrorModel>(m),
{
    let w = value_wire(m.data);
    assert(w.subrange(0, w.len() as int) =~= w);
    lemma_value_at(m.data, w, 0);
}


/// A length prefix may have nine digits: nine digits and a `:` read as their value.
pub proof fn lemma_nine_digit_length_accepted(s: Seq<u8>, p: int)
    requires
        0 <= p,
        p + 9 < s.len(),
        forall|i: int| p <= i < p + 9 ==> is_digit(#[trigger] s[i]),
        s[p + 9] == 58,
    ensures
        length_field(s, p) == Ok::<nat, crate::errors::ErrorModel>(digits_value(s.subrange(p, p + 9))),
{
    lemma_digit_run_split(s, p, p + 9);
    assert(digit_run(s, p + 9) == 0);
}

/// A length prefix may not have ten digits.
pub proof fn lemma_ten_digit_length_rejected(s: Seq<u8>, p: int)
    requires
        0 <= p,
        p + 10 <= s.len(),
        forall|i: int| p <= i < p + 10 ==> is_digit(#[trigger] s[i]),
    ensures
        length_field(s, p) == Err::<nat, crate::errors::ErrorModel>(crate::errors::ErrorModel::LengthTooLong),
{
    lemma_digit_run_split(s, p, p + 10);
}

/// The encoding of item `k` stands in the encoding of the list at the end of
/// the items before it.
proof fn lemma_item_at(items: Seq<EntryModel>, k: int)
    requires
        0 <= k < items.len(),
    ensures
        holds_at(items_wire(items), items_wire(items.subrange(0, k)).len() as int, value_wire(items[k].data)),
        items_wire(items.subrange(0, k + 1)).len() == items_wire(items.subrange(0, k)).len()
            + value_wire(items[k].data).len(),
        items_wire(items.subrange(0, k + 1)).len() <= items_wire(items).len(),
{
    let pos = items_wire(items.subrange(0, k)).len() as int;
    lemma_items_step(items, k);
    lemma_items_prefix(items, k + 1);
    let next = items_wire(items.subrange(0, k + 1)).len() as int;
    lemma_holds_inside(items_wire(items), items_wire(items.subrange(0, k + 1)), pos, next);
    assert(items_wire(items.subrange(0, k + 1)).subrange(pos, next) =~= value_wire(items[k].data));
}

proof fn lemma_value_wire_nonempty(d: DataModel)
    ensures
        value_wire(d).len() >= 3,
{
}

proof fn lemma_dict_unbalanced_from(items: Seq<EntryModel>, k: int)
    requires
        forall|i: int| 0 <= i < items.len() ==> canonical(#[trigger] items[i]),
        forall|i: int| 0 <= i < items.len() && i % 2 == 0 ==> (#[trigger] items[i]).tag == DataType::Bytes,
        items.len() % 2 == 1,
        0 <= k < items.len(),
        k % 2 == 0,
    ensures
        dict_pairs(items_wire(items), items_wire(items.subrange(0, k)).len() as int)
            == Err::<Seq<(EntryModel, EntryModel)>, crate::errors::ErrorModel>(
            crate::errors::ErrorModel::UnbalancedDictionary,
        ),
    decreases items.len() - k,
{
    let w = items_wire(items);
    lemma_item_at(items, k);
    lemma_value_at(items[k].data, w, items_wire(items.subrange(0, k)).len() as int);
    lemma_value_wire_nonempty(items[k].data);
    if k + 1 == items.len() {
        assert(items.subrange(0, k + 1) =~= items);
    } else {
        lemma_item_at(items, k + 1);
        lemma_value_at(items[k + 1].data, w, items_wire(items.subrange(0, k + 1)).len() as int);
        lemma_value_wire_nonempty(items[k + 1].data);
        lemma_dict_unbalanced_from(items, k + 2);
    }
}

/// A dictionary payload made of an odd number of well-formed entries, its keys
/// all byte strings, fails as unbalanced.
pub proof fn lemma_odd_dictionary_unbalanced(items: Seq<EntryModel>)
    requires
        forall|i: int| 0 <= i < items.len() ==> canonical(#[trigger] items[i]),
        forall|i: int| 0 <= i < items.len() && i % 2 == 0 ==> (#[trigger] items[i]).tag == DataType::Bytes,
        items.len() % 2 == 1,
    ensures
        payload_value(DataType::Dictionary, items_wire(items)) == Err::<DataModel, crate::errors::ErrorModel>(
            crate::errors::ErrorModel::UnbalancedDictionary,
        ),
{
    assert(items.subrange(0, 0) =~= Seq::<EntryModel>::empty());
    lemma_dict_unbalanced_from(items, 0);
}

proof fn lemma_dict_bad_key_from(items: Seq<EntryModel>, k: int, j: int)
    requires
        forall|i: int| 0 <= i < items.len() ==> canonical(#[trigger] items[i]),
        forall|i: int| 0 <= i < j && i % 2 == 0 ==> (#[trigger] items[i]).tag == DataType::Bytes,
        0 <= k <= j,
        j + 1 < items.len(),
        k % 2 == 0,
        j % 2 == 0,
        items[j].tag != DataType::Bytes,
    ensures
        dict_pairs(items_wire(items), items_wire(items.subrange(0, k)).len() as int)
            == Err::<Seq<(EntryModel, EntryModel)>, crate::errors::ErrorModel>(
            crate::errors::ErrorModel::DictionaryKeyWasNotBytes,
        ),
    decreases j - k,
{
    let w = items_wire(items);
    lemma_item_at(items, k);
    lemma_value_at(items[k].data, w, items_wire(items.subrange(0, k)).len() as int);
    lemma_value_wire_nonempty(items[k].data);
    lemma_item_at(items, k + 1);
    lemma_value_at(items[k + 1].data, w, items_wire(items.subrange(0, k + 1)).len() as int);
    lemma_value_wire_nonempty(items[k + 1].data);
    if k < j {
        lemma_dict_bad_key_from(items, k + 2, j);
    }
}

/// A dictionary payload whose first key that is not a byte string has a value
/// after it fails on that key.
pub proof fn lemma_dictionary_key_not_bytes(items: Seq<EntryModel>, j: int)
    requires
        forall|i: int| 0 <= i < items.len() ==> canonical(#[trigger] items[i]),
        forall|i: int| 0 <= i < j && i % 2 == 0 ==> (#[trigger] items[i]).tag == DataType::Bytes,
        0 <= j,
        j + 1 < items.len(),
        j % 2 == 0,
        items[j].tag != DataType::Bytes,
    ensures
        payload_value(DataType::Dictionary, items_wire(items)) == Err::<DataModel, crate::errors::ErrorModel>(
            crate::errors::ErrorModel::DictionaryKeyWasNotBytes,
        ),
{
    assert(items.subrange(0, 0) =~= Seq::<EntryModel>::empty());
    lemma_dict_bad_key_from(items, 0, j);
}


/// Total wire length of the entries that stand one after another in `b` from `p` on.
pub open spec fn children_span(b: Seq<u8>, p: int) -> int
    decreases b.len() - p,
{
    if p >= b.len() || entry_end(b, p) > b.len() {
        0
    } else {
        (entry_end(b, p) - p) + children_span(b, entry_end(b, p))
    }
}

proof fn lemma_list_span(b: Seq<u8>, p: int)
    requires
        0 <= p <= b.len(),
        list_items(b, p) is Ok,
    ensures
        children_span(b, p) == b.len() - p,
    decreases b.len() - p,
{
    if p < b.len() {
        lemma_list_span(b, entry_end(b, p));
    }
}

proof fn lemma_dict_span(b: Seq<u8>, p: int)
    requires
        0 <= p <= b.len(),
        dict_pairs(b, p) is Ok,
    ensures
        children_span(b, p) == b.len() - p,
    decreases b.len() - p,
{
    if p < b.len() {
        let q = entry_end(b, p);
        let e = entry_end(b, q);
        assert(children_span(b, q) == (e - q) + children_span(b, e));
        lemma_dict_span(b, e);
    }
}

/// A decoded entry's size is the length of the payload it was read from; for a
/// list or dictionary that is the sum of its children's full encodings.
pub proof fn lemma_length_invariant(s: Seq<u8>, p: int)
    requires
        0 <= p,
        entry_at(s, p) is Ok,
    ensures
        ({
            let m = entry_at(s, p)->Ok_0;
            let start = payload_start(s, p);
            let payload = s.subrange(start, start + m.size);
            &&& m.size as int == entry_end(s, p) - start - 1
            &&& (m.data is List || m.data is Dictionary) ==> m.size as int == children_span(payload, 0)
        }),
{
    let d = digit_run(s, p);
    let sub = s.subrange(p, p + d);
    assert forall|k: int| p <= k < p + d implies is_digit(#[trigger] s[k]) by {
        lemma_digit_run_prefix(s, p, k);
    }
    assert(all_digits(sub)) by {
        assert forall|i: int| 0 <= i < sub.len() implies is_digit(#[trigger] sub[i]) by {
            assert(sub[i] == s[p + i]);
        }
    }
    lemma_digits_bound(sub);
    reveal_with_fuel(pow10, 10);
    lemma_pow10_mono(d, 9);
    let m = entry_at(s, p)->Ok_0;
    let start = payload_start(s, p);
    let payload = s.subrange(start, start + m.size);
    if m.data is List {
        lemma_list_span(payload, 0);
    }
    if m.data is Dictionary {
        lemma_dict_span(payload, 0);
    }
}

proof fn lemma_digit_run_prefix(s: Seq<u8>, p: int, k: int)
    requires
        0 <= p <= k < p + digit_run(s, p),
    ensures
        is_digit(s[k]),
    decreases k - p,
{
    if p < k {
        lemma_digit_run_prefix(s, p + 1, k);
    }
}

} // verus!
