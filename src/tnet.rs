use vstd::prelude::*;
use crate::data_type::DataType;
use crate::errors::{ErrorModel, TNetStrError};
use crate::text::{decimal_text, parse_decimal};
use vstd::string::StringSliceAdditionalSpecFns;

verus! {

broadcast use {
    vstd::std_specs::vec::axiom_vec_decreases_to_view,
    vstd::seq::axiom_seq_index_decreases,
    vstd::seq::axiom_seq_subrange_decreases,
};

/// A decimal number held as the two digit runs around its point.
#[derive(Debug, PartialEq, Eq, Structural, Clone, Copy, Hash)]
pub struct TNetFloat {
    pub integral: u64,
    pub fractional: u64,
}

/// A decoded value.
#[derive(Debug, PartialEq, Eq, Hash)]
pub enum TNetData {
    Bytes(Vec<u8>),
    Integer(i64),
    Float(TNetFloat),
    Boolean(bool),
    Null,
    Dictionary(TNetDictionary),
    List(Vec<TNetEntry>),
}

pub type TNetList = Vec<TNetEntry>;

/// Key/value pairs in the order in which they were read; keys may repeat.
#[derive(Debug, PartialEq, Eq, Hash)]
pub struct TNetDictionary {
    pub entries: Vec<(TNetEntry, TNetEntry)>,
}

/// A value with the payload length and the kind that its prefix and marker declared.
#[derive(Debug, PartialEq, Eq, Hash)]
pub struct TNetEntry {
    pub data: TNetData,
    pub size: u32,
    pub data_type: DataType,
}

/// The mathematical form of a value.
pub enum DataModel {
    Bytes(Seq<u8>),
    Integer(i64),
    Float(u64, u64),
    Boolean(bool),
    Null,
    Dictionary(Seq<(EntryModel, EntryModel)>),
    List(Seq<EntryModel>),
}

/// The mathematical form of an entry.
pub struct EntryModel {
    pub data: DataModel,
    pub size: u32,
    pub tag: DataType,
}

pub open spec fn entries_model(s: Seq<TNetEntry>) -> Seq<EntryModel>
    decreases s,
{
    if s.len() == 0 {
        Seq::empty()
    } else {
        entries_model(s.subrange(0, s.len() - 1)).push(entry_model(s[s.len() - 1]))
    }
}

pub open spec fn pairs_model(s: Seq<(TNetEntry, TNetEntry)>) -> Seq<(EntryModel, EntryModel)>
    decreases s,
{
    if s.len() == 0 {
        Seq::empty()
    } else {
        pairs_model(s.subrange(0, s.len() - 1)).push(
            (entry_model(s[s.len() - 1].0), entry_model(s[s.len() - 1].1)),
        )
    }
}

pub open spec fn data_model(d: TNetData) -> DataModel
    decreases d,
{
    match d {
        TNetData::Bytes(b) => DataModel::Bytes(b@),
        TNetData::Integer(i) => DataModel::Integer(i),
        TNetData::Float(f) => DataModel::Float(f.integral, f.fractional),
        TNetData::Boolean(b) => DataModel::Boolean(b),
        TNetData::Null => DataModel::Null,
        TNetData::Dictionary(dict) => DataModel::Dictionary(pairs_model(dict.entries@)),
        TNetData::List(l) => DataModel::List(entries_model(l@)),
    }
}

pub open spec fn entry_model(e: TNetEntry) -> EntryModel
    decreases e,
{
    EntryModel { data: data_model(e.data), size: e.size, tag: e.data_type }
}

impl View for TNetEntry {
    type V = EntryModel;

    open spec fn view(&self) -> EntryModel {
        entry_model(*self)
    }
}

impl View for TNetData {
    type V = DataModel;

    open spec fn view(&self) -> DataModel {
        data_model(*self)
    }
}


pub proof fn lemma_entries_model_push(s: Seq<TNetEntry>, e: TNetEntry)
    ensures
        entries_model(s.push(e)) == entries_model(s).push(e@),
{
    assert(s.push(e).subrange(0, s.len() as int) =~= s);
}

pub proof fn lemma_pairs_model_push(s: Seq<(TNetEntry, TNetEntry)>, k: TNetEntry, v: TNetEntry)
    ensures
        pairs_model(s.push((k, v))) == pairs_model(s).push((k@, v@)),
{
    assert(s.push((k, v)).subrange(0, s.len() as int) =~= s);
}

/// The values whose key is the byte string `key`, in order.
pub open spec fn values_for(es: Seq<(TNetEntry, TNetEntry)>, key: Seq<u8>) -> Seq<TNetEntry>
    decreases es.len(),
{
    if es.len() == 0 {
        Seq::empty()
    } else {
        let rest = values_for(es.drop_last(), key);
        let last = es.last();
        if last.0.data is Bytes && last.0.data->Bytes_0@ == key {
            rest.push(last.1)
        } else {
            rest
        }
    }
}

/// Pairs up a flat run of entries: key, value, key, value, ...
pub open spec fn pair_up(s: Seq<TNetEntry>) -> Result<Seq<(TNetEntry, TNetEntry)>, ErrorModel>
    decreases s.len(),
{
    if s.len() == 0 {
        Ok(Seq::empty())
    } else if s.len() == 1 {
        Err(ErrorModel::UnbalancedDictionary)
    } else if s[0].data_type != DataType::Bytes {
        Err(ErrorModel::DictionaryKeyWasNotBytes)
    } else {
        match pair_up(s.subrange(2, s.len() as int)) {
            Ok(rest) => Ok(seq![(s[0], s[1])] + rest),
            Err(e) => Err(e),
        }
    }
}

fn bytes_equal(a: &[u8], b: &[u8]) -> (r: bool)
    ensures
        r == (a@ == b@),
{
    if a.len() != b.len() {
        return false;
    }
    let mut i: usize = 0;
    while i < a.len()
        invariant
            i <= a@.len() == b@.len(),
            a@.subrange(0, i as int) == b@.subrange(0, i as int),
        decreases a@.len() - i,
    {
        if a[i] != b[i] {
            return false;
        }
        assert(a@.subrange(0, i + 1) =~= a@.subrange(0, i as int).push(a@[i as int]));
        assert(b@.subrange(0, i + 1) =~= b@.subrange(0, i as int).push(b@[i as int]));
        i = i + 1;
    }
    assert(a@ =~= a@.subrange(0, i as int));
    assert(b@ =~= b@.subrange(0, i as int));
    true
}

impl TNetFloat {
    /// Reads a decimal such as `10.21`: two unsigned runs split by one `.`.
    pub fn from_decimal_str(s: &str) -> (r: Result<TNetFloat, TNetStrError>)
        ensures
            match decimal_text(s.spec_bytes()) {
                Some((i, f)) => r == Ok::<TNetFloat, TNetStrError>(TNetFloat { integral: i, fractional: f }),
                None => r matches Err(TNetStrError::FloatParseError(t)) && t@ == s@,
            },
    {
        match parse_decimal(s.as_bytes()) {
            Some((integral, fractional)) => Ok(TNetFloat { integral, fractional }),
            None => Err(TNetStrError::FloatParseError(s.to_owned())),
        }
    }
}

impl TNetDictionary {
    pub fn new() -> (r: TNetDictionary)
        ensures
            r.entries@.len() == 0,
    {
        TNetDictionary { entries: Vec::new() }
    }

    /// Pairs up entries in order; fails on a key not marked as a byte string,
    /// or on a key left without a value.
    pub fn from_vec(input: Vec<TNetEntry>) -> (r: Result<TNetDictionary, TNetStrError>)
        ensures
            match pair_up(input@) {
                Ok(ps) => r matches Ok(d) && d.entries@ == ps,
                Err(e) => r matches Err(x) && x@ == e,
            },
    {
        let mut rest = input;
        let mut d = TNetDictionary::new();
        let ghost all = input@;
        assert(all == rest@);
        assert(pair_up(all) =~= crate::parse::prepend(d.entries@, pair_up(rest@)));
        while rest.len() > 0
            invariant
                all == input@,
                pair_up(all) == crate::parse::prepend(d.entries@, pair_up(rest@)),
            decreases rest@.len(),
        {
            let ghost s = rest@;
            let key = rest.remove(0);
            if rest.len() == 0 {
                return Err(TNetStrError::UnbalancedDictionary);
            }
            let value = rest.remove(0);
            assert(rest@ =~= s.subrange(2, s.len() as int));
            let ghost before = d.entries@;
            match d.add(key, value) {
                Ok(()) => {},
                Err(e) => return Err(e),
            }
            proof {
                if let Ok(tail) = pair_up(rest@) {
                    assert(before + (seq![(s[0], s[1])] + tail) =~= before.push((s[0], s[1])) + tail);
                }
            }
        }
        assert(d.entries@ + Seq::<(TNetEntry, TNetEntry)>::empty() =~= d.entries@);
        Ok(d)
    }

    /// Every value stored under `key`, in the order the pairs were added.
    pub fn get(&self, key: &[u8]) -> (r: Vec<&TNetEntry>)
        requires
            forall|i: int| 0 <= i < self.entries@.len() ==> (#[trigger] self.entries@[i]).0.data is Bytes,
        ensures
            r@.len() == values_for(self.entries@, key@).len(),
            forall|j: int| 0 <= j < r@.len() ==> *(#[trigger] r@[j]) == values_for(self.entries@, key@)[j],
    {
        let mut r: Vec<&TNetEntry> = Vec::new();
        let mut i: usize = 0;
        while i < self.entries.len()
            invariant
                i <= self.entries@.len(),
                forall|j: int| 0 <= j < self.entries@.len() ==> (#[trigger] self.entries@[j]).0.data is Bytes,
                r@.len() == values_for(self.entries@.subrange(0, i as int), key@).len(),
                forall|j: int| 0 <= j < r@.len() ==> *(#[trigger] r@[j]) == values_for(self.entries@.subrange(0, i as int), key@)[j],
            decreases self.entries@.len() - i,
        {
            let entry = &self.entries[i];
            assert(self.entries@.subrange(0, i + 1).drop_last() =~= self.entries@.subrange(0, i as int));
            match &entry.0.data {
                TNetData::Bytes(b) => {
                    if bytes_equal(b.as_slice(), key) {
                        r.push(&entry.1);
                    }
                },
                _ => {},
            }
            i = i + 1;
        }
        assert(self.entries@.subrange(0, i as int) =~= self.entries@);
        r
    }

    /// Appends a pair; the key must be marked as a byte string.
    pub fn add(&mut self, key: TNetEntry, value: TNetEntry) -> (r: Result<(), TNetStrError>)
        ensures
            key.data_type == DataType::Bytes ==> r is Ok && final(self).entries@ == old(self).entries@.push((key, value)),
            key.data_type != DataType::Bytes ==> (r matches Err(TNetStrError::DictionaryKeyWasNotBytes)
                && final(self).entries@ == old(self).entries@),
    {
        match key.data_type {
            DataType::Bytes => {
                self.entries.push((key, value));
                Ok(())
            },
            _ => Err(TNetStrError::DictionaryKeyWasNotBytes),
        }
    }
}

} // verus!
