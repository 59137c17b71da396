use vstd::prelude::*;
use vstd::string::StringSliceAdditionalSpecFns;
use crate::data_type::{tag_byte, DataType};
use crate::errors::TNetStrError;
use crate::text::{decimal_digits, push_decimal, signed_digits};
use crate::tnet::{DataModel, EntryModel, TNetData, TNetFloat};

verus! {

broadcast use {
    vstd::std_specs::vec::axiom_vec_decreases_to_view,
    vstd::std_specs::vec::axiom_vec_index_decreases,
    vstd::seq::axiom_seq_index_decreases,
    vstd::seq::axiom_seq_subrange_decreases,
};

/// An encoding failure.
#[derive(Debug)]
pub struct SerdeTNetError(pub TNetStrError);

/// `<length>:<payload><marker>`.
pub open spec fn framed(marker: u8, payload: Seq<u8>) -> Seq<u8> {
    decimal_digits(payload.len()) + seq![58u8] + payload + seq![marker]
}

pub open spec fn true_text() -> Seq<u8> {
    seq![116u8, 114u8, 117u8, 101u8]
}

pub open spec fn false_text() -> Seq<u8> {
    seq![102u8, 97u8, 108u8, 115u8, 101u8]
}

pub open spec fn float_digits(integral: u64, fractional: u64) -> Seq<u8> {
    decimal_digits(integral as nat) + seq![46u8] + decimal_digits(fractional as nat)
}

/// The kind that a value has.
pub open spec fn kind_of(d: DataModel) -> DataType {
    match d {
        DataModel::Bytes(_) => DataType::Bytes,
        DataModel::Integer(_) => DataType::Integer,
        DataModel::Float(_, _) => DataType::Float,
        DataModel::Boolean(_) => DataType::Boolean,
        DataModel::Null => DataType::Null,
        DataModel::Dictionary(_) => DataType::Dictionary,
        DataModel::List(_) => DataType::List,
    }
}

/// The payload that the encoder writes for a value.
pub open spec fn payload_wire(d: DataModel) -> Seq<u8>
    decreases d, 0int,
{
    match d {
        DataModel::Bytes(b) => b,
        DataModel::Integer(i) => signed_digits(i),
        DataModel::Float(a, b) => float_digits(a, b),
        DataModel::Boolean(b) => if b { true_text() } else { false_text() },
        DataModel::Null => Seq::empty(),
        DataModel::Dictionary(pairs) => pairs_wire(pairs),
        DataModel::List(items) => items_wire(items),
    }
}

/// The full encoding of a value: its payload framed with its length and marker.
pub open spec fn value_wire(d: DataModel) -> Seq<u8>
    decreases d, 1int,
{
    framed(tag_byte(kind_of(d)), payload_wire(d))
}

pub open spec fn items_wire(s: Seq<EntryModel>) -> Seq<u8>
    decreases s, 2int,
{
    if s.len() == 0 {
        Seq::empty()
    } else {
        items_wire(s.subrange(0, s.len() - 1)) + value_wire(s[s.len() - 1].data)
    }
}

pub open spec fn pairs_wire(s: Seq<(EntryModel, EntryModel)>) -> Seq<u8>
    decreases s, 2int,
{
    if s.len() == 0 {
        Seq::empty()
    } else {
        pairs_wire(s.subrange(0, s.len() - 1)) + value_wire(s[s.len() - 1].0.data) + value_wire(
            s[s.len() - 1].1.data,
        )
    }
}

/// Builds encodings on a stack of frames: the bottom frame is the result, each
/// frame above it a composite whose children are being written.
pub struct Serializer {
    stack: Vec<Vec<u8>>,
}

pub open spec fn frames_of(stack: Seq<Vec<u8>>) -> Seq<Seq<u8>> {
    stack.map_values(|f: Vec<u8>| f@)
}

impl View for Serializer {
    type V = Seq<Seq<u8>>;

    closed spec fn view(&self) -> Seq<Seq<u8>> {
        frames_of(self.stack@)
    }
}

/// Adds bytes to the top frame of a stack.
fn push_to_top(stack: &mut Vec<Vec<u8>>, bytes: &[u8])
    requires
        old(stack)@.len() >= 1,
    ensures
        final(stack)@.len() == old(stack)@.len(),
        frames_of(final(stack)@) == with_top(frames_of(old(stack)@), bytes@),
{
    let ghost frames = frames_of(stack@);
    let mut frame = stack.pop().unwrap();
    let ghost start = frame@;
    let mut i: usize = 0;
    while i < bytes.len()
        invariant
            i <= bytes@.len(),
            frame@ == start + bytes@.subrange(0, i as int),
        decreases bytes@.len() - i,
    {
        frame.push(bytes[i]);
        i = i + 1;
        assert(frame@ =~= start + bytes@.subrange(0, i as int));
    }
    stack.push(frame);
    assert(bytes@.subrange(0, bytes@.len() as int) =~= bytes@);
    assert(frames_of(stack@) =~= with_top(frames, bytes@));
}

/// The stack with `bytes` added to its top frame.
pub open spec fn with_top(frames: Seq<Seq<u8>>, bytes: Seq<u8>) -> Seq<Seq<u8>> {
    frames.update(frames.len() - 1, frames.last() + bytes)
}

impl Serializer {
    /// There is always a frame to write to: the bottom one is never closed.
    #[verifier::type_invariant]
    spec fn has_frame(&self) -> bool {
        self.stack@.len() >= 1
    }

    pub fn new() -> (r: Serializer)
        ensures
            r@ == seq![Seq::<u8>::empty()],
    {
        let r = Serializer { stack: vec![Vec::new()] };
        assert(r@ =~= seq![Seq::<u8>::empty()]);
        r
    }

    /// Adds bytes to the frame on top.
    pub fn append_bytes(&mut self, bytes: &[u8])
        ensures
            final(self)@ == with_top(old(self)@, bytes@),
    {
        proof { use_type_invariant(&*self); }
        let mut stack: Vec<Vec<u8>> = vec![Vec::new()];
        std::mem::swap(&mut stack, &mut self.stack);
        push_to_top(&mut stack, bytes);
        self.stack = stack;
    }

    /// Opens a composite: its children go to a new frame.
    pub fn begin_composite(&mut self)
        ensures
            final(self)@ == old(self)@.push(Seq::<u8>::empty()),
    {
        proof { use_type_invariant(&*self); }
        let mut stack: Vec<Vec<u8>> = vec![Vec::new()];
        std::mem::swap(&mut stack, &mut self.stack);
        stack.push(Vec::new());
        self.stack = stack;
        assert(self@ =~= old(self)@.push(Seq::<u8>::empty()));
    }

    /// Closes the composite on top: its frame is framed with `type_char` and
    /// added to the frame below.
    pub fn end_seq(&mut self, type_char: u8) -> (r: Result<(), SerdeTNetError>)
        ensures
            old(self)@.len() >= 2 ==> r is Ok && final(self)@ == with_top(
                old(self)@.drop_last(),
                framed(type_char, old(self)@.last()),
            ),
            old(self)@.len() < 2 ==> (r matches Err(SerdeTNetError(TNetStrError::SerializationError(_)))
                && final(self)@ == old(self)@),
    {
        proof { use_type_invariant(&*self); }
        if self.stack.len() < 2 {
            return Err(
                SerdeTNetError(TNetStrError::SerializationError("Attempt to end sequence without start".to_string())),
            );
        }
        let mut stack: Vec<Vec<u8>> = vec![Vec::new()];
        std::mem::swap(&mut stack, &mut self.stack);
        let ghost frames = frames_of(stack@);
        let seq = stack.pop().unwrap();
        assert(frames_of(stack@) =~= frames.drop_last());
        let mut head: Vec<u8> = Vec::new();
        push_decimal(&mut head, seq.len() as u64);
        head.push(58u8);
        push_to_top(&mut stack, head.as_slice());
        push_to_top(&mut stack, seq.as_slice());
        let ghost mid = frames_of(stack@);
        let tail: Vec<u8> = vec![type_char];
        push_to_top(&mut stack, tail.as_slice());
        proof {
            let below = frames.drop_last();
            assert(seq@ == frames.last());
            assert(tail@ =~= seq![type_char]);
            assert(mid.last() =~= below.last() + head@ + seq@);
            assert(below.last() + head@ + seq@ + tail@ =~= below.last() + framed(type_char, frames.last()));
            assert(frames_of(stack@) =~= with_top(below, framed(type_char, frames.last())));
        }
        self.stack = stack;
        Ok(())
    }

    pub fn end_list(&mut self) -> (r: Result<(), SerdeTNetError>)
        ensures
            old(self)@.len() >= 2 ==> r is Ok && final(self)@ == with_top(
                old(self)@.drop_last(),
                framed(93, old(self)@.last()),
            ),
            old(self)@.len() < 2 ==> (r is Err && final(self)@ == old(self)@),
    {
        self.end_seq(93u8)
    }

    pub fn end_map(&mut self) -> (r: Result<(), SerdeTNetError>)
        ensures
            old(self)@.len() >= 2 ==> r is Ok && final(self)@ == with_top(
                old(self)@.drop_last(),
                framed(125, old(self)@.last()),
            ),
            old(self)@.len() < 2 ==> (r is Err && final(self)@ == old(self)@),
    {
        self.end_seq(125u8)
    }

    /// Writes a scalar of kind `tag` whose payload is `payload`.
    pub fn write_framed(&mut self, tag: DataType, payload: &[u8])
        ensures
            final(self)@ == with_top(old(self)@, framed(tag_byte(tag), payload@)),
    {
        let mut f: Vec<u8> = Vec::new();
        push_decimal(&mut f, payload.len() as u64);
        f.push(58u8);
        let mut i: usize = 0;
        let ghost head = f@;
        while i < payload.len()
            invariant
                i <= payload@.len(),
                f@ == head + payload@.subrange(0, i as int),
            decreases payload@.len() - i,
        {
            f.push(payload[i]);
            i = i + 1;
            assert(f@ =~= head + payload@.subrange(0, i as int));
        }
        f.push(tag.to_byte());
        assert(payload@.subrange(0, payload@.len() as int) =~= payload@);
        assert(f@ =~= framed(tag_byte(tag), payload@));
        self.append_bytes(f.as_slice());
    }

    pub fn serialize_bool(&mut self, v: bool)
        ensures
            final(self)@ == with_top(old(self)@, value_wire(DataModel::Boolean(v))),
    {
        let text: Vec<u8> = if v {
            vec![116u8, 114u8, 117u8, 101u8]
        } else {
            vec![102u8, 97u8, 108u8, 115u8, 101u8]
        };
        assert(text@ =~= payload_wire(DataModel::Boolean(v)));
        self.write_framed(DataType::Boolean, text.as_slice());
    }

    pub fn serialize_i64(&mut self, v: i64)
        ensures
            final(self)@ == with_top(old(self)@, value_wire(DataModel::Integer(v))),
    {
        let mut text: Vec<u8> = Vec::new();
        if v < 0 {
            text.push(45u8);
            let m: u64 = (-(v as i128)) as u64;
            push_decimal(&mut text, m);
        } else {
            push_decimal(&mut text, v as u64);
        }
        assert(text@ =~= signed_digits(v));
        self.write_framed(DataType::Integer, text.as_slice());
    }

    /// Writes an unsigned number as an integer entry.
    pub fn serialize_u64(&mut self, v: u64)
        ensures
            final(self)@ == with_top(old(self)@, framed(35, decimal_digits(v as nat))),
    {
        let mut text: Vec<u8> = Vec::new();
        push_decimal(&mut text, v);
        assert(text@ =~= decimal_digits(v as nat));
        self.write_framed(DataType::Integer, text.as_slice());
    }

    pub fn serialize_float(&mut self, v: TNetFloat)
        ensures
            final(self)@ == with_top(old(self)@, value_wire(DataModel::Float(v.integral, v.fractional))),
    {
        let mut text: Vec<u8> = Vec::new();
        push_decimal(&mut text, v.integral);
        text.push(46u8);
        push_decimal(&mut text, v.fractional);
        assert(text@ =~= float_digits(v.integral, v.fractional));
        self.write_framed(DataType::Float, text.as_slice());
    }

    pub fn serialize_bytes(&mut self, v: &[u8])
        ensures
            final(self)@ == with_top(old(self)@, value_wire(DataModel::Bytes(v@))),
    {
        self.write_framed(DataType::Bytes, v);
    }

    /// Writes text as a byte string of its UTF-8 encoding.
    pub fn serialize_str(&mut self, v: &str)
        ensures
            final(self)@ == with_top(old(self)@, value_wire(DataModel::Bytes(v.spec_bytes()))),
    {
        self.write_framed(DataType::Bytes, v.as_bytes());
    }

    pub fn serialize_unit(&mut self)
        ensures
            final(self)@ == with_top(old(self)@, value_wire(DataModel::Null)),
    {
        let empty: Vec<u8> = Vec::new();
        assert(empty@ =~= payload_wire(DataModel::Null));
        self.write_framed(DataType::Null, empty.as_slice());
    }

    /// Writes a whole value tree.
    pub fn serialize_data(&mut self, d: &TNetData)
        ensures
            final(self)@ == with_top(old(self)@, value_wire(d@)),
        decreases d,
    {
        proof { use_type_invariant(&*self); }
        match d {
            TNetData::Bytes(b) => self.serialize_bytes(b.as_slice()),
            TNetData::Integer(i) => self.serialize_i64(*i),
            TNetData::Float(f) => self.serialize_float(*f),
            TNetData::Boolean(b) => self.serialize_bool(*b),
            TNetData::Null => self.serialize_unit(),
            TNetData::List(l) => {
                let ghost frames = self@;
                self.begin_composite();
                let mut i: usize = 0;
                proof {
                    lemma_entries_model_len(l@);
                    assert(self@ =~= frames.push(items_wire(crate::tnet::entries_model(l@).subrange(0, 0))));
                }
                while i < l.len()
                    invariant
                        i <= l@.len(),
                        *d == TNetData::List(*l),
                        crate::tnet::entries_model(l@).len() == l@.len(),
                        frames.len() >= 1,
                        self@ == frames.push(items_wire(crate::tnet::entries_model(l@).subrange(0, i as int))),
                    decreases l@.len() - i,
                {
                    proof {
                        assert(decreases_to!(*d => (*d)->List_0));
                        assert(decreases_to!(*l => l@));
                        assert(decreases_to!(l@ => l@[i as int]));
                        assert(decreases_to!(l@[i as int] => l@[i as int].data));
                    }
                    self.serialize_data(&l[i].data);
                    proof {
                        let ms = crate::tnet::entries_model(l@);
                        lemma_entries_model_index(l@, i as int);
                        assert(ms.subrange(0, i + 1).subrange(0, i as int) =~= ms.subrange(0, i as int));
                        assert(ms.subrange(0, i + 1)[i as int] == ms[i as int]);
                        assert(items_wire(ms.subrange(0, i + 1)) == items_wire(ms.subrange(0, i as int)) + value_wire(l@[i as int]@.data));
                        assert(self@ =~= frames.push(items_wire(ms.subrange(0, i + 1))));
                    }
                    i = i + 1;
                }
                proof {
                    lemma_entries_model_len(l@);
                    assert(crate::tnet::entries_model(l@).subrange(0, i as int) =~= crate::tnet::entries_model(l@));
                }
                let _ = self.end_list();
                assert(self@ =~= with_top(frames, value_wire(d@)));
            },
            TNetData::Dictionary(dict) => {
                let ghost frames = self@;
                self.begin_composite();
                let mut i: usize = 0;
                proof {
                    lemma_pairs_model_len(dict.entries@);
                    assert(self@ =~= frames.push(pairs_wire(crate::tnet::pairs_model(dict.entries@).subrange(0, 0))));
                }
                while i < dict.entries.len()
                    invariant
                        i <= dict.entries@.len(),
                        *d == TNetData::Dictionary(*dict),
                        crate::tnet::pairs_model(dict.entries@).len() == dict.entries@.len(),
                        frames.len() >= 1,
                        self@ == frames.push(pairs_wire(crate::tnet::pairs_model(dict.entries@).subrange(0, i as int))),
                    decreases dict.entries@.len() - i,
                {
                    proof {
                        let ghost es = dict.entries@;
                        assert(decreases_to!(*d => (*d)->Dictionary_0));
                        assert(decreases_to!(*dict => dict.entries));
                        assert(decreases_to!(dict.entries => es));
                        assert(decreases_to!(es => es[i as int]));
                        assert(decreases_to!(es[i as int] => es[i as int].0));
                        assert(decreases_to!(es[i as int] => es[i as int].1));
                        assert(decreases_to!(es[i as int].0 => es[i as int].0.data));
                        assert(decreases_to!(es[i as int].1 => es[i as int].1.data));
                    }
                    let pair = &dict.entries[i];
                    self.serialize_data(&pair.0.data);
                    let ghost mid = self@;
                    self.serialize_data(&pair.1.data);
                    proof {
                        let ms = crate::tnet::pairs_model(dict.entries@);
                        lemma_pairs_model_index(dict.entries@, i as int);
                        assert(ms.subrange(0, i + 1).subrange(0, i as int) =~= ms.subrange(0, i as int));
                        assert(ms.subrange(0, i + 1)[i as int] == ms[i as int]);
                        let w = pairs_wire(ms.subrange(0, i as int));
                        assert(pairs_wire(ms.subrange(0, i + 1)) == w + value_wire(pair.0@.data) + value_wire(pair.1@.data));
                        assert(mid.last() =~= w + value_wire(pair.0@.data));
                        assert(self@ =~= frames.push(pairs_wire(ms.subrange(0, i + 1))));
                    }
                    i = i + 1;
                }
                proof {
                    lemma_pairs_model_len(dict.entries@);
                    assert(crate::tnet::pairs_model(dict.entries@).subrange(0, i as int) =~= crate::tnet::pairs_model(dict.entries@));
                }
                let _ = self.end_map();
                assert(self@ =~= with_top(frames, value_wire(d@)));
            },
        }
    }

    /// The frames, bottom first.
    pub fn frames(&self) -> (r: &Vec<Vec<u8>>)
        ensures
            r@.len() == self@.len(),
            forall|i: int| 0 <= i < r@.len() ==> (#[trigger] r@[i])@ == self@[i],
    {
        &self.stack
    }

    /// The encoding built so far: the frame on top.
    pub fn into_bytes(self) -> (r: Vec<u8>)
        ensures
            r@ == self@.last(),
    {
        proof { use_type_invariant(&self); }
        let mut stack = self.stack;
        stack.pop().unwrap()
    }
}

pub proof fn lemma_entries_model_len(s: Seq<crate::tnet::TNetEntry>)
    ensures
        crate::tnet::entries_model(s).len() == s.len(),
    decreases s.len(),
{
    if s.len() > 0 {
        lemma_entries_model_len(s.subrange(0, s.len() - 1));
    }
}

pub proof fn lemma_entries_model_index(s: Seq<crate::tnet::TNetEntry>, i: int)
    requires
        0 <= i < s.len(),
    ensures
        crate::tnet::entries_model(s)[i] == s[i]@,
    decreases s.len(),
{
    lemma_entries_model_len(s.subrange(0, s.len() - 1));
    if i < s.len() - 1 {
        lemma_entries_model_index(s.subrange(0, s.len() - 1), i);
    }
}

pub proof fn lemma_pairs_model_len(s: Seq<(crate::tnet::TNetEntry, crate::tnet::TNetEntry)>)
    ensures
        crate::tnet::pairs_model(s).len() == s.len(),
    decreases s.len(),
{
    if s.len() > 0 {
        lemma_pairs_model_len(s.subrange(0, s.len() - 1));
    }
}

pub proof fn lemma_pairs_model_index(s: Seq<(crate::tnet::TNetEntry, crate::tnet::TNetEntry)>, i: int)
    requires
        0 <= i < s.len(),
    ensures
        crate::tnet::pairs_model(s)[i] == (s[i].0@, s[i].1@),
    decreases s.len(),
{
    lemma_pairs_model_len(s.subrange(0, s.len() - 1));
    if i < s.len() - 1 {
        lemma_pairs_model_index(s.subrange(0, s.len() - 1), i);
    }
}

/// Encodes a value tree.
pub fn to_bytes(value: &TNetData) -> (r: Vec<u8>)
    ensures
        r@ == value_wire(value@),
{
    let mut s = Serializer::new();
    s.serialize_data(value);
    assert(s@.last() =~= value_wire(value@));
    s.into_bytes()
}

} // verus!
