//! Field values, documents and records.
//!
//! A record is what a caller hands in: field names paired with values.  A
//! document is what the store holds: compact numeric field ids paired with
//! the same values.  Values are either text, which the text index
//! tokenizes, or opaque bytes, which it ignores.

use vstd::prelude::*;

verus! {

/// A single field value: text to be indexed, or an opaque byte payload.
pub enum FieldValue {
    Text(Vec<u8>),
    Data(Vec<u8>),
}

/// The mathematical model of a [`FieldValue`].
pub enum ValueView {
    Text(Seq<u8>),
    Data(Seq<u8>),
}

impl View for FieldValue {
    type V = ValueView;

    open spec fn view(&self) -> ValueView {
        match self {
            FieldValue::Text(v) => ValueView::Text(v@),
            FieldValue::Data(v) => ValueView::Data(v@),
        }
    }
}

impl Clone for FieldValue {
    fn clone(&self) -> (r: Self)
        ensures
            r@ == self@,
    {
        match self {
            FieldValue::Text(v) => FieldValue::Text(copy_bytes(v)),
            FieldValue::Data(v) => FieldValue::Data(copy_bytes(v)),
        }
    }
}

/// Copy a byte vector.
pub fn copy_bytes(v: &Vec<u8>) -> (r: Vec<u8>)
    ensures
        r@ == v@,
{
    let mut r: Vec<u8> = Vec::new();
    let mut i: usize = 0;
    while i < v.len()
        invariant
            i <= v.len(),
            r@ == v@.take(i as int),
        decreases v.len() - i,
    {
        r.push(v[i]);
        i += 1;
        proof {
            assert(v@.take(i as int) =~= v@.take(i - 1).push(v@[i - 1]));
        }
    }
    proof {
        assert(v@.take(v.len() as int) =~= v@);
    }
    r
}

/// A document as stored: field ids paired with values, in the order the
/// caller's record listed them.
pub struct Document {
    pub fields: Vec<(u32, FieldValue)>,
}

/// The model of a document: a sequence of (field id, value) pairs.
pub type DocView = Seq<(u32, ValueView)>;

impl View for Document {
    type V = DocView;

    open spec fn view(&self) -> DocView {
        Seq::new(self.fields@.len(), |i: int| (self.fields@[i].0, self.fields@[i].1@))
    }
}

impl Clone for Document {
    fn clone(&self) -> (r: Self)
        ensures
            r@ == self@,
    {
        let mut fields: Vec<(u32, FieldValue)> = Vec::new();
        let mut i: usize = 0;
        while i < self.fields.len()
            invariant
                i <= self.fields.len(),
                fields@.len() == i,
                forall|j: int| 0 <= j < i ==> fields@[j].0 == self.fields@[j].0
                    && fields@[j].1@ == self.fields@[j].1@,
            decreases self.fields.len() - i,
        {
            let (id, v) = &self.fields[i];
            fields.push((*id, v.clone()));
            i += 1;
        }
        let r = Document { fields };
        proof {
            assert(r@ =~= self@);
        }
        r
    }
}

/// A record as a caller supplies it: field names paired with values.
pub struct Record {
    pub fields: Vec<(Vec<u8>, FieldValue)>,
}

/// The model of a record: a sequence of (field name, value) pairs.
pub type RecView = Seq<(Seq<u8>, ValueView)>;

impl View for Record {
    type V = RecView;

    open spec fn view(&self) -> RecView {
        Seq::new(self.fields@.len(), |i: int| (self.fields@[i].0@, self.fields@[i].1@))
    }
}

impl Clone for Record {
    fn clone(&self) -> (r: Self)
        ensures
            r@ == self@,
    {
        let mut fields: Vec<(Vec<u8>, FieldValue)> = Vec::new();
        let mut i: usize = 0;
        while i < self.fields.len()
            invariant
                i <= self.fields.len(),
                fields@.len() == i,
                forall|j: int| 0 <= j < i ==> fields@[j].0@ == self.fields@[j].0@
                    && fields@[j].1@ == self.fields@[j].1@,
            decreases self.fields.len() - i,
        {
            let (name, v) = &self.fields[i];
            fields.push((copy_bytes(name), v.clone()));
            i += 1;
        }
        let r = Record { fields };
        proof {
            assert(r@ =~= self@);
        }
        r
    }
}

} // verus!
