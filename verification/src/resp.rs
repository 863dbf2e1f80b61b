//! Protocol values: the tagged tree a RESP frame decodes to, together with
//! its mathematical model.
use vstd::prelude::*;

verus! {

pub const CR: u8 = 13;
pub const LF: u8 = 10;
pub const TAG_SIMPLE: u8 = 43;
pub const TAG_ERROR: u8 = 45;
pub const TAG_INTEGER: u8 = 58;
pub const TAG_BULK: u8 = 36;
pub const TAG_ARRAY: u8 = 42;
pub const TAG_NULL: u8 = 95;

/// The payload of a bulk string: present bytes, the empty bulk string, or the
/// null bulk string (the three are distinct on the wire).
#[derive(Debug, PartialEq)]
pub enum BulkEnumerator {
    Value(Vec<u8>),
    Empty,
    Null,
}

/// One decoded RESP unit.
#[derive(Debug, PartialEq)]
pub enum RESPValue {
    NULL,
    SimpleString(Vec<u8>),
    Error(Vec<u8>),
    Integer(i32),
    BulkString(BulkEnumerator),
    Array(Vec<RESPValue>),
}

/// Mathematical model of a bulk-string payload.
pub enum BulkModel {
    Present(Seq<u8>),
    Empty,
    Null,
}

/// Mathematical model of a protocol value; contracts speak of this type.
#[verifier::ext_equal]
pub enum ValueModel {
    Null,
    Simple(Seq<u8>),
    Error(Seq<u8>),
    Integer(int),
    Bulk(BulkModel),
    Array(Seq<ValueModel>),
}

impl BulkEnumerator {
    pub open spec fn model(&self) -> BulkModel {
        match self {
            BulkEnumerator::Value(b) => BulkModel::Present(b@),
            BulkEnumerator::Empty => BulkModel::Empty,
            BulkEnumerator::Null => BulkModel::Null,
        }
    }
}

impl RESPValue {
    pub open spec fn model(&self) -> ValueModel
        decreases self,
    {
        match self {
            RESPValue::NULL => ValueModel::Null,
            RESPValue::SimpleString(s) => ValueModel::Simple(s@),
            RESPValue::Error(s) => ValueModel::Error(s@),
            RESPValue::Integer(i) => ValueModel::Integer(*i as int),
            RESPValue::BulkString(b) => ValueModel::Bulk(b.model()),
            RESPValue::Array(items) => ValueModel::Array(models_of(items@)),
        }
    }
}

/// The models of a sequence of protocol values, element by element.
pub open spec fn models_of(s: Seq<RESPValue>) -> Seq<ValueModel>
    decreases s,
{
    if s.len() == 0 {
        Seq::empty()
    } else {
        models_of(s.drop_last()).push(s.last().model())
    }
}

/// `models_of` is the element-wise model.
pub proof fn lemma_models_of(s: Seq<RESPValue>)
    ensures
        models_of(s).len() == s.len(),
        forall|i: int| 0 <= i < s.len() ==> models_of(s)[i] == #[trigger] s[i].model(),
    decreases s,
{
    if s.len() > 0 {
        lemma_models_of(s.drop_last());
        assert forall|i: int| 0 <= i < s.len() implies models_of(s)[i] == #[trigger] s[i].model() by {
            if i < s.len() - 1 {
                assert(s.drop_last()[i] == s[i]);
            } else {
                assert(s.last() == s[i]);
            }
        }
    }
}

} // verus!
