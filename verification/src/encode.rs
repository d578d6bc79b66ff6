//! The wire form of instructions.
//!
//! An instruction goes to the runtime as a tuple: an array whose first
//! element is the code of the instruction and whose other elements are what
//! the instruction holds. A batch goes as the array of its tuples, in order.
//! The code 1 is not in use.

use crate::reconcile::{batch_view, Instruction, InstructionView};
use crate::value::{lemma_values_view_push, values_view, Json, Number, Value};
use vstd::prelude::*;

verus! {

/// The code of `Create`.
pub const CODE_CREATE: u64 = 0;

/// The code of `AppendChild`.
pub const CODE_APPEND_CHILD: u64 = 2;

/// The code of `SetProperty`.
pub const CODE_SET_PROPERTY: u64 = 3;

/// The code of `ActivateRoots`.
pub const CODE_ACTIVATE_ROOTS: u64 = 4;

/// The code of `Commit`.
pub const CODE_COMMIT: u64 = 5;

/// The number `v` as a value.
pub open spec fn json_int(v: int) -> Json {
    if v < 0 {
        Json::Number(Number::NegInt(v as i64))
    } else {
        Json::Number(Number::PosInt(v as u64))
    }
}

/// The numbers of `hashes` as values, in order.
pub open spec fn json_hashes(hashes: Seq<i32>) -> Seq<Json> {
    Seq::new(hashes.len(), |i: int| json_int(hashes[i] as int))
}

/// The tuple that stands for `instruction` on the wire.
pub open spec fn encode(instruction: InstructionView) -> Json {
    match instruction {
        InstructionView::Create(hash, kind) => Json::Array(
            seq![json_int(CODE_CREATE as int), json_int(hash as int), Json::String(kind)],
        ),
        InstructionView::AppendChild(parent, child, channel) => Json::Array(
            seq![
                json_int(CODE_APPEND_CHILD as int),
                json_int(parent as int),
                json_int(child as int),
                json_int(channel as int),
            ],
        ),
        InstructionView::SetProperty(hash, name, value) => Json::Array(
            seq![
                json_int(CODE_SET_PROPERTY as int),
                json_int(hash as int),
                Json::String(name),
                value,
            ],
        ),
        InstructionView::ActivateRoots(roots) => Json::Array(
            seq![json_int(CODE_ACTIVATE_ROOTS as int), Json::Array(json_hashes(roots))],
        ),
        InstructionView::Commit => Json::Array(seq![json_int(CODE_COMMIT as int)]),
    }
}

/// The array that stands for `batch` on the wire: the tuples of its
/// instructions, in order.
pub open spec fn encode_batch(batch: Seq<InstructionView>) -> Json {
    Json::Array(Seq::new(batch.len(), |i: int| encode(batch[i])))
}

/// The value of a hash.
fn hash_value(hash: i32) -> (r: Value)
    ensures
        r@ == json_int(hash as int),
{
    Value::Number(Number::from_i64(hash as i64))
}

/// The value of a code or a channel.
fn count_value(count: u64) -> (r: Value)
    ensures
        r@ == json_int(count as int),
{
    Value::Number(Number::from_u64(count))
}

impl Instruction {
    /// The tuple that stands for this instruction on the wire.
    pub fn serialize(&self) -> (r: Value)
        ensures
            r@ == encode(self@),
    {
        match self {
            Instruction::Create(hash, kind) => {
                let tuple = vec![
                    count_value(CODE_CREATE),
                    hash_value(*hash),
                    Value::String(kind.clone()),
                ];
                assert(values_view(tuple@) =~= encode(self@)->Array_0);
                Value::Array(tuple)
            },
            Instruction::AppendChild(parent, child, channel) => {
                let tuple = vec![
                    count_value(CODE_APPEND_CHILD),
                    hash_value(*parent),
                    hash_value(*child),
                    count_value(*channel as u64),
                ];
                assert(values_view(tuple@) =~= encode(self@)->Array_0);
                Value::Array(tuple)
            },
            Instruction::SetProperty(hash, name, value) => {
                let tuple = vec![
                    count_value(CODE_SET_PROPERTY),
                    hash_value(*hash),
                    Value::String(name.clone()),
                    value.clone(),
                ];
                assert(values_view(tuple@) =~= encode(self@)->Array_0);
                Value::Array(tuple)
            },
            Instruction::ActivateRoots(roots) => {
                let mut hashes: Vec<Value> = Vec::new();
                let mut i: usize = 0;
                while i < roots.len()
                    invariant
                        i <= roots.len(),
                        values_view(hashes@) == json_hashes(roots@).take(i as int),
                    decreases roots.len() - i,
                {
                    let hash = hash_value(roots[i]);
                    proof {
                        lemma_values_view_push(hashes@, hash);
                    }
                    hashes.push(hash);
                    i += 1;
                }
                assert(json_hashes(roots@).take(i as int) =~= json_hashes(roots@));
                let tuple = vec![count_value(CODE_ACTIVATE_ROOTS), Value::Array(hashes)];
                assert(values_view(tuple@) =~= encode(self@)->Array_0);
                Value::Array(tuple)
            },
            Instruction::Commit => {
                let tuple = vec![count_value(CODE_COMMIT)];
                assert(values_view(tuple@) =~= encode(self@)->Array_0);
                Value::Array(tuple)
            },
        }
    }
}

/// The array that stands for `batch` on the wire.
pub fn serialize_batch(batch: &Vec<Instruction>) -> (r: Value)
    ensures
        r@ == encode_batch(batch_view(batch@)),
{
    let ghost tuples = encode_batch(batch_view(batch@))->Array_0;
    let mut encoded: Vec<Value> = Vec::new();
    let mut i: usize = 0;
    while i < batch.len()
        invariant
            i <= batch.len(),
            tuples == encode_batch(batch_view(batch@))->Array_0,
            values_view(encoded@) == tuples.take(i as int),
        decreases batch.len() - i,
    {
        let tuple = batch[i].serialize();
        proof {
            lemma_values_view_push(encoded@, tuple);
        }
        encoded.push(tuple);
        i += 1;
    }
    assert(tuples.take(i as int) =~= tuples);
    Value::Array(encoded)
}

} // verus!
