//! The hash that gives a node its identity.
//!
//! A node is written down as a string of bytes (its canonical form) and the
//! bytes are hashed with the 32-bit FNV-1a function. The canonical form holds
//! the kind, every property in the order of the names, and for every child,
//! in order, its hash and the output channel of its edge. So the hash is a
//! function of the structure of a node and of nothing else, and it changes
//! with the order of the children.

use crate::value::{values_view, Json, Number, Props, Value};
use vstd::prelude::*;
use vstd::utf8::encode_utf8;

verus! {

/// The value that the FNV-1a function starts from.
pub const FNV_OFFSET: u32 = 0x811c_9dc5;

/// The factor of the FNV-1a function.
pub const FNV_PRIME: u32 = 0x0100_0193;

/// One step of FNV-1a: the state after the byte `b` has gone into `h`.
pub open spec fn mix(h: u32, b: u8) -> u32 {
    (h ^ (b as u32)).wrapping_mul(FNV_PRIME)
}

/// The state after the bytes of `bytes` have gone into `h`, first to last.
pub open spec fn digest(h: u32, bytes: Seq<u8>) -> u32
    decreases bytes.len(),
{
    if bytes.len() == 0 {
        h
    } else {
        mix(digest(h, bytes.drop_last()), bytes.last())
    }
}

/// Hashing a string of bytes in two parts gives the hash of the whole.
pub proof fn lemma_digest_concat(h: u32, a: Seq<u8>, b: Seq<u8>)
    ensures
        digest(h, a + b) == digest(digest(h, a), b),
    decreases b.len(),
{
    if b.len() > 0 {
        lemma_digest_concat(h, a, b.drop_last());
        assert((a + b).drop_last() =~= a + b.drop_last());
    }
}

/// The four bytes of `x`, lowest first.
pub open spec fn u32_bytes(x: u32) -> Seq<u8> {
    seq![x as u8, (x >> 8) as u8, (x >> 16) as u8, (x >> 24) as u8]
}

/// The eight bytes of `x`, lowest first.
pub open spec fn u64_bytes(x: u64) -> Seq<u8> {
    u32_bytes(x as u32) + u32_bytes((x >> 32) as u32)
}

/// The canonical form of a string: the length of its UTF-8 encoding, then
/// the encoding.
pub open spec fn string_bytes(s: Seq<char>) -> Seq<u8> {
    u64_bytes(encode_utf8(s).len() as u64) + encode_utf8(s)
}

/// The canonical form of a number: a byte that tells its variant, then its
/// eight bytes.
pub open spec fn number_bytes(n: Number) -> Seq<u8> {
    match n {
        Number::PosInt(u) => seq![2u8] + u64_bytes(u),
        Number::NegInt(i) => seq![3u8] + u64_bytes(i as u64),
        Number::Float(bits) => seq![4u8] + u64_bytes(bits),
    }
}

/// The canonical form of a value: a byte that tells its variant, then what
/// the variant holds. An array and a mapping give their length first.
pub open spec fn json_bytes(v: Json) -> Seq<u8>
    decreases v, 0nat,
{
    match v {
        Json::Null => seq![0u8],
        Json::Bool(b) => seq![
            1u8,
            if b {
                1u8
            } else {
                0u8
            },
        ],
        Json::Number(n) => number_bytes(n),
        Json::String(s) => seq![5u8] + string_bytes(s),
        Json::Array(items) => seq![6u8] + u64_bytes(items.len() as u64) + items_bytes(
            items,
            items.len(),
        ),
        Json::Object(entries) => seq![7u8] + entries_bytes(entries),
    }
}

/// The canonical forms of the first `n` values of `items`, one after the
/// other.
pub open spec fn items_bytes(items: Seq<Json>, n: nat) -> Seq<u8>
    decreases items, n,
{
    if n == 0 || n > items.len() {
        Seq::empty()
    } else {
        items_bytes(items, (n - 1) as nat) + json_bytes(items[n - 1])
    }
}

/// The canonical form of a mapping: the number of entries, then each name
/// and value in order.
pub open spec fn entries_bytes(entries: Seq<(Seq<char>, Json)>) -> Seq<u8>
    decreases entries, entries.len() + 1,
{
    u64_bytes(entries.len() as u64) + entries_bytes_to(entries, entries.len())
}

/// The canonical forms of the first `n` entries of `entries`, one after the
/// other.
pub open spec fn entries_bytes_to(entries: Seq<(Seq<char>, Json)>, n: nat) -> Seq<u8>
    decreases entries, n,
{
    if n == 0 || n > entries.len() {
        Seq::empty()
    } else {
        entries_bytes_to(entries, (n - 1) as nat) + string_bytes(entries[n - 1].0) + json_bytes(
            entries[n - 1].1,
        )
    }
}

/// The canonical form of the first `n` edges of `edges`: for each the hash
/// of the child, then the output channel.
pub open spec fn edges_bytes_to(edges: Seq<(i32, u32)>, n: nat) -> Seq<u8>
    decreases n,
{
    if n == 0 || n > edges.len() {
        Seq::empty()
    } else {
        edges_bytes_to(edges, (n - 1) as nat) + u32_bytes(edges[n - 1].0 as u32) + u32_bytes(
            edges[n - 1].1,
        )
    }
}

/// The canonical form of a node: its kind, its properties, the number of its
/// children and their edges.
pub open spec fn node_bytes(
    kind: Seq<char>,
    props: Seq<(Seq<char>, Json)>,
    edges: Seq<(i32, u32)>,
) -> Seq<u8> {
    string_bytes(kind) + entries_bytes(props) + u64_bytes(edges.len() as u64) + edges_bytes_to(
        edges,
        edges.len(),
    )
}

/// The identity of a node with the given kind, properties and edges to its
/// children: the FNV-1a hash of its canonical form, read as a signed integer.
pub open spec fn node_hash(
    kind: Seq<char>,
    props: Seq<(Seq<char>, Json)>,
    edges: Seq<(i32, u32)>,
) -> i32 {
    digest(FNV_OFFSET, node_bytes(kind, props, edges)) as i32
}

/// A running FNV-1a hash.
pub struct Hasher {
    state: u32,
}

impl View for Hasher {
    type V = u32;

    closed spec fn view(&self) -> u32 {
        self.state
    }
}

impl Hasher {
    /// A hasher that no byte has gone into.
    pub fn new() -> (r: Hasher)
        ensures
            r@ == FNV_OFFSET,
    {
        Hasher { state: FNV_OFFSET }
    }

    /// The hash of the bytes written so far.
    pub fn finish(&self) -> (h: u32)
        ensures
            h == self@,
    {
        self.state
    }

    /// Writes one byte.
    pub fn write_u8(&mut self, b: u8)
        ensures
            final(self)@ == digest(old(self)@, seq![b]),
    {
        proof {
            reveal_with_fuel(digest, 2);
        }
        self.state = (self.state ^ (b as u32)).wrapping_mul(FNV_PRIME);
    }

    /// Writes the bytes of `bytes`, first to last.
    pub fn write_bytes(&mut self, bytes: &[u8])
        ensures
            final(self)@ == digest(old(self)@, bytes@),
    {
        let mut i: usize = 0;
        while i < bytes.len()
            invariant
                i <= bytes.len(),
                self@ == digest(old(self)@, bytes@.take(i as int)),
            decreases bytes.len() - i,
        {
            proof {
                assert(bytes@.take(i + 1).drop_last() =~= bytes@.take(i as int));
            }
            self.state = (self.state ^ (bytes[i] as u32)).wrapping_mul(FNV_PRIME);
            i += 1;
        }
        assert(bytes@.take(i as int) =~= bytes@);
    }

    /// Writes the four bytes of `x`, lowest first.
    pub fn write_u32(&mut self, x: u32)
        ensures
            final(self)@ == digest(old(self)@, u32_bytes(x)),
    {
        let ghost h0 = self@;
        self.write_u8(#[verifier::truncate] (x as u8));
        self.write_u8(#[verifier::truncate] ((x >> 8) as u8));
        self.write_u8(#[verifier::truncate] ((x >> 16) as u8));
        self.write_u8(#[verifier::truncate] ((x >> 24) as u8));
        proof {
            let b0 = seq![x as u8];
            let b1 = seq![(x >> 8) as u8];
            let b2 = seq![(x >> 16) as u8];
            let b3 = seq![(x >> 24) as u8];
            lemma_digest_concat(h0, b0, b1);
            lemma_digest_concat(h0, b0 + b1, b2);
            lemma_digest_concat(h0, b0 + b1 + b2, b3);
            assert(b0 + b1 + b2 + b3 =~= u32_bytes(x));
        }
    }

    /// Writes the eight bytes of `x`, lowest first.
    pub fn write_u64(&mut self, x: u64)
        ensures
            final(self)@ == digest(old(self)@, u64_bytes(x)),
    {
        let ghost h0 = self@;
        self.write_u32(#[verifier::truncate] (x as u32));
        self.write_u32(#[verifier::truncate] ((x >> 32) as u32));
        proof {
            lemma_digest_concat(h0, u32_bytes(x as u32), u32_bytes((x >> 32) as u32));
        }
    }

    /// Writes the canonical form of a string.
    pub fn write_str(&mut self, s: &str)
        ensures
            final(self)@ == digest(old(self)@, string_bytes(s@)),
    {
        let ghost h0 = self@;
        let bytes = s.as_bytes();
        self.write_u64(bytes.len() as u64);
        self.write_bytes(bytes);
        proof {
            lemma_digest_concat(h0, u64_bytes(encode_utf8(s@).len() as u64), encode_utf8(s@));
        }
    }

    /// Writes the canonical form of a number.
    pub fn write_number(&mut self, n: &Number)
        ensures
            final(self)@ == digest(old(self)@, number_bytes(*n)),
    {
        let ghost h0 = self@;
        match n {
            Number::PosInt(u) => {
                self.write_u8(2);
                self.write_u64(*u);
                proof {
                    lemma_digest_concat(h0, seq![2u8], u64_bytes(*u));
                }
            },
            Number::NegInt(i) => {
                self.write_u8(3);
                self.write_u64(#[verifier::truncate] (*i as u64));
                proof {
                    lemma_digest_concat(h0, seq![3u8], u64_bytes(*i as u64));
                }
            },
            Number::Float(bits) => {
                self.write_u8(4);
                self.write_u64(*bits);
                proof {
                    lemma_digest_concat(h0, seq![4u8], u64_bytes(*bits));
                }
            },
        }
    }

    /// Writes the canonical form of a value.
    pub fn write_value(&mut self, v: &Value)
        ensures
            final(self)@ == digest(old(self)@, json_bytes(v@)),
        decreases v@,
    {
        let ghost h0 = self@;
        match v {
            Value::Null => {
                self.write_u8(0);
            },
            Value::Bool(b) => {
                self.write_u8(1);
                self.write_u8(
                    if *b {
                        1
                    } else {
                        0
                    },
                );
                proof {
                    let t = if *b {
                        1u8
                    } else {
                        0u8
                    };
                    lemma_digest_concat(h0, seq![1u8], seq![t]);
                    assert(seq![1u8] + seq![t] =~= json_bytes(v@));
                }
            },
            Value::Number(n) => {
                self.write_number(n);
            },
            Value::String(s) => {
                self.write_u8(5);
                self.write_str(s.as_str());
                proof {
                    lemma_digest_concat(h0, seq![5u8], string_bytes(s@));
                }
            },
            Value::Array(items) => {
                let ghost models = values_view(items@);
                self.write_u8(6);
                self.write_u64(items.len() as u64);
                let ghost head = seq![6u8] + u64_bytes(items.len() as u64);
                proof {
                    lemma_digest_concat(h0, seq![6u8], u64_bytes(items.len() as u64));
                    assert(head + items_bytes(models, 0) =~= head);
                }
                let mut i: usize = 0;
                while i < items.len()
                    invariant
                        i <= items.len(),
                        models == values_view(items@),
                        v@ == Json::Array(models),
                        self@ == digest(h0, head + items_bytes(models, i as nat)),
                    decreases items.len() - i,
                {
                    assert(v@->Array_0[i as int] == items@[i as int]@);
                    self.write_value(&items[i]);
                    proof {
                        lemma_digest_concat(
                            h0,
                            head + items_bytes(models, i as nat),
                            json_bytes(models[i as int]),
                        );
                        assert(head + items_bytes(models, i as nat) + json_bytes(models[i as int])
                            =~= head + items_bytes(models, (i + 1) as nat));
                    }
                    i += 1;
                }
            },
            Value::Object(props) => {
                self.write_u8(7);
                self.write_props(props);
                proof {
                    lemma_digest_concat(h0, seq![7u8], entries_bytes(props@));
                }
            },
        }
    }

    /// Writes the canonical form of a mapping.
    pub fn write_props(&mut self, props: &Props)
        ensures
            final(self)@ == digest(old(self)@, entries_bytes(props@)),
        decreases props@,
    {
        let ghost h0 = self@;
        let ghost entries = props@;
        let n = props.len();
        self.write_u64(n as u64);
        let ghost head = u64_bytes(n as u64);
        let mut i: usize = 0;
        while i < n
            invariant
                i <= n,
                n == entries.len(),
                entries == props@,
                self@ == digest(h0, head + entries_bytes_to(entries, i as nat)),
            decreases n - i,
        {
            let ghost so_far = head + entries_bytes_to(entries, i as nat);
            self.write_str(props.key(i).as_str());
            self.write_value(props.value(i));
            proof {
                lemma_digest_concat(h0, so_far, string_bytes(entries[i as int].0));
                lemma_digest_concat(
                    h0,
                    so_far + string_bytes(entries[i as int].0),
                    json_bytes(entries[i as int].1),
                );
                assert(so_far + string_bytes(entries[i as int].0) + json_bytes(entries[i as int].1)
                    =~= head + entries_bytes_to(entries, (i + 1) as nat));
            }
            i += 1;
        }
    }
}

} // verus!
