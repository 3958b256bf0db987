use bitcoin::script::Builder;
use bitcoin::ScriptBuf;
use vstd::prelude::*;

verus! {

#[verifier::external_type_specification]
#[verifier::external_body]
pub struct ExBuilder(Builder);

#[verifier::external_type_specification]
#[verifier::external_body]
pub struct ExScriptBuf(ScriptBuf);

/// The bytes a script builder holds so far.
pub uninterp spec fn builder_bytes(b: Builder) -> Seq<u8>;

/// The bytes of a script.
pub uninterp spec fn script_bytes(s: ScriptBuf) -> Seq<u8>;

pub const OP_0: u8 = 0x00;
pub const OP_1: u8 = 0x51;
pub const OP_10: u8 = 0x5a;
pub const OP_VERIFY: u8 = 0x69;
pub const OP_TOALTSTACK: u8 = 0x6b;
pub const OP_FROMALTSTACK: u8 = 0x6c;
pub const OP_DROP: u8 = 0x75;
pub const OP_DUP: u8 = 0x76;
pub const OP_SWAP: u8 = 0x7c;
pub const OP_EQUAL: u8 = 0x87;
pub const OP_EQUALVERIFY: u8 = 0x88;
pub const OP_NOT: u8 = 0x91;
pub const OP_BOOLAND: u8 = 0x9a;
pub const OP_BOOLOR: u8 = 0x9b;
pub const OP_NUMNOTEQUAL: u8 = 0x9e;
pub const OP_SHA256: u8 = 0xa8;
pub const OP_CHECKSIG: u8 = 0xac;
pub const OP_CHECKSIGVERIFY: u8 = 0xad;
pub const OP_CSV: u8 = 0xb2;

/// Relies on bitcoin's `Builder::new`: a builder holding no bytes.
#[verifier::external_body]
fn new_builder() -> (r: Builder)
    ensures
        builder_bytes(r) == Seq::<u8>::empty(),
{
    Builder::new()
}

/// Relies on bitcoin's `Builder::push_opcode` (and `From<u8>` for
/// `opcodes::All`): appends the opcode's byte.
#[verifier::external_body]
fn push_opcode(b: Builder, op: u8) -> (r: Builder)
    ensures
        builder_bytes(r) == builder_bytes(b).push(op),
{
    b.push_opcode(bitcoin::opcodes::All::from(op))
}

/// Relies on bitcoin's `Builder::push_slice`: 32 bytes of data are pushed
/// as their length, 32, followed by the bytes.
#[verifier::external_body]
fn push_bytes32(b: Builder, data: &[u8; 32]) -> (r: Builder)
    ensures
        builder_bytes(r) == builder_bytes(b).push(32u8) + data@,
{
    b.push_slice(data)
}

/// Relies on bitcoin's `Builder::into_script`: the script of the builder's
/// bytes.
#[verifier::external_body]
fn into_script(b: Builder) -> (r: ScriptBuf)
    ensures
        script_bytes(r) == builder_bytes(b),
{
    b.into_script()
}

/// One instruction of a script: an opcode, or a push of 32 bytes.
#[derive(Clone, Copy, Debug)]
pub enum ScriptItem {
    Op(u8),
    Data([u8; 32]),
}

/// The encoding of one instruction.
pub open spec fn item_bytes(i: ScriptItem) -> Seq<u8> {
    match i {
        ScriptItem::Op(o) => seq![o],
        ScriptItem::Data(d) => seq![32u8] + d@,
    }
}

/// The encoding of a sequence of instructions.
pub open spec fn items_bytes(is: Seq<ScriptItem>) -> Seq<u8>
    decreases is.len(),
{
    if is.len() == 0 {
        Seq::empty()
    } else {
        item_bytes(is[0]) + items_bytes(is.drop_first())
    }
}

/// Encoding a concatenation concatenates the encodings.
pub proof fn lemma_items_bytes_append(a: Seq<ScriptItem>, b: Seq<ScriptItem>)
    ensures
        items_bytes(a + b) == items_bytes(a) + items_bytes(b),
    decreases a.len(),
{
    if a.len() == 0 {
        assert(a + b =~= b);
    } else {
        lemma_items_bytes_append(a.drop_first(), b);
        assert((a + b).drop_first() =~= a.drop_first() + b);
        assert(items_bytes(a + b) =~= items_bytes(a) + items_bytes(b));
    }
}

/// Appends the encoding of `items` to a builder.
pub fn push_items(b: Builder, items: &Vec<ScriptItem>) -> (r: Builder)
    ensures
        builder_bytes(r) == builder_bytes(b) + items_bytes(items@),
{
    let mut b = b;
    let ghost start = builder_bytes(b);
    let mut i: usize = 0;
    while i < items.len()
        invariant
            i <= items.len(),
            builder_bytes(b) == start + items_bytes(items@.take(i as int)),
        decreases items.len() - i,
    {
        proof {
            lemma_items_bytes_append(items@.take(i as int), seq![items@[i as int]]);
            assert(items@.take(i + 1) =~= items@.take(i as int) + seq![items@[i as int]]);
            let one = seq![items@[i as int]];
            assert(one.drop_first() =~= Seq::<ScriptItem>::empty());
            assert(items_bytes(one.drop_first()) == Seq::<u8>::empty());
            assert(items_bytes(one) =~= item_bytes(items@[i as int]));
        }
        match items[i] {
            ScriptItem::Op(o) => {
                b = push_opcode(b, o);
            },
            ScriptItem::Data(d) => {
                b = push_bytes32(b, &d);
            },
        }
        assert(builder_bytes(b) =~= start + items_bytes(items@.take(i + 1)));
        i = i + 1;
    }
    assert(items@.take(i as int) =~= items@);
    b
}

/// The script that encodes `items`.
pub fn assemble(items: &Vec<ScriptItem>) -> (r: ScriptBuf)
    ensures
        script_bytes(r) == items_bytes(items@),
{
    let b = push_items(new_builder(), items);
    assert(Seq::<u8>::empty() + items_bytes(items@) =~= items_bytes(items@));
    into_script(b)
}

} // verus!
