use crate::commitment::sha256_of;
use crate::script::{
    item_bytes, items_bytes, ScriptItem, OP_0, OP_BOOLAND, OP_BOOLOR, OP_DUP, OP_EQUAL,
    OP_EQUALVERIFY, OP_FROMALTSTACK, OP_NOT, OP_NUMNOTEQUAL, OP_SHA256, OP_SWAP, OP_TOALTSTACK,
    OP_VERIFY,
};
use vstd::prelude::*;

verus! {

/// The main and the alternate stack of a script evaluation; the top is the
/// last element.
pub struct Stacks {
    pub main: Seq<Seq<u8>>,
    pub alt: Seq<Seq<u8>>,
}

/// The largest stack element a witness may hold.
pub const MAX_ELEMENT_SIZE: usize = 520;

/// Whether a stack element counts as true: some byte is non-zero, other than
/// a sign bit alone in the last byte.
pub open spec fn cast_to_bool(v: Seq<u8>) -> bool {
    exists|i: int| 0 <= i < v.len() && v[i] != 0 && !(i == v.len() - 1 && v[i] == 0x80)
}

/// The element for a boolean result: `[1]` or empty.
pub open spec fn bool_item(b: bool) -> Seq<u8> {
    if b {
        seq![1u8]
    } else {
        Seq::empty()
    }
}

/// Little-endian unsigned value of a byte string.
pub open spec fn le_value(s: Seq<u8>) -> nat
    decreases s.len(),
{
    if s.len() == 0 {
        0
    } else {
        (s[0] + 256 * le_value(s.drop_first())) as nat
    }
}

/// A stack element read as a number: at most four bytes, minimally encoded,
/// little-endian magnitude with the sign in the top bit of the last byte.
pub open spec fn script_num(v: Seq<u8>) -> Option<int> {
    if v.len() == 0 {
        Some(0)
    } else if v.len() > 4 {
        None
    } else if v.last() % 128 == 0 && (v.len() == 1 || v[v.len() - 2] < 128) {
        None
    } else {
        let magnitude = le_value(v.drop_last().push((v.last() % 128) as u8));
        if v.last() >= 128 {
            Some(-magnitude)
        } else {
            Some(magnitude as int)
        }
    }
}

/// The stacks with `v` pushed on the main stack.
pub open spec fn push(st: Stacks, v: Seq<u8>) -> Stacks {
    Stacks { main: st.main.push(v), alt: st.alt }
}

/// The stacks with the top two main elements replaced by `v`.
pub open spec fn replace_two(st: Stacks, v: Seq<u8>) -> Stacks {
    Stacks { main: st.main.drop_last().drop_last().push(v), alt: st.alt }
}

/// One opcode of the fragment: `OP_0` to `OP_16`, `OP_VERIFY`,
/// `OP_TOALTSTACK`, `OP_FROMALTSTACK`, `OP_DUP`, `OP_SWAP`, `OP_EQUAL`,
/// `OP_EQUALVERIFY`, `OP_NOT`, `OP_BOOLAND`, `OP_BOOLOR`, `OP_NUMNOTEQUAL` and
/// `OP_SHA256`. Any other opcode, and any opcode short of operands, stops
/// the evaluation (`None`).
pub open spec fn exec_op(op: u8, st: Stacks) -> Option<Stacks> {
    let m = st.main;
    let n = m.len();
    if op == OP_0 {
        Some(push(st, Seq::empty()))
    } else if 0x51 <= op <= 0x60 {
        Some(push(st, seq![(op - 0x50) as u8]))
    } else if op == OP_VERIFY {
        if n >= 1 && cast_to_bool(m.last()) {
            Some(Stacks { main: m.drop_last(), alt: st.alt })
        } else {
            None
        }
    } else if op == OP_TOALTSTACK {
        if n >= 1 {
            Some(Stacks { main: m.drop_last(), alt: st.alt.push(m.last()) })
        } else {
            None
        }
    } else if op == OP_FROMALTSTACK {
        if st.alt.len() >= 1 {
            Some(Stacks { main: m.push(st.alt.last()), alt: st.alt.drop_last() })
        } else {
            None
        }
    } else if op == OP_DUP {
        if n >= 1 {
            Some(push(st, m.last()))
        } else {
            None
        }
    } else if op == OP_SWAP {
        if n >= 2 {
            Some(Stacks { main: m.drop_last().drop_last().push(m[n - 1]).push(m[n - 2]), alt: st.alt })
        } else {
            None
        }
    } else if op == OP_SHA256 {
        if n >= 1 {
            Some(Stacks { main: m.drop_last().push(sha256_of(m.last())), alt: st.alt })
        } else {
            None
        }
    } else if n < 1 {
        None
    } else if op == OP_NOT {
        match script_num(m.last()) {
            Some(x) => Some(Stacks { main: m.drop_last().push(bool_item(x == 0)), alt: st.alt }),
            None => None,
        }
    } else if n < 2 {
        None
    } else if op == OP_EQUAL {
        Some(replace_two(st, bool_item(m[n - 2] == m[n - 1])))
    } else if op == OP_EQUALVERIFY {
        if m[n - 2] == m[n - 1] {
            Some(Stacks { main: m.drop_last().drop_last(), alt: st.alt })
        } else {
            None
        }
    } else {
        match (script_num(m[n - 2]), script_num(m[n - 1])) {
            (Some(x), Some(y)) => if op == OP_BOOLAND {
                Some(replace_two(st, bool_item(x != 0 && y != 0)))
            } else if op == OP_BOOLOR {
                Some(replace_two(st, bool_item(x != 0 || y != 0)))
            } else if op == OP_NUMNOTEQUAL {
                Some(replace_two(st, bool_item(x != y)))
            } else {
                None
            },
            _ => None,
        }
    }
}

/// Evaluates script bytes: a byte from 1 to 75 pushes that many following
/// bytes, any other byte is an opcode.
pub open spec fn eval(script: Seq<u8>, st: Stacks) -> Option<Stacks>
    decreases script.len(),
{
    if script.len() == 0 {
        Some(st)
    } else {
        let op = script[0];
        if 1 <= op <= 75 {
            if script.len() < 1 + op {
                None
            } else {
                eval(script.subrange(1 + op, script.len() as int), push(st, script.subrange(1, 1 + op)))
            }
        } else {
            match exec_op(op, st) {
                Some(s) => eval(script.drop_first(), s),
                None => None,
            }
        }
    }
}

/// Whether a tapscript leaf accepts a witness stack (its top last): every
/// element is at most 520 bytes, and evaluation ends with exactly one
/// element, which is true.
pub open spec fn accepts(script: Seq<u8>, witness: Seq<Seq<u8>>) -> bool {
    &&& forall|i: int| 0 <= i < witness.len() ==> (#[trigger] witness[i]).len() <= MAX_ELEMENT_SIZE
    &&& match eval(script, Stacks { main: witness, alt: Seq::empty() }) {
        Some(st) => st.main.len() == 1 && cast_to_bool(st.main[0]),
        None => false,
    }
}

/// One instruction applied to the stacks.
pub open spec fn step_item(i: ScriptItem, st: Stacks) -> Option<Stacks> {
    match i {
        ScriptItem::Op(o) => exec_op(o, st),
        ScriptItem::Data(d) => Some(push(st, d@)),
    }
}

/// Instructions applied in order to the stacks.
pub open spec fn run_items(is: Seq<ScriptItem>, st: Stacks) -> Option<Stacks>
    decreases is.len(),
{
    if is.len() == 0 {
        Some(st)
    } else {
        match step_item(is[0], st) {
            Some(s) => run_items(is.drop_first(), s),
            None => None,
        }
    }
}

/// Whether no opcode of `is` lies in the push range, so that each
/// instruction's encoding reads back as itself.
pub open spec fn plain_items(is: Seq<ScriptItem>) -> bool {
    forall|k: int|
        0 <= k < is.len() ==> match #[trigger] is[k] {
            ScriptItem::Op(o) => !(1 <= o <= 75),
            ScriptItem::Data(_) => true,
        }
}

/// Evaluating the encoding of plain instructions is running them.
pub proof fn lemma_eval_items(is: Seq<ScriptItem>, st: Stacks)
    requires
        plain_items(is),
    ensures
        eval(items_bytes(is), st) == run_items(is, st),
    decreases is.len(),
{
    if is.len() > 0 {
        let rest = is.drop_first();
        assert(plain_items(rest)) by {
            assert forall|k: int| 0 <= k < rest.len() implies match #[trigger] rest[k] {
                ScriptItem::Op(o) => !(1 <= o <= 75),
                ScriptItem::Data(_) => true,
            } by {
                assert(rest[k] == is[k + 1]);
            }
        }
        let bytes = items_bytes(is);
        assert(bytes == item_bytes(is[0]) + items_bytes(rest));
        match is[0] {
            ScriptItem::Op(o) => {
                assert(plain_items(is) ==> !(1 <= o <= 75)) by {
                    assert(is[0] == ScriptItem::Op(o));
                }
                assert(bytes[0] == o);
                assert(bytes.drop_first() =~= items_bytes(rest));
                match exec_op(o, st) {
                    Some(s) => {
                        lemma_eval_items(rest, s);
                    },
                    None => {},
                }
            },
            ScriptItem::Data(d) => {
                assert(d@.len() == 32);
                assert(bytes[0] == 32u8);
                assert(bytes.subrange(1, 33) =~= d@);
                assert(bytes.subrange(33, bytes.len() as int) =~= items_bytes(rest));
                lemma_eval_items(rest, push(st, d@));
            },
        }
    }
}

/// Running a concatenation runs its parts in turn.
pub proof fn lemma_run_append(a: Seq<ScriptItem>, b: Seq<ScriptItem>, st: Stacks)
    ensures
        run_items(a + b, st) == match run_items(a, st) {
            Some(s) => run_items(b, s),
            None => None,
        },
    decreases a.len(),
{
    if a.len() == 0 {
        assert(a + b =~= b);
    } else {
        assert((a + b)[0] == a[0]);
        assert((a + b).drop_first() =~= a.drop_first() + b);
        match step_item(a[0], st) {
            Some(s) => lemma_run_append(a.drop_first(), b, s),
            None => {},
        }
    }
}

/// The numbers that the boolean elements read as.
pub proof fn lemma_bool_item_num(b: bool)
    ensures
        script_num(bool_item(b)) == Some(if b { 1int } else { 0int }),
        cast_to_bool(bool_item(b)) == b,
{
    if b {
        let v = seq![1u8];
        assert(v.last() == 1u8);
        assert(v.drop_last().push(1u8) =~= v);
        assert(le_value(v.drop_first()) == 0) by {
            assert(v.drop_first().len() == 0);
        }
        assert(le_value(v) == 1);
        assert(cast_to_bool(v)) by {
            assert(v[0] != 0);
        }
    }
}

} // verus!
