use crate::circuit::{Circuit, Gate, GateKind};
use crate::error::BitvmError;
use vstd::prelude::*;
use vstd::string::StrSliceExecFns;

verus! {

broadcast use vstd::string::group_string_axioms;

/// The characters of `s`, in order.
fn chars_of(s: &str) -> (r: Vec<char>)
    ensures
        r@ == s@,
{
    let mut v: Vec<char> = Vec::new();
    for c in it: s.chars()
        invariant
            v@ == it.seq().take(it.index()),
            it.seq() == s@,
    {
        v.push(c);
        assert(v@ =~= it.seq().take(it.index() + 1));
    }
    assert(v@ =~= s@);
    v
}

/// Characters that separate the fields of a record.
pub open spec fn is_space(c: char) -> bool {
    c == ' ' || c == '\t' || c == '\r'
}

/// Whether `c` is an ASCII decimal digit.
pub open spec fn is_digit(c: char) -> bool {
    '0' <= c <= '9'
}

/// The value of the decimal digit `c`.
pub open spec fn digit_value(c: char) -> nat {
    (c as int - '0' as int) as nat
}

/// The length of the first line of `s`: up to the first newline, or all of it.
pub open spec fn line_len(s: Seq<char>) -> nat
    decreases s.len(),
{
    if s.len() == 0 || s[0] == '\n' {
        0
    } else {
        1 + line_len(s.drop_first())
    }
}

/// The length of the leading run of non-space characters of `l`.
pub open spec fn word_len(l: Seq<char>) -> nat
    decreases l.len(),
{
    if l.len() == 0 || is_space(l[0]) {
        0
    } else {
        1 + word_len(l.drop_first())
    }
}

/// The gates of some records are defined exactly for their identifiers.
pub proof fn lemma_gates_of_dom(rs: Seq<(u64, Gate)>, id: u64)
    ensures
        gates_of(rs).contains_key(id) <==> defines(rs, id),
    decreases rs.len(),
{
    if rs.len() > 0 {
        lemma_gates_of_dom(rs.drop_last(), id);
        if defines(rs, id) && rs.last().0 != id {
            let k = choose|k: int| 0 <= k < rs.len() && (#[trigger] rs[k]).0 == id;
            assert(rs.drop_last()[k] == rs[k]);
        }
        if defines(rs.drop_last(), id) {
            let k = choose|k: int| 0 <= k < rs.drop_last().len() && (#[trigger] rs.drop_last()[k]).0 == id;
            assert(rs[k] == rs.drop_last()[k]);
        }
        if rs.last().0 == id {
            assert(rs[rs.len() - 1].0 == id);
        }
    }
}

/// A line is no longer than what it is cut from.
pub proof fn lemma_line_len_bound(s: Seq<char>)
    ensures
        line_len(s) <= s.len(),
        line_len(s) < s.len() ==> s[line_len(s) as int] == '\n',
        forall|i: int| 0 <= i < line_len(s) ==> s[i] != '\n',
    decreases s.len(),
{
    if s.len() > 0 && s[0] != '\n' {
        lemma_line_len_bound(s.drop_first());
        assert forall|i: int| 0 <= i < line_len(s) implies s[i] != '\n' by {
            if i > 0 {
                assert(s[i] == s.drop_first()[i - 1]);
            }
        }
    }
}

/// A word is no longer than what it is cut from, and takes at least the
/// first character when that is no space.
pub proof fn lemma_word_len_bound(l: Seq<char>)
    ensures
        word_len(l) <= l.len(),
        l.len() > 0 && !is_space(l[0]) ==> word_len(l) >= 1,
        word_len(l) < l.len() ==> is_space(l[word_len(l) as int]),
        forall|i: int| 0 <= i < word_len(l) ==> !is_space(l[i]),
    decreases l.len(),
{
    if l.len() > 0 && !is_space(l[0]) {
        lemma_word_len_bound(l.drop_first());
        assert forall|i: int| 0 <= i < word_len(l) implies !is_space(l[i]) by {
            if i > 0 {
                assert(l[i] == l.drop_first()[i - 1]);
            }
        }
    }
}

#[via_fn]
proof fn fields_decreases(l: Seq<char>) {
    lemma_word_len_bound(l);
}

#[via_fn]
proof fn parse_lines_decreases(s: Seq<char>, line_no: nat, acc: Seq<(u64, Gate)>) {
    lemma_line_len_bound(s);
}

/// The fields of a line: its maximal runs of non-space characters.
pub open spec fn fields(l: Seq<char>) -> Seq<Seq<char>>
    decreases l.len() via fields_decreases
{
    if l.len() == 0 {
        Seq::empty()
    } else if is_space(l[0]) {
        fields(l.drop_first())
    } else {
        let n = word_len(l);
        seq![l.take(n as int)] + fields(l.skip(n as int))
    }
}

/// Whether the field is a non-empty run of decimal digits.
pub open spec fn is_numeral(t: Seq<char>) -> bool {
    t.len() > 0 && forall|i: int| 0 <= i < t.len() ==> is_digit(#[trigger] t[i])
}

/// The value of a run of decimal digits.
pub open spec fn numeral_value(t: Seq<char>) -> nat
    decreases t.len(),
{
    if t.len() == 0 {
        0
    } else {
        numeral_value(t.drop_last()) * 10 + digit_value(t.last())
    }
}

/// The field read as an unsigned 64-bit number, if it is one.
pub open spec fn parse_u64(t: Seq<char>) -> Option<u64> {
    if is_numeral(t) && numeral_value(t) <= u64::MAX {
        Some(numeral_value(t) as u64)
    } else {
        None
    }
}

/// Whether every field is a 64-bit number.
pub open spec fn all_numbers(ts: Seq<Seq<char>>) -> bool {
    forall|k: int| 0 <= k < ts.len() ==> (#[trigger] parse_u64(ts[k])) is Some
}

/// The position of the first field that is no 64-bit number.
pub open spec fn first_non_number(ts: Seq<Seq<char>>) -> int {
    choose|k: int|
        0 <= k < ts.len() && parse_u64(ts[k]) is None && forall|j: int|
            0 <= j < k ==> (#[trigger] parse_u64(ts[j])) is Some
}

/// The number that field `k` holds.
pub open spec fn number_at(ts: Seq<Seq<char>>, k: int) -> u64 {
    parse_u64(ts[k])->Some_0
}

/// The operators, by name.
pub open spec fn operator(t: Seq<char>) -> Option<GateKind> {
    if t == "AND"@ || t == "and"@ {
        Some(GateKind::And)
    } else if t == "NAND"@ || t == "nand"@ {
        Some(GateKind::Nand)
    } else if t == "XOR"@ || t == "xor"@ {
        Some(GateKind::Xor)
    } else if t == "INV"@ || t == "inv"@ {
        Some(GateKind::Inv)
    } else {
        None
    }
}

/// What a line of a description holds.
pub enum LineParse {
    /// A blank line.
    Skip,
    /// A line made of numbers only: a header line, before the first record.
    Header,
    /// A gate record: its identifier and its gate.
    Record(u64, Gate),
    /// A malformed record, with the offending text.
    Bad(Seq<char>),
}

/// Reads one line. A record is `<inputs> <outputs> <input wires> <output wire> <OP>`,
/// as in `2 1 0 1 2 AND` or `1 1 2 3 INV`: two inputs and one output for
/// `AND`, `NAND` and `XOR`, one of each for `INV` (operators in upper or
/// lower case). An unknown operator is reported by itself, a field that is
/// no 64-bit number by itself, and any other fault by the whole line: a
/// wrong number of fields, wrong counts, or a gate that reads its own wire.
/// A line of numbers only is a header line.
pub open spec fn parse_line(l: Seq<char>) -> LineParse {
    let ts = fields(l);
    if ts.len() == 0 {
        LineParse::Skip
    } else if forall|i: int| 0 <= i < ts.len() ==> is_numeral(#[trigger] ts[i]) {
        LineParse::Header
    } else {
        match operator(ts.last()) {
            None => LineParse::Bad(ts.last()),
            Some(op) => {
                let arity: int = if op == GateKind::Inv { 1 } else { 2 };
                if ts.len() != arity + 4 {
                    LineParse::Bad(l)
                } else {
                    let nums = ts.drop_last();
                    if !all_numbers(nums) {
                        LineParse::Bad(nums[first_non_number(nums)])
                    } else {
                        let out = number_at(nums, arity + 2);
                        let a = number_at(nums, 2);
                        let b = number_at(nums, 3);
                        if number_at(nums, 0) != arity || number_at(nums, 1) != 1 {
                            LineParse::Bad(l)
                        } else if op == GateKind::Inv {
                            if a == out {
                                LineParse::Bad(l)
                            } else {
                                LineParse::Record(out, Gate::Inv(a))
                            }
                        } else if a == out || b == out {
                            LineParse::Bad(l)
                        } else if op == GateKind::And {
                            LineParse::Record(out, Gate::And(a, b))
                        } else if op == GateKind::Nand {
                            LineParse::Record(out, Gate::Nand(a, b))
                        } else {
                            LineParse::Record(out, Gate::Xor(a, b))
                        }
                    }
                }
            },
        }
    }
}

/// Whether some record of `rs` defines gate `id`.
pub open spec fn defines(rs: Seq<(u64, Gate)>, id: u64) -> bool {
    exists|k: int| 0 <= k < rs.len() && (#[trigger] rs[k]).0 == id
}

/// Reads the lines of `s`, the first of which has number `line_no`, after
/// the records `acc`: all records in order, or the number and offending
/// text of the first malformed line. A record whose gate identifier an
/// earlier record defined is malformed, and so is a header line after the
/// first record; both are reported by their whole line.
pub open spec fn parse_lines(s: Seq<char>, line_no: nat, acc: Seq<(u64, Gate)>) -> Result<
    Seq<(u64, Gate)>,
    (nat, Seq<char>),
>
    decreases s.len() via parse_lines_decreases
{
    let n = line_len(s);
    let next = match parse_line(s.take(n as int)) {
        LineParse::Skip => Ok(acc),
        LineParse::Header => if acc.len() == 0 {
            Ok(acc)
        } else {
            Err((line_no, s.take(n as int)))
        },
        LineParse::Record(id, g) => if defines(acc, id) {
            Err((line_no, s.take(n as int)))
        } else {
            Ok(acc.push((id, g)))
        },
        LineParse::Bad(t) => Err((line_no, t)),
    };
    match next {
        Err(e) => Err(e),
        Ok(acc2) => if n >= s.len() {
            Ok(acc2)
        } else {
            parse_lines(s.skip(n + 1 as int), line_no + 1, acc2)
        },
    }
}

/// The records of a description, or its first malformed line.
pub open spec fn parse_description(s: Seq<char>) -> Result<Seq<(u64, Gate)>, (nat, Seq<char>)> {
    parse_lines(s, 1, Seq::empty())
}

/// The gates that the records define.
pub open spec fn gates_of(rs: Seq<(u64, Gate)>) -> Map<u64, Gate>
    decreases rs.len(),
{
    if rs.len() == 0 {
        Map::empty()
    } else {
        gates_of(rs.drop_last()).insert(rs.last().0, rs.last().1)
    }
}

/// `word_len` is the length of the leading run that ends at a space or at
/// the end.
proof fn lemma_word_len_exact(l: Seq<char>, n: int)
    requires
        0 <= n <= l.len(),
        forall|k: int| 0 <= k < n ==> !is_space(l[k]),
        n == l.len() || is_space(l[n]),
    ensures
        word_len(l) == n,
    decreases n,
{
    if n > 0 {
        assert forall|k: int| 0 <= k < n - 1 implies !is_space(l.drop_first()[k]) by {
            assert(l.drop_first()[k] == l[k + 1]);
        }
        if n < l.len() {
            assert(l.drop_first()[n - 1] == l[n]);
        }
        lemma_word_len_exact(l.drop_first(), n - 1);
    }
}

/// `line_len` is the length of the leading run that ends at a newline or at
/// the end.
proof fn lemma_line_len_exact(s: Seq<char>, n: int)
    requires
        0 <= n <= s.len(),
        forall|k: int| 0 <= k < n ==> s[k] != '\n',
        n == s.len() || s[n] == '\n',
    ensures
        line_len(s) == n,
    decreases n,
{
    if n > 0 {
        assert forall|k: int| 0 <= k < n - 1 implies s.drop_first()[k] != '\n' by {
            assert(s.drop_first()[k] == s[k + 1]);
        }
        if n < s.len() {
            assert(s.drop_first()[n - 1] == s[n]);
        }
        lemma_line_len_exact(s.drop_first(), n - 1);
    }
}

/// The text of a range of characters.
pub open spec fn text(cs: Seq<char>, r: (usize, usize)) -> Seq<char> {
    cs.subrange(r.0 as int, r.1 as int)
}

/// The fields of the line `cs[start..end]`, as ranges of `cs`.
fn line_fields(cs: &Vec<char>, start: usize, end: usize) -> (r: Vec<(usize, usize)>)
    requires
        start <= end <= cs.len(),
    ensures
        r@.len() == fields(cs@.subrange(start as int, end as int)).len(),
        forall|k: int|
            0 <= k < r@.len() ==> start <= (#[trigger] r@[k]).0 <= r@[k].1 <= end && text(cs@, r@[k])
                == fields(cs@.subrange(start as int, end as int))[k],
{
    let ghost line = cs@.subrange(start as int, end as int);
    let mut out: Vec<(usize, usize)> = Vec::new();
    let mut i: usize = start;
    while i < end
        invariant
            start <= i <= end <= cs.len(),
            line == cs@.subrange(start as int, end as int),
            forall|k: int| 0 <= k < out@.len() ==> start <= (#[trigger] out@[k]).0 <= out@[k].1 <= end,
            fields(line) == out@.map_values(|p: (usize, usize)| text(cs@, p)) + fields(
                cs@.subrange(i as int, end as int),
            ),
        decreases end - i,
    {
        let ghost rest = cs@.subrange(i as int, end as int);
        if cs[i] == ' ' || cs[i] == '\t' || cs[i] == '\r' {
            assert(rest.drop_first() =~= cs@.subrange(i + 1, end as int));
            i = i + 1;
        } else {
            let mut j: usize = i;
            while j < end && !(cs[j] == ' ' || cs[j] == '\t' || cs[j] == '\r')
                invariant
                    i <= j <= end <= cs.len(),
                    forall|k: int| i <= k < j ==> !is_space(cs@[k]),
                decreases end - j,
            {
                j = j + 1;
            }
            proof {
                lemma_word_len_exact(rest, j - i);
                assert(rest.take(j - i) =~= cs@.subrange(i as int, j as int));
                assert(rest.skip(j - i) =~= cs@.subrange(j as int, end as int));
            }
            let ghost before = out@;
            out.push((i, j));
            assert(out@.map_values(|p: (usize, usize)| text(cs@, p)) =~= before.map_values(
                |p: (usize, usize)| text(cs@, p),
            ).push(cs@.subrange(i as int, j as int)));
            assert(fields(line) =~= out@.map_values(|p: (usize, usize)| text(cs@, p)) + fields(
                cs@.subrange(j as int, end as int),
            ));
            i = j;
        }
    }
    assert(fields(cs@.subrange(i as int, end as int)) =~= Seq::<Seq<char>>::empty());
    assert(fields(line) =~= out@.map_values(|p: (usize, usize)| text(cs@, p)));
    assert forall|k: int| 0 <= k < out@.len() implies text(cs@, #[trigger] out@[k]) == fields(line)[k] by {
        assert(out@.map_values(|p: (usize, usize)| text(cs@, p))[k] == text(cs@, out@[k]));
    }
    out
}

/// A prefix of a run of digits is worth no more than the whole run.
proof fn lemma_numeral_prefix(t: Seq<char>, k: int)
    requires
        0 <= k <= t.len(),
    ensures
        numeral_value(t.take(k)) <= numeral_value(t),
    decreases t.len() - k,
{
    if k < t.len() {
        lemma_numeral_prefix(t, k + 1);
        assert(t.take(k + 1).drop_last() =~= t.take(k));
    } else {
        assert(t.take(k) =~= t);
    }
}

/// The characters `cs[from..to]` read as a 64-bit number, if they are one.
fn read_u64(cs: &Vec<char>, from: usize, to: usize) -> (r: Option<u64>)
    requires
        from <= to <= cs.len(),
    ensures
        r == parse_u64(cs@.subrange(from as int, to as int)),
{
    let ghost t = cs@.subrange(from as int, to as int);
    if from == to {
        return None;
    }
    let mut v: u64 = 0;
    let mut i: usize = from;
    while i < to
        invariant
            from <= i <= to <= cs.len(),
            t == cs@.subrange(from as int, to as int),
            forall|k: int| from <= k < i ==> is_digit(cs@[k]),
            v == numeral_value(t.take(i - from)),
        decreases to - i,
    {
        let c = cs[i];
        if !('0' <= c && c <= '9') {
            assert(!is_numeral(t)) by {
                assert(!is_digit(t[i - from]));
            }
            return None;
        }
        let d: u64 = (c as u32 - '0' as u32) as u64;
        assert(t.take(i - from + 1).drop_last() =~= t.take(i - from));
        assert(numeral_value(t.take(i - from + 1)) == v * 10 + d);
        if v > (u64::MAX - d) / 10 {
            proof {
                lemma_numeral_prefix(t, i - from + 1);
                assert(v * 10 + d > u64::MAX) by (nonlinear_arith)
                    requires
                        v > (u64::MAX - d) / 10,
                        d <= 9,
                ;
            }
            return None;
        }
        v = v * 10 + d;
        i = i + 1;
    }
    assert(t.take(i - from) =~= t);
    assert(is_numeral(t)) by {
        assert forall|k: int| 0 <= k < t.len() implies is_digit(#[trigger] t[k]) by {
            assert(t[k] == cs@[from + k]);
        }
    }
    Some(v)
}

/// Whether `cs[from..to]` is a run of decimal digits.
fn is_numeral_at(cs: &Vec<char>, from: usize, to: usize) -> (r: bool)
    requires
        from <= to <= cs.len(),
    ensures
        r == is_numeral(cs@.subrange(from as int, to as int)),
{
    let ghost t = cs@.subrange(from as int, to as int);
    if from == to {
        return false;
    }
    let mut i: usize = from;
    while i < to
        invariant
            from <= i <= to <= cs.len(),
            t == cs@.subrange(from as int, to as int),
            forall|k: int| from <= k < i ==> is_digit(cs@[k]),
        decreases to - i,
    {
        if !('0' <= cs[i] && cs[i] <= '9') {
            assert(!is_digit(t[i - from]));
            return false;
        }
        i = i + 1;
    }
    assert forall|k: int| 0 <= k < t.len() implies is_digit(#[trigger] t[k]) by {
        assert(t[k] == cs@[from + k]);
    }
    true
}

/// Whether `cs[from..to]` spells `w`.
fn spells(cs: &Vec<char>, from: usize, to: usize, w: &str) -> (r: bool)
    requires
        from <= to <= cs.len(),
    ensures
        r == (cs@.subrange(from as int, to as int) == w@),
{
    let ghost t = cs@.subrange(from as int, to as int);
    let n = w.unicode_len();
    if to - from != n {
        return false;
    }
    let mut i: usize = 0;
    while i < n
        invariant
            n == w@.len(),
            to - from == n,
            from <= to <= cs.len(),
            i <= n,
            t == cs@.subrange(from as int, to as int),
            forall|k: int| 0 <= k < i ==> t[k] == w@[k],
        decreases n - i,
    {
        if cs[from + i] != w.get_char(i) {
            return false;
        }
        i = i + 1;
    }
    assert(t =~= w@);
    true
}

/// The operator named by `cs[from..to]`.
fn read_operator(cs: &Vec<char>, from: usize, to: usize) -> (r: Option<GateKind>)
    requires
        from <= to <= cs.len(),
    ensures
        r == operator(cs@.subrange(from as int, to as int)),
{
    if spells(cs, from, to, "AND") || spells(cs, from, to, "and") {
        Some(GateKind::And)
    } else if spells(cs, from, to, "NAND") || spells(cs, from, to, "nand") {
        Some(GateKind::Nand)
    } else if spells(cs, from, to, "XOR") || spells(cs, from, to, "xor") {
        Some(GateKind::Xor)
    } else if spells(cs, from, to, "INV") || spells(cs, from, to, "inv") {
        Some(GateKind::Inv)
    } else {
        None
    }
}

/// `xnor` names no operator and is no number.
pub proof fn lemma_xnor_is_no_operator()
    ensures
        operator("xnor"@) is None,
        !is_numeral("xnor"@),
{
    reveal_strlit("xnor");
    reveal_strlit("AND");
    reveal_strlit("and");
    reveal_strlit("NAND");
    reveal_strlit("nand");
    reveal_strlit("XOR");
    reveal_strlit("xor");
    reveal_strlit("INV");
    reveal_strlit("inv");
    assert("xnor"@[0] == 'x');
    assert("xnor"@ != "xor"@) by {
        assert("xnor"@.len() != "xor"@.len());
    }
    assert("xnor"@ != "nand"@) by {
        assert("xnor"@[0] != "nand"@[0]);
    }
    assert("xnor"@ != "NAND"@) by {
        assert("xnor"@[0] != "NAND"@[0]);
    }
    assert(!is_digit("xnor"@[0]));
}

/// A line whose last field names no operator and is no number, such as
/// `2 1 0 1 2 xnor`, is malformed, reported by that field.
pub proof fn lemma_unknown_operator_rejected(l: Seq<char>)
    requires
        fields(l).len() > 0,
        operator(fields(l).last()) is None,
        !is_numeral(fields(l).last()),
    ensures
        parse_line(l) == LineParse::Bad(fields(l).last()),
{
    let ts = fields(l);
    assert(!(forall|i: int| 0 <= i < ts.len() ==> is_numeral(#[trigger] ts[i])));
}

/// A description with a malformed line, starting at position `p`, fails to
/// parse, whatever the lines before it hold.
pub proof fn lemma_malformed_line_fails(s: Seq<char>, line_no: nat, acc: Seq<(u64, Gate)>, p: int)
    requires
        0 <= p <= s.len(),
        p == 0 || s[p - 1] == '\n',
        parse_line(s.skip(p).take(line_len(s.skip(p)) as int)) is Bad,
    ensures
        parse_lines(s, line_no, acc) is Err,
    decreases s.len(),
{
    if p > 0 {
        let n = line_len(s);
        lemma_line_len_bound(s);
        assert(n <= p - 1) by {
            if n > p - 1 {
                assert(s[p - 1] != '\n');
            }
        }
        let rest = s.skip(n + 1 as int);
        assert(rest.skip(p - n - 1) =~= s.skip(p));
        if n < p - 1 {
            assert(rest[p - n - 2] == s[p - 1]);
        }
        match parse_line(s.take(n as int)) {
            LineParse::Bad(t) => {},
            LineParse::Skip => {
                lemma_malformed_line_fails(rest, line_no + 1, acc, p - n - 1);
            },
            LineParse::Header => {
                if acc.len() == 0 {
                    lemma_malformed_line_fails(rest, line_no + 1, acc, p - n - 1);
                }
            },
            LineParse::Record(id, g) => {
                if !defines(acc, id) {
                    lemma_malformed_line_fails(rest, line_no + 1, acc.push((id, g)), p - n - 1);
                }
            },
        }
    } else {
        assert(s.skip(0) =~= s);
    }
}

/// What a line was found to hold, with the offending text as a range.
enum LineOutcome {
    Skip,
    Header,
    Record(u64, Gate),
    Bad(usize, usize),
}

/// Whether `o` is what `parse_line` gives, its ranges read in `cs`.
spec fn outcome_matches(o: LineOutcome, p: LineParse, cs: Seq<char>) -> bool {
    match (o, p) {
        (LineOutcome::Skip, LineParse::Skip) => true,
        (LineOutcome::Header, LineParse::Header) => true,
        (LineOutcome::Record(a, g), LineParse::Record(b, h)) => a == b && g == h,
        (LineOutcome::Bad(x, y), LineParse::Bad(t)) => x <= y <= cs.len() && cs.subrange(
            x as int,
            y as int,
        ) == t,
        _ => false,
    }
}

/// Reads the line `cs[start..end]`.
fn read_line(cs: &Vec<char>, start: usize, end: usize) -> (r: LineOutcome)
    requires
        start <= end <= cs.len(),
    ensures
        outcome_matches(r, parse_line(cs@.subrange(start as int, end as int)), cs@),
{
    let ghost l = cs@.subrange(start as int, end as int);
    let ghost ts = fields(l);
    let fs = line_fields(cs, start, end);
    if fs.len() == 0 {
        return LineOutcome::Skip;
    }
    let mut all_numerals = true;
    let mut k: usize = 0;
    while k < fs.len()
        invariant
            k <= fs.len(),
            fs@.len() == ts.len(),
            forall|j: int|
                0 <= j < fs@.len() ==> start <= (#[trigger] fs@[j]).0 <= fs@[j].1 <= end && text(cs@, fs@[j])
                    == ts[j],
            end <= cs.len(),
            all_numerals == forall|j: int| 0 <= j < k ==> is_numeral(#[trigger] ts[j]),
        decreases fs.len() - k,
    {
        let numeral = is_numeral_at(cs, fs[k].0, fs[k].1);
        assert(numeral == is_numeral(ts[k as int]));
        all_numerals = all_numerals && numeral;
        k = k + 1;
    }
    if all_numerals {
        return LineOutcome::Header;
    }
    let last = fs[fs.len() - 1];
    assert(text(cs@, last) == ts.last());
    let op = match read_operator(cs, last.0, last.1) {
        None => {
            return LineOutcome::Bad(last.0, last.1);
        },
        Some(op) => op,
    };
    let arity: usize = if op == GateKind::Inv { 1 } else { 2 };
    if fs.len() != arity + 4 {
        return LineOutcome::Bad(start, end);
    }
    let ghost nums = ts.drop_last();
    let mut vals: Vec<u64> = Vec::new();
    k = 0;
    while k < fs.len() - 1
        invariant
            k <= fs.len() - 1,
            fs@.len() == ts.len(),
            fs@.len() == arity + 4,
            nums == ts.drop_last(),
            forall|j: int|
                0 <= j < fs@.len() ==> start <= (#[trigger] fs@[j]).0 <= fs@[j].1 <= end && text(cs@, fs@[j])
                    == ts[j],
            end <= cs.len(),
            vals@.len() == k,
            forall|j: int| 0 <= j < k ==> parse_u64(#[trigger] nums[j]) == Some(vals@[j]),
            l == cs@.subrange(start as int, end as int),
            ts == fields(l),
            !(forall|i: int| 0 <= i < ts.len() ==> is_numeral(#[trigger] ts[i])),
            operator(ts.last()) == Some(op),
            arity == (if op == GateKind::Inv { 1usize } else { 2usize }),
        decreases fs.len() - 1 - k,
    {
        assert(text(cs@, fs@[k as int]) == nums[k as int]);
        match read_u64(cs, fs[k].0, fs[k].1) {
            None => {
                proof {
                    assert(!all_numbers(nums));
                    let c = first_non_number(nums);
                    assert(0 <= c < nums.len() && parse_u64(nums[c]) is None && forall|j: int|
                        0 <= j < c ==> (#[trigger] parse_u64(nums[j])) is Some);
                    if c < k {
                        assert(parse_u64(nums[c]) is Some);
                    }
                    if c > k {
                        assert(parse_u64(nums[k as int]) is Some);
                    }
                    assert(c == k);
                    assert(nums[k as int] == ts[k as int]);
                    assert(!(forall|i: int| 0 <= i < ts.len() ==> is_numeral(#[trigger] ts[i])));
                }
                return LineOutcome::Bad(fs[k].0, fs[k].1);
            },
            Some(v) => {
                vals.push(v);
            },
        }
        k = k + 1;
    }
    assert(all_numbers(nums));
    assert forall|j: int| 0 <= j < nums.len() implies number_at(nums, j) == vals@[j] by {
        assert(parse_u64(nums[j]) == Some(vals@[j]));
    }
    let out = vals[arity + 2];
    let a = vals[2];
    let b = vals[3];
    if vals[0] != arity as u64 || vals[1] != 1 {
        LineOutcome::Bad(start, end)
    } else if op == GateKind::Inv {
        if a == out {
            LineOutcome::Bad(start, end)
        } else {
            LineOutcome::Record(out, Gate::Inv(a))
        }
    } else if a == out || b == out {
        LineOutcome::Bad(start, end)
    } else if op == GateKind::And {
        LineOutcome::Record(out, Gate::And(a, b))
    } else if op == GateKind::Nand {
        LineOutcome::Record(out, Gate::Nand(a, b))
    } else {
        LineOutcome::Record(out, Gate::Xor(a, b))
    }
}

/// Reads one record of a two-input gate (`AND`, `NAND` or `XOR`): its
/// identifier and its two input wires.
pub fn parse_2_inputs_1_output(record: &str) -> (r: Option<(u64, u64, u64)>)
    ensures
        r == match parse_line(record@) {
            LineParse::Record(id, Gate::And(a, b)) => Some((id, a, b)),
            LineParse::Record(id, Gate::Nand(a, b)) => Some((id, a, b)),
            LineParse::Record(id, Gate::Xor(a, b)) => Some((id, a, b)),
            _ => None,
        },
{
    let cs = chars_of(record);
    assert(cs@.subrange(0, cs@.len() as int) =~= record@);
    match read_line(&cs, 0, cs.len()) {
        LineOutcome::Record(id, Gate::And(a, b)) => Some((id, a, b)),
        LineOutcome::Record(id, Gate::Nand(a, b)) => Some((id, a, b)),
        LineOutcome::Record(id, Gate::Xor(a, b)) => Some((id, a, b)),
        _ => None,
    }
}

/// Reads one record of an inverter: its identifier and its input wire.
pub fn parse_1_input_1_output(record: &str) -> (r: Option<(u64, u64)>)
    ensures
        r == match parse_line(record@) {
            LineParse::Record(id, Gate::Inv(a)) => Some((id, a)),
            _ => None,
        },
{
    let cs = chars_of(record);
    assert(cs@.subrange(0, cs@.len() as int) =~= record@);
    match read_line(&cs, 0, cs.len()) {
        LineOutcome::Record(id, Gate::Inv(a)) => Some((id, a)),
        _ => None,
    }
}

/// Builds a circuit from a gate-list description, one record per line (see
/// `parse_line`), inserting the gates in the order of their lines.
pub fn read_circuit(circuit_source: &str) -> (r: Result<Circuit, BitvmError>)
    ensures
        match parse_description(circuit_source@) {
            Ok(rs) => r matches Ok(c) && c.wf() && c.id() == 0 && c.gate_map() == gates_of(rs),
            Err((line, t)) => r matches Err(BitvmError::MalformedDescription { line: n, text })
                && n == line && text@ == t,
        },
{
    let cs = chars_of(circuit_source);
    let mut circuit = Circuit::new();
    let mut pos: usize = 0;
    let mut line_no: usize = 1;
    let mut records_seen = false;
    let ghost mut acc: Seq<(u64, Gate)> = Seq::empty();
    assert(cs@.skip(0) =~= cs@);
    loop
        invariant
            pos <= cs.len(),
            cs@ == circuit_source@,
            1 <= line_no <= pos + 1,
            parse_description(cs@) == parse_lines(cs@.skip(pos as int), line_no as nat, acc),
            circuit.wf(),
            circuit.id() == 0,
            circuit.gate_map() == gates_of(acc),
            records_seen == (acc.len() > 0),
        decreases cs.len() - pos,
    {
        let ghost rest = cs@.skip(pos as int);
        let mut end: usize = pos;
        while end < cs.len() && cs[end] != '\n'
            invariant
                pos <= end <= cs.len(),
                forall|k: int| pos <= k < end ==> cs@[k] != '\n',
            decreases cs.len() - end,
        {
            end = end + 1;
        }
        proof {
            lemma_line_len_exact(rest, end - pos);
            assert(rest.take(end - pos) =~= cs@.subrange(pos as int, end as int));
        }
        match read_line(&cs, pos, end) {
            LineOutcome::Bad(a, b) => {
                let t = circuit_source.substring_char(a, b).to_owned();
                return Err(BitvmError::MalformedDescription { line: line_no, text: t });
            },
            LineOutcome::Skip => {},
            LineOutcome::Header => {
                if records_seen {
                    let t = circuit_source.substring_char(pos, end).to_owned();
                    return Err(BitvmError::MalformedDescription { line: line_no, text: t });
                }
            },
            LineOutcome::Record(id, g) => {
                proof {
                    lemma_gates_of_dom(acc, id);
                }
                if circuit.gate(id).is_some() {
                    let t = circuit_source.substring_char(pos, end).to_owned();
                    return Err(BitvmError::MalformedDescription { line: line_no, text: t });
                }
                circuit.insert_gate(id, g);
                records_seen = true;
                proof {
                    let ghost prev = acc;
                    acc = acc.push((id, g));
                    assert(acc.drop_last() == prev);
                }
            },
        }
        if end >= cs.len() {
            return Ok(circuit);
        }
        if end + 1 == cs.len() {
            proof {
                let empty = cs@.skip(end + 1);
                assert(empty.len() == 0);
                assert(empty.take(0) =~= empty);
                assert(fields(empty) =~= Seq::<Seq<char>>::empty());
                assert(line_len(empty) == 0);
                assert(parse_line(empty.take(0)) == LineParse::Skip);
                assert(parse_lines(empty, (line_no + 1) as nat, acc) == Ok::<Seq<(u64, Gate)>, (nat, Seq<char>)>(acc));
                assert(rest.skip(end - pos + 1) =~= empty);
            }
            return Ok(circuit);
        }
        assert(rest.skip(end - pos + 1) =~= cs@.skip(end + 1));
        pos = end + 1;
        line_no = line_no + 1;
    }
}

/// A circuit in one of the serialized forms the library reads.
pub enum SerializedCircuit<'a> {
    Bristol(&'a str),
}

/// Reads a serialized circuit.
pub fn read_and_check_circuit(serialized_circuit: &SerializedCircuit) -> (r: Result<Circuit, BitvmError>)
    ensures
        match *serialized_circuit {
            SerializedCircuit::Bristol(src) => match parse_description(src@) {
                Ok(rs) => r matches Ok(c) && c.wf() && c.id() == 0 && c.gate_map() == gates_of(rs),
                Err((line, t)) => r matches Err(BitvmError::MalformedDescription { line: n, text })
                    && n == line && text@ == t,
            },
        },
{
    match serialized_circuit {
        SerializedCircuit::Bristol(src) => read_circuit(src),
    }
}

} // verus!
