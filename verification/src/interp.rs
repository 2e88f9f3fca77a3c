//! The interpreter: executes flattened functions directly against borrowed
//! views — a program counter, a name-to-value environment, and control flow
//! resolved by scanning for label markers. Names stay byte runs addressed
//! by spans; nothing is copied out of the view except the values computed.
use vstd::prelude::*;

use vstd::bytes::{
    lemma_auto_spec_u32_to_from_le_bytes, lemma_auto_spec_u64_to_from_le_bytes,
    spec_u32_from_le_bytes, spec_u64_from_le_bytes, u32_from_le_bytes, u64_from_le_bytes,
};
use vstd::slice::slice_subrange;

use crate::memfile::{
    flat_of_item, instr_bytes, instrs_bytes, pair_bytes, pairs_bytes, type_of_tag, type_tag,
    value_of_tag, value_payload, value_tag, InstrView, FUNCARG_SIZE, INSTR_SIZE, PAIR_SIZE,
};
use crate::model::{span_bytes, span_ok};
use crate::types::{
    op_of_index, BrilValue, FlatError, FlatInstr, I32Pair, InstrOrLabel, Opcode, Type,
    LABEL_SENTINEL, NUM_OPCODES,
};

verus! {

/// The index pair stored at entry `i` of a serialized span table.
pub open spec fn pair_at(d: Seq<u8>, i: int) -> I32Pair {
    I32Pair {
        first: spec_u32_from_le_bytes(d.subrange(PAIR_SIZE * i, PAIR_SIZE * i + 4)),
        second: spec_u32_from_le_bytes(d.subrange(PAIR_SIZE * i + 4, PAIR_SIZE * i + 8)),
    }
}

/// The fixed-width record stored at entry `i` of a serialized record
/// buffer. An invalid type or value tag decodes to the absent marker; the
/// interpreter then treats the field as missing.
pub open spec fn record_at(d: Seq<u8>, i: int) -> FlatInstr {
    let o = INSTR_SIZE * i;
    FlatInstr {
        op: spec_u32_from_le_bytes(d.subrange(o, o + 4)),
        dest: I32Pair {
            first: spec_u32_from_le_bytes(d.subrange(o + 4, o + 8)),
            second: spec_u32_from_le_bytes(d.subrange(o + 8, o + 12)),
        },
        args: I32Pair {
            first: spec_u32_from_le_bytes(d.subrange(o + 12, o + 16)),
            second: spec_u32_from_le_bytes(d.subrange(o + 16, o + 20)),
        },
        labels: I32Pair {
            first: spec_u32_from_le_bytes(d.subrange(o + 20, o + 24)),
            second: spec_u32_from_le_bytes(d.subrange(o + 24, o + 28)),
        },
        funcs: I32Pair {
            first: spec_u32_from_le_bytes(d.subrange(o + 28, o + 32)),
            second: spec_u32_from_le_bytes(d.subrange(o + 32, o + 36)),
        },
        ty: match type_of_tag(spec_u32_from_le_bytes(d.subrange(o + 36, o + 40))) {
            Some(t) => t,
            None => Type::Null,
        },
        value: match value_of_tag(
            spec_u32_from_le_bytes(d.subrange(o + 40, o + 44)),
            spec_u64_from_le_bytes(d.subrange(o + 44, o + 52)),
        ) {
            Some(v) => v,
            None => BrilValue::Null,
        },
    }
}

/// Reading entry `i` back out of a serialized span table yields the entry
/// that was written.
pub proof fn lemma_pair_at_round_trip(t: Seq<I32Pair>, i: int)
    requires
        0 <= i < t.len(),
    ensures
        pair_at(pairs_bytes(t), i) == t[i],
    decreases i,
{
    lemma_auto_spec_u32_to_from_le_bytes();
    crate::memfile::lemma_pairs_bytes_len(t);
    crate::memfile::lemma_pairs_bytes_len(t.drop_first());
    let d = pairs_bytes(t);
    if i == 0 {
        assert(d.subrange(0, 4) =~= vstd::bytes::spec_u32_to_le_bytes(t[0].first));
        assert(d.subrange(4, 8) =~= vstd::bytes::spec_u32_to_le_bytes(t[0].second));
    } else {
        lemma_pair_at_round_trip(t.drop_first(), i - 1);
        let rest = pairs_bytes(t.drop_first());
        assert(t.drop_first()[i - 1] == t[i]);
        assert(d.subrange(PAIR_SIZE * i, PAIR_SIZE * i + 4) =~= rest.subrange(
            PAIR_SIZE * (i - 1),
            PAIR_SIZE * (i - 1) + 4,
        ));
        assert(d.subrange(PAIR_SIZE * i + 4, PAIR_SIZE * i + 8) =~= rest.subrange(
            PAIR_SIZE * (i - 1) + 4,
            PAIR_SIZE * (i - 1) + 8,
        ));
    }
}

/// Reading record `i` back out of a serialized record buffer yields the
/// lowered form of the item that was written.
pub proof fn lemma_record_at_round_trip(t: Seq<InstrOrLabel>, i: int)
    requires
        0 <= i < t.len(),
    ensures
        record_at(instrs_bytes(t), i) == flat_of_item(t[i]),
    decreases i,
{
    lemma_auto_spec_u32_to_from_le_bytes();
    lemma_auto_spec_u64_to_from_le_bytes();
    crate::memfile::lemma_instrs_bytes_len(t);
    crate::memfile::lemma_instrs_bytes_len(t.drop_first());
    crate::memfile::lemma_value_round_trip(flat_of_item(t[i]).value);
    let d = instrs_bytes(t);
    let fi = flat_of_item(t[i]);
    if i == 0 {
        let b = instr_bytes(fi);
        assert(d.subrange(0, 4) =~= b.subrange(0, 4));
        assert forall|a: int, c: int| 0 <= a <= c <= INSTR_SIZE implies d.subrange(a, c)
            == b.subrange(a, c) by {
            assert(d.subrange(a, c) =~= b.subrange(a, c));
        }
        assert(b.subrange(0, 4) =~= vstd::bytes::spec_u32_to_le_bytes(fi.op));
        assert(b.subrange(4, 8) =~= vstd::bytes::spec_u32_to_le_bytes(fi.dest.first));
        assert(b.subrange(8, 12) =~= vstd::bytes::spec_u32_to_le_bytes(fi.dest.second));
        assert(b.subrange(12, 16) =~= vstd::bytes::spec_u32_to_le_bytes(fi.args.first));
        assert(b.subrange(16, 20) =~= vstd::bytes::spec_u32_to_le_bytes(fi.args.second));
        assert(b.subrange(20, 24) =~= vstd::bytes::spec_u32_to_le_bytes(fi.labels.first));
        assert(b.subrange(24, 28) =~= vstd::bytes::spec_u32_to_le_bytes(fi.labels.second));
        assert(b.subrange(28, 32) =~= vstd::bytes::spec_u32_to_le_bytes(fi.funcs.first));
        assert(b.subrange(32, 36) =~= vstd::bytes::spec_u32_to_le_bytes(fi.funcs.second));
        assert(b.subrange(36, 40) =~= vstd::bytes::spec_u32_to_le_bytes(type_tag(fi.ty)));
        assert(b.subrange(40, 44) =~= vstd::bytes::spec_u32_to_le_bytes(value_tag(fi.value)));
        assert(b.subrange(44, 52) =~= vstd::bytes::spec_u64_to_le_bytes(value_payload(fi.value)));
    } else {
        lemma_record_at_round_trip(t.drop_first(), i - 1);
        let rest = instrs_bytes(t.drop_first());
        assert(t.drop_first()[i - 1] == t[i]);
        assert forall|a: int, c: int|
            0 <= a <= c <= INSTR_SIZE * (t.len() - 1) implies d.subrange(
            INSTR_SIZE + a,
            INSTR_SIZE + c,
        ) == rest.subrange(a, c) by {
            assert(d.subrange(INSTR_SIZE + a, INSTR_SIZE + c) =~= rest.subrange(a, c));
        }
    }
}

/// Reads the index pair at entry `i` of a span-table slice.
pub fn read_pair_at(d: &[u8], i: usize) -> (p: I32Pair)
    requires
        PAIR_SIZE * i + PAIR_SIZE <= d@.len(),
    ensures
        p == pair_at(d@, i as int),
{
    let n = d.len();
    let o = PAIR_SIZE * i;
    let first = u32_from_le_bytes(slice_subrange(d, o, o + 4));
    let second = u32_from_le_bytes(slice_subrange(d, o + 4, o + 8));
    I32Pair { first, second }
}

/// Reads the fixed-width record at entry `i` of a record-buffer slice.
pub fn read_record_at(d: &[u8], i: usize) -> (fi: FlatInstr)
    requires
        INSTR_SIZE * i + INSTR_SIZE <= d@.len(),
    ensures
        fi == record_at(d@, i as int),
{
    let n = d.len();
    let o = INSTR_SIZE * i;
    let op = u32_from_le_bytes(slice_subrange(d, o, o + 4));
    let dest = I32Pair {
        first: u32_from_le_bytes(slice_subrange(d, o + 4, o + 8)),
        second: u32_from_le_bytes(slice_subrange(d, o + 8, o + 12)),
    };
    let args = I32Pair {
        first: u32_from_le_bytes(slice_subrange(d, o + 12, o + 16)),
        second: u32_from_le_bytes(slice_subrange(d, o + 16, o + 20)),
    };
    let labels = I32Pair {
        first: u32_from_le_bytes(slice_subrange(d, o + 20, o + 24)),
        second: u32_from_le_bytes(slice_subrange(d, o + 24, o + 28)),
    };
    let funcs = I32Pair {
        first: u32_from_le_bytes(slice_subrange(d, o + 28, o + 32)),
        second: u32_from_le_bytes(slice_subrange(d, o + 32, o + 36)),
    };
    let ty_tag_v = u32_from_le_bytes(slice_subrange(d, o + 36, o + 40));
    let ty = if ty_tag_v == 0 {
        Type::Int
    } else if ty_tag_v == 1 {
        Type::Bool
    } else {
        Type::Null
    };
    let vtag = u32_from_le_bytes(slice_subrange(d, o + 40, o + 44));
    let payload = u64_from_le_bytes(slice_subrange(d, o + 44, o + 52));
    let value = if vtag == 0 {
        BrilValue::IntVal(#[verifier::truncate] (payload as i64))
    } else if vtag == 1 && payload == 0 {
        BrilValue::BoolVal(false)
    } else if vtag == 1 && payload == 1 {
        BrilValue::BoolVal(true)
    } else {
        BrilValue::Null
    };
    FlatInstr { op, dest, args, labels, funcs, ty, value }
}

/// Number of fixed-width records in a view's instruction buffer.
pub fn instr_count(instr_view: &InstrView) -> (n: usize)
    ensures
        n == instr_view.instrs@.len() as int / (INSTR_SIZE as int),
{
    instr_view.instrs.len() / INSTR_SIZE
}

/// Extracts the variable name (its bytes) occupying `start_idx` to
/// `end_idx` (inclusive) in the view's variable-name buffer.
pub fn get_var<'a>(instr_view: &InstrView<'a>, start_idx: u32, end_idx: u32) -> (r: &'a [u8])
    requires
        start_idx <= end_idx,
        (end_idx as int) < instr_view.var_store@.len(),
    ensures
        r@ == span_bytes(
            instr_view.var_store@,
            (I32Pair { first: start_idx, second: end_idx }),
        ),
{
    let n = instr_view.var_store.len();
    slice_subrange(instr_view.var_store, start_idx as usize, end_idx as usize + 1)
}

/// Extracts the label name (its bytes) occupying `start_idx` to `end_idx`
/// (inclusive) in the view's label-name buffer.
pub fn get_label_name<'a>(instr_view: &InstrView<'a>, start_idx: u32, end_idx: u32) -> (r: &'a [
    u8])
    requires
        start_idx <= end_idx,
        (end_idx as int) < instr_view.labels_store@.len(),
    ensures
        r@ == span_bytes(
            instr_view.labels_store@,
            (I32Pair { first: start_idx, second: end_idx }),
        ),
{
    let n = instr_view.labels_store.len();
    slice_subrange(instr_view.labels_store, start_idx as usize, end_idx as usize + 1)
}

/// The names addressed by the argument span-table entries `lo ..= hi`, as
/// one sequence of byte runs.
pub open spec fn arg_names(v: InstrView, lo: int, hi: int) -> Seq<Seq<u8>> {
    Seq::new((hi - lo + 1) as nat, |k: int| span_bytes(v.var_store@, pair_at(v.arg_idxes_store@, lo + k)))
}

/// The names addressed by the label span-table entries `lo ..= hi`.
pub open spec fn label_names(v: InstrView, lo: int, hi: int) -> Seq<Seq<u8>> {
    Seq::new(
        (hi - lo + 1) as nat,
        |k: int| span_bytes(v.labels_store@, pair_at(v.labels_idxes_store@, lo + k)),
    )
}

/// Extracts the argument names addressed by the span-table entries
/// `args_start ..= args_end`.
#[verifier::loop_isolation(false)]
pub fn get_args<'a>(instr_view: &InstrView<'a>, args_start: u32, args_end: u32) -> (r: Vec<
    &'a [u8],
>)
    requires
        args_start <= args_end,
        PAIR_SIZE * (args_end as int) + PAIR_SIZE <= instr_view.arg_idxes_store@.len(),
        forall|k: int|
            args_start <= k <= args_end ==> span_ok(
                #[trigger] pair_at(instr_view.arg_idxes_store@, k),
                instr_view.var_store@.len() as int,
            ),
    ensures
        r@.len() == args_end - args_start + 1,
        forall|k: int|
            0 <= k < r@.len() ==> (#[trigger] r@[k])@ == arg_names(
                *instr_view,
                args_start as int,
                args_end as int,
            )[k],
{
    let tn = instr_view.arg_idxes_store.len();
    let mut r: Vec<&'a [u8]> = Vec::new();
    let mut j: usize = args_start as usize;
    let end: usize = args_end as usize;
    while j <= end
        invariant
            args_start <= j <= end + 1,
            r@.len() == j - args_start,
            forall|k: int|
                0 <= k < r@.len() ==> (#[trigger] r@[k])@ == span_bytes(
                    instr_view.var_store@,
                    pair_at(instr_view.arg_idxes_store@, args_start + k),
                ),
        decreases end + 1 - j,
    {
        let p = read_pair_at(instr_view.arg_idxes_store, j);
        let name = get_var(instr_view, p.first, p.second);
        r.push(name);
        j += 1;
    }
    r
}

/// Extracts the label names addressed by the span-table entries
/// `labels_start ..= labels_end`.
#[verifier::loop_isolation(false)]
pub fn get_labels_vec<'a>(instr_view: &InstrView<'a>, labels_start: u32, labels_end: u32) -> (r:
    Vec<&'a [u8]>)
    requires
        labels_start <= labels_end,
        PAIR_SIZE * (labels_end as int) + PAIR_SIZE <= instr_view.labels_idxes_store@.len(),
        forall|k: int|
            labels_start <= k <= labels_end ==> span_ok(
                #[trigger] pair_at(instr_view.labels_idxes_store@, k),
                instr_view.labels_store@.len() as int,
            ),
    ensures
        r@.len() == labels_end - labels_start + 1,
        forall|k: int|
            0 <= k < r@.len() ==> (#[trigger] r@[k])@ == label_names(
                *instr_view,
                labels_start as int,
                labels_end as int,
            )[k],
{
    let tn = instr_view.labels_idxes_store.len();
    let mut r: Vec<&'a [u8]> = Vec::new();
    let mut j: usize = labels_start as usize;
    let end: usize = labels_end as usize;
    while j <= end
        invariant
            labels_start <= j <= end + 1,
            r@.len() == j - labels_start,
            forall|k: int|
                0 <= k < r@.len() ==> (#[trigger] r@[k])@ == span_bytes(
                    instr_view.labels_store@,
                    pair_at(instr_view.labels_idxes_store@, labels_start + k),
                ),
        decreases end + 1 - j,
    {
        let p = read_pair_at(instr_view.labels_idxes_store, j);
        let name = get_label_name(instr_view, p.first, p.second);
        r.push(name);
        j += 1;
    }
    r
}

/// Byte-run equality.
pub fn bytes_eq(a: &[u8], b: &[u8]) -> (r: bool)
    ensures
        r == (a@ == b@),
{
    if a.len() != b.len() {
        return false;
    }
    let n = a.len();
    let mut j: usize = 0;
    while j < n
        invariant
            j <= n,
            n == a@.len(),
            n == b@.len(),
            forall|k: int| 0 <= k < j ==> a@[k] == b@[k],
        decreases n - j,
    {
        if a[j] != b[j] {
            return false;
        }
        j += 1;
    }
    proof {
        assert(a@ =~= b@);
    }
    true
}

/// The map an association list denotes: later entries shadow earlier ones.
pub open spec fn env_map(entries: Seq<(Vec<u8>, BrilValue)>) -> Map<Seq<u8>, BrilValue>
    decreases entries.len(),
{
    if entries.len() == 0 {
        Map::empty()
    } else {
        env_map(entries.drop_last()).insert(entries.last().0@, entries.last().1)
    }
}

/// Looking a name up in the denoted map is scanning the list from its end.
pub proof fn lemma_env_map_lookup(entries: Seq<(Vec<u8>, BrilValue)>, n: Seq<u8>)
    ensures
        env_map(entries).contains_key(n) <==> (exists|k: int|
            0 <= k < entries.len() && (#[trigger] entries[k]).0@ == n),
    decreases entries.len(),
{
    if entries.len() > 0 {
        lemma_env_map_lookup(entries.drop_last(), n);
        if env_map(entries).contains_key(n) {
            if entries.last().0@ == n {
                assert(entries[entries.len() - 1].0@ == n);
            } else {
                let k = choose|k: int|
                    0 <= k < entries.drop_last().len() && (#[trigger] entries.drop_last()[k]).0@
                        == n;
                assert(entries[k].0@ == n);
            }
        }
        if exists|k: int| 0 <= k < entries.len() && (#[trigger] entries[k]).0@ == n {
            let k = choose|k: int| 0 <= k < entries.len() && (#[trigger] entries[k]).0@ == n;
            if k < entries.len() - 1 {
                assert(entries.drop_last()[k].0@ == n);
            }
        }
    }
}

/// A name-to-value environment, scoped to one activation. An association
/// list whose denotation is a map; binding a name appends, and lookups see
/// the newest binding.
pub struct Environment {
    pub entries: Vec<(Vec<u8>, BrilValue)>,
}

impl View for Environment {
    type V = Map<Seq<u8>, BrilValue>;

    open spec fn view(&self) -> Map<Seq<u8>, BrilValue> {
        env_map(self.entries@)
    }
}

impl Environment {
    /// The empty environment.
    pub fn new() -> (r: Environment)
        ensures
            r@ == Map::<Seq<u8>, BrilValue>::empty(),
    {
        Environment { entries: Vec::new() }
    }

    /// Looks a name up; the newest binding wins.
    #[verifier::loop_isolation(false)]
    pub fn get(&self, name: &[u8]) -> (r: Option<BrilValue>)
        ensures
            r == (if self@.contains_key(name@) {
                Some(self@[name@])
            } else {
                None::<BrilValue>
            }),
    {
        let mut j: usize = self.entries.len();
        while j > 0
            invariant
                j <= self.entries@.len(),
                forall|k: int| j <= k < self.entries@.len() ==> (#[trigger] self.entries@[k]).0@
                    != name@,
            decreases j,
        {
            j = j - 1;
            if bytes_eq(self.entries[j].0.as_slice(), name) {
                proof {
                    lemma_env_lookup_found(self.entries@, name@, j as int);
                }
                return Some(self.entries[j].1);
            }
        }
        proof {
            lemma_env_map_lookup(self.entries@, name@);
        }
        None
    }

    /// Binds a name to a value; an existing binding is shadowed.
    pub fn set(&mut self, name: &[u8], v: BrilValue)
        ensures
            final(self)@ == old(self)@.insert(name@, v),
    {
        let owned = vstd::slice::slice_to_vec(name);
        self.entries.push((owned, v));
        proof {
            assert(self.entries@.drop_last() =~= old(self).entries@);
        }
    }
}

/// When every entry above `j` misses and entry `j` hits, the denoted map
/// holds entry `j`'s value at that name.
pub proof fn lemma_env_lookup_found(entries: Seq<(Vec<u8>, BrilValue)>, n: Seq<u8>, j: int)
    requires
        0 <= j < entries.len(),
        entries[j].0@ == n,
        forall|k: int| j < k < entries.len() ==> (#[trigger] entries[k]).0@ != n,
    ensures
        env_map(entries).contains_key(n),
        env_map(entries)[n] == entries[j].1,
    decreases entries.len(),
{
    if j == entries.len() - 1 {
    } else {
        assert(forall|k: int|
            j < k < entries.drop_last().len() ==> (#[trigger] entries.drop_last()[k]).0@ != n);
        assert(entries.drop_last()[j] == entries[j]);
        lemma_env_lookup_found(entries.drop_last(), n, j);
        assert(entries.last().0@ != n);
    }
}

/// The decimal digits of a nonnegative number, most significant first.
pub open spec fn dec_digits(n: nat) -> Seq<u8>
    decreases n,
{
    if n < 10 {
        seq![(48 + n) as u8]
    } else {
        dec_digits(n / 10).push((48 + n % 10) as u8)
    }
}

/// The canonical text of a value: `true`/`false` for booleans, signed
/// decimal for integers, `null` for the absent value (which a run never
/// prints).
pub open spec fn canonical_text(v: BrilValue) -> Seq<u8> {
    match v {
        BrilValue::IntVal(n) => if n < 0 {
            seq![45u8] + dec_digits((-(n as int)) as nat)
        } else {
            dec_digits(n as nat)
        },
        BrilValue::BoolVal(b) => if b {
            seq![116u8, 114u8, 117u8, 101u8]
        } else {
            seq![102u8, 97u8, 108u8, 115u8, 101u8]
        },
        BrilValue::Null => seq![110u8, 117u8, 108u8, 108u8],
    }
}

/// The decimal digits of a 64-bit number.
#[verifier::loop_isolation(false)]
fn u64_dec_digits(n: u64) -> (r: Vec<u8>)
    ensures
        r@ == dec_digits(n as nat),
{
    let mut rev: Vec<u8> = Vec::new();
    let mut cur: u64 = n;
    while cur >= 10
        invariant
            dec_digits(n as nat) == dec_digits(cur as nat) + rev@.reverse(),
        decreases cur,
    {
        let d: u8 = (48 + (cur % 10)) as u8;
        let ghost rev_old = rev@;
        rev.push(d);
        cur = cur / 10;
        proof {
            assert(rev@.reverse() =~= seq![d] + rev_old.reverse());
            assert(dec_digits(n as nat) =~= dec_digits(cur as nat) + rev@.reverse());
        }
    }
    let mut r: Vec<u8> = Vec::new();
    r.push((48 + cur) as u8);
    let mut j: usize = rev.len();
    while j > 0
        invariant
            j <= rev@.len(),
            r@ == seq![(48 + cur) as u8] + rev@.subrange(j as int, rev@.len() as int).reverse(),
        decreases j,
    {
        j = j - 1;
        r.push(rev[j]);
        proof {
            assert(rev@.subrange(j as int, rev@.len() as int).reverse() =~= rev@.subrange(
                j + 1 as int,
                rev@.len() as int,
            ).reverse().push(rev@[j as int]));
        }
    }
    proof {
        assert(rev@.subrange(0, rev@.len() as int) =~= rev@);
        assert(r@ =~= dec_digits(n as nat));
    }
    r
}

/// Renders a value in its canonical text form.
pub fn value_to_text(v: &BrilValue) -> (r: Vec<u8>)
    ensures
        r@ == canonical_text(*v),
{
    match v {
        BrilValue::IntVal(n) => {
            if *n >= 0 {
                u64_dec_digits(*n as u64)
            } else {
                let mag: u64 = ((-(*n + 1)) as u64) + 1;
                let digits = u64_dec_digits(mag);
                let mut r: Vec<u8> = Vec::new();
                r.push(45u8);
                write_digits(&mut r, &digits);
                proof {
                    assert(r@ =~= canonical_text(*v));
                }
                r
            }
        },
        BrilValue::BoolVal(b) => {
            let mut r: Vec<u8> = Vec::new();
            if *b {
                r.push(116u8);
                r.push(114u8);
                r.push(117u8);
                r.push(101u8);
            } else {
                r.push(102u8);
                r.push(97u8);
                r.push(108u8);
                r.push(115u8);
                r.push(101u8);
            }
            proof {
                assert(r@ =~= canonical_text(*v));
            }
            r
        },
        BrilValue::Null => {
            let mut r: Vec<u8> = Vec::new();
            r.push(110u8);
            r.push(117u8);
            r.push(108u8);
            r.push(108u8);
            proof {
                assert(r@ =~= canonical_text(*v));
            }
            r
        },
    }
}

/// Appends all digits to the output.
fn write_digits(r: &mut Vec<u8>, digits: &Vec<u8>)
    ensures
        final(r)@ == old(r)@ + digits@,
{
    let mut j: usize = 0;
    while j < digits.len()
        invariant
            j <= digits@.len(),
            r@ == old(r)@ + digits@.take(j as int),
        decreases digits@.len() - j,
    {
        r.push(digits[j]);
        proof {
            assert(digits@.take(j + 1 as int) =~= digits@.take(j as int).push(
                digits@[j as int],
            ));
        }
        j += 1;
    }
    proof {
        assert(digits@.take(digits@.len() as int) =~= digits@);
    }
}

/// The result of a unary value operation: `not` negates a boolean and
/// rejects anything else; `id` passes any value through.
pub open spec fn unop_result(op: Opcode, v: BrilValue) -> Result<BrilValue, FlatError> {
    if op == Opcode::Not {
        match v {
            BrilValue::BoolVal(b) => Ok(BrilValue::BoolVal(!b)),
            _ => Err(FlatError::TypeMismatch),
        }
    } else {
        Ok(v)
    }
}

/// The result of a binary value operation. Arithmetic is two's-complement
/// wraparound and never fails on overflow; comparisons yield booleans;
/// logic needs booleans. A division by zero is reported as a
/// `TypeMismatch`: zero is not a value the divisor position admits.
pub open spec fn binop_result(op: Opcode, x: BrilValue, y: BrilValue) -> Result<
    BrilValue,
    FlatError,
> {
    match (x, y) {
        (BrilValue::IntVal(a), BrilValue::IntVal(b)) => match op {
            Opcode::Add => Ok(BrilValue::IntVal(vstd::wrapping::i64_specs::wrapping_add(a, b))),
            Opcode::Sub => Ok(BrilValue::IntVal(vstd::wrapping::i64_specs::wrapping_sub(a, b))),
            Opcode::Mul => Ok(BrilValue::IntVal(vstd::wrapping::i64_specs::wrapping_mul(a, b))),
            Opcode::Div => if b == 0 {
                Err(FlatError::TypeMismatch)
            } else {
                match a.checked_div(b) {
                    Some(q) => Ok(BrilValue::IntVal(q)),
                    // only `i64::MIN / -1` overflows; it wraps to itself
                    None => Ok(BrilValue::IntVal(i64::MIN)),
                }
            },
            Opcode::Eq => Ok(BrilValue::BoolVal(a == b)),
            Opcode::Lt => Ok(BrilValue::BoolVal(a < b)),
            Opcode::Gt => Ok(BrilValue::BoolVal(a > b)),
            Opcode::Le => Ok(BrilValue::BoolVal(a <= b)),
            Opcode::Ge => Ok(BrilValue::BoolVal(a >= b)),
            _ => Err(FlatError::TypeMismatch),
        },
        (BrilValue::BoolVal(a), BrilValue::BoolVal(b)) => match op {
            Opcode::And => Ok(BrilValue::BoolVal(a && b)),
            Opcode::Or => Ok(BrilValue::BoolVal(a || b)),
            _ => Err(FlatError::TypeMismatch),
        },
        _ => Err(FlatError::TypeMismatch),
    }
}

/// Computes a binary value operation on two concrete values.
pub fn eval_binop(op: Opcode, x: BrilValue, y: BrilValue) -> (r: Result<BrilValue, FlatError>)
    requires
        op.spec_is_binop(),
    ensures
        r == binop_result(op, x, y),
{
    match (x, y) {
        (BrilValue::IntVal(a), BrilValue::IntVal(b)) => match op {
            Opcode::Add => Ok(BrilValue::IntVal(a.wrapping_add(b))),
            Opcode::Sub => Ok(BrilValue::IntVal(a.wrapping_sub(b))),
            Opcode::Mul => Ok(BrilValue::IntVal(a.wrapping_mul(b))),
            Opcode::Div => {
                if b == 0 {
                    Err(FlatError::TypeMismatch)
                } else {
                    match a.checked_div(b) {
                        Some(q) => Ok(BrilValue::IntVal(q)),
                        None => Ok(BrilValue::IntVal(i64::MIN)),
                    }
                }
            },
            Opcode::Eq => Ok(BrilValue::BoolVal(a == b)),
            Opcode::Lt => Ok(BrilValue::BoolVal(a < b)),
            Opcode::Gt => Ok(BrilValue::BoolVal(a > b)),
            Opcode::Le => Ok(BrilValue::BoolVal(a <= b)),
            Opcode::Ge => Ok(BrilValue::BoolVal(a >= b)),
            _ => Err(FlatError::TypeMismatch),
        },
        (BrilValue::BoolVal(a), BrilValue::BoolVal(b)) => match op {
            Opcode::And => Ok(BrilValue::BoolVal(a && b)),
            Opcode::Or => Ok(BrilValue::BoolVal(a || b)),
            _ => Err(FlatError::TypeMismatch),
        },
        _ => Err(FlatError::TypeMismatch),
    }
}

/// A view reconstructed from a well-formed store's serialized block reads
/// back the store exactly: the name buffers byte for byte, and every span
/// table entry and fixed-width record as it was written. Together with the
/// persistence round trip, this ties what the interpreter executes to what
/// the encoder produced.
pub proof fn lemma_view_reads_store(s: crate::types::InstrStore, v: InstrView)
    requires
        crate::model::store_wf(s),
        crate::memfile::store_fits_block(s),
        Some(crate::memfile::view_parts_of(v)) == crate::memfile::parse_block(
            crate::memfile::block_bytes(s),
        ),
    ensures
        v.func_name@ == s.func_name@,
        v.var_store@ == s.var_store@,
        v.labels_store@ == s.labels_store@,
        v.funcs_store@ == s.funcs_store@,
        spec_instr_count(v) == s.instrs_and_labels@.len(),
        forall|i: int|
            0 <= i < s.instrs_and_labels@.len() ==> record_at(v.instrs@, i) == flat_of_item(
                #[trigger] s.instrs_and_labels@[i],
            ),
        v.arg_idxes_store@.len() == PAIR_SIZE * s.args_idxes_store@.len(),
        forall|i: int|
            0 <= i < s.args_idxes_store@.len() ==> pair_at(v.arg_idxes_store@, i)
                == #[trigger] s.args_idxes_store@[i],
        v.labels_idxes_store@.len() == PAIR_SIZE * s.labels_idxes_store@.len(),
        forall|i: int|
            0 <= i < s.labels_idxes_store@.len() ==> pair_at(v.labels_idxes_store@, i)
                == #[trigger] s.labels_idxes_store@[i],
{
    crate::memfile::lemma_persistence_round_trip(s);
    crate::memfile::lemma_instrs_bytes_len(s.instrs_and_labels@);
    crate::memfile::lemma_pairs_bytes_len(s.args_idxes_store@);
    crate::memfile::lemma_pairs_bytes_len(s.labels_idxes_store@);
    assert forall|i: int| 0 <= i < s.instrs_and_labels@.len() implies record_at(v.instrs@, i)
        == flat_of_item(#[trigger] s.instrs_and_labels@[i]) by {
        lemma_record_at_round_trip(s.instrs_and_labels@, i);
    }
    assert forall|i: int| 0 <= i < s.args_idxes_store@.len() implies pair_at(
        v.arg_idxes_store@,
        i,
    ) == #[trigger] s.args_idxes_store@[i] by {
        lemma_pair_at_round_trip(s.args_idxes_store@, i);
    }
    assert forall|i: int| 0 <= i < s.labels_idxes_store@.len() implies pair_at(
        v.labels_idxes_store@,
        i,
    ) == #[trigger] s.labels_idxes_store@[i] by {
        lemma_pair_at_round_trip(s.labels_idxes_store@, i);
    }
}

/// A fixed-width field whose optional index pair is absent.
pub open spec fn is_absent(p: I32Pair) -> bool {
    p.first == crate::types::ABSENT_IDX && p.second == crate::types::ABSENT_IDX
}

/// Number of fixed-width records in a view's instruction buffer.
pub open spec fn spec_instr_count(v: InstrView) -> int {
    v.instrs@.len() as int / (INSTR_SIZE as int)
}

/// An args or labels range is readable: inclusive-ordered and inside the
/// span table.
pub open spec fn range_in_table(p: I32Pair, table: Seq<u8>) -> bool {
    &&& p.first <= p.second
    &&& PAIR_SIZE * (p.second as int) + PAIR_SIZE <= table.len()
}

/// The first label marker at or after `i` whose name is `name`.
pub open spec fn find_label_from(v: InstrView, name: Seq<u8>, i: int) -> Option<int>
    decreases spec_instr_count(v) - i,
{
    if i < 0 || i >= spec_instr_count(v) {
        None
    } else {
        let fi = record_at(v.instrs@, i);
        if fi.op == LABEL_SENTINEL && span_ok(fi.labels, v.labels_store@.len() as int)
            && span_bytes(v.labels_store@, fi.labels) == name {
            Some(i)
        } else {
            find_label_from(v, name, i + 1)
        }
    }
}

/// Returns the program counter of the first label marker carrying
/// `label_str`, scanning the record sequence in order; `None` when no
/// marker matches.
#[verifier::loop_isolation(false)]
pub fn get_pc_of_label(instr_view: &InstrView, label_str: &[u8]) -> (r: Option<usize>)
    ensures
        r matches Some(t) ==> find_label_from(*instr_view, label_str@, 0) == Some(t as int),
        r is None ==> find_label_from(*instr_view, label_str@, 0) is None,
{
    let n = instr_count(instr_view);
    let mut i: usize = 0;
    while i < n
        invariant
            i <= n,
            n == spec_instr_count(*instr_view),
            find_label_from(*instr_view, label_str@, 0) == find_label_from(
                *instr_view,
                label_str@,
                i as int,
            ),
        decreases n - i,
    {
        let fi = read_record_at(instr_view.instrs, i);
        if fi.op == LABEL_SENTINEL {
            if fi.labels.first <= fi.labels.second && (fi.labels.second as u64) < (
            instr_view.labels_store.len() as u64) {
                let name = get_label_name(instr_view, fi.labels.first, fi.labels.second);
                if bytes_eq(name, label_str) {
                    return Some(i);
                }
            }
        }
        i += 1;
    }
    None
}

/// The parameter record at entry `i` of a serialized parameter buffer.
pub open spec fn funcarg_at(d: Seq<u8>, i: int) -> crate::types::FuncArg {
    crate::types::FuncArg {
        arg_name_idxes: I32Pair {
            first: spec_u32_from_le_bytes(d.subrange(FUNCARG_SIZE * i, FUNCARG_SIZE * i + 4)),
            second: spec_u32_from_le_bytes(d.subrange(FUNCARG_SIZE * i + 4, FUNCARG_SIZE * i + 8)),
        },
        arg_type: match type_of_tag(
            spec_u32_from_le_bytes(d.subrange(FUNCARG_SIZE * i + 8, FUNCARG_SIZE * i + 12)),
        ) {
            Some(t) => t,
            None => Type::Null,
        },
    }
}

/// Reads the parameter record at entry `i` of a parameter-buffer slice.
pub fn read_funcarg_at(d: &[u8], i: usize) -> (fa: crate::types::FuncArg)
    requires
        FUNCARG_SIZE * i + FUNCARG_SIZE <= d@.len(),
    ensures
        fa == funcarg_at(d@, i as int),
{
    let n = d.len();
    let o = FUNCARG_SIZE * i;
    let first = u32_from_le_bytes(slice_subrange(d, o, o + 4));
    let second = u32_from_le_bytes(slice_subrange(d, o + 4, o + 8));
    let tag = u32_from_le_bytes(slice_subrange(d, o + 8, o + 12));
    let ty = if tag == 0 {
        Type::Int
    } else if tag == 1 {
        Type::Bool
    } else {
        Type::Null
    };
    crate::types::FuncArg { arg_name_idxes: I32Pair { first, second }, arg_type: ty }
}

/// A value inhabits a declared type.
pub open spec fn type_matches(v: BrilValue, t: Type) -> bool {
    match (v, t) {
        (BrilValue::IntVal(_), Type::Int) => true,
        (BrilValue::BoolVal(_), Type::Bool) => true,
        _ => false,
    }
}

/// Number of declared parameters in a view's parameter buffer.
pub open spec fn spec_param_count(v: InstrView) -> int {
    v.func_args@.len() as int / (FUNCARG_SIZE as int)
}

/// Binds the declared parameters `k ..` of `callee` to the remaining
/// values, extending `acc`: fails with `CorruptBinary` on a parameter name
/// span that leaves the variable buffer, with `TypeMismatch` on a value of
/// the wrong variant.
pub open spec fn bind_params_from(
    callee: InstrView,
    vals: Seq<BrilValue>,
    k: int,
    acc: Map<Seq<u8>, BrilValue>,
) -> Result<Map<Seq<u8>, BrilValue>, FlatError>
    decreases spec_param_count(callee) - k,
{
    if k < 0 || k >= spec_param_count(callee) {
        Ok(acc)
    } else {
        let fa = funcarg_at(callee.func_args@, k);
        if !span_ok(fa.arg_name_idxes, callee.var_store@.len() as int) {
            Err(FlatError::CorruptBinary)
        } else if !type_matches(vals[k], fa.arg_type) {
            Err(FlatError::TypeMismatch)
        } else {
            bind_params_from(
                callee,
                vals,
                k + 1,
                acc.insert(span_bytes(callee.var_store@, fa.arg_name_idxes), vals[k]),
            )
        }
    }
}

/// Builds a fresh environment binding the declared parameters of `callee`
/// to `vals`; `ArityMismatch` when the counts differ.
pub open spec fn spec_bind_params(callee: InstrView, vals: Seq<BrilValue>) -> Result<
    Map<Seq<u8>, BrilValue>,
    FlatError,
> {
    if vals.len() != spec_param_count(callee) {
        Err(FlatError::ArityMismatch)
    } else {
        bind_params_from(callee, vals, 0, Map::empty())
    }
}

/// Builds a fresh environment binding the declared parameters of `callee`
/// to `vals`.
#[verifier::loop_isolation(false)]
pub fn bind_params(callee: &InstrView, vals: &Vec<BrilValue>) -> (r: Result<
    Environment,
    FlatError,
>)
    ensures
        r matches Ok(env) ==> spec_bind_params(*callee, vals@) == Ok::<_, FlatError>(env@),
        r matches Err(e) ==> spec_bind_params(*callee, vals@) == Err::<
            Map<Seq<u8>, BrilValue>,
            _,
        >(e),
{
    let nparams = callee.func_args.len() / FUNCARG_SIZE;
    if vals.len() != nparams {
        return Err(FlatError::ArityMismatch);
    }
    let vn = callee.var_store.len();
    let mut env = Environment::new();
    let mut k: usize = 0;
    while k < nparams
        invariant
            k <= nparams,
            nparams == spec_param_count(*callee),
            vals@.len() == nparams,
            vn == callee.var_store@.len(),
            bind_params_from(*callee, vals@, 0, Map::empty()) == bind_params_from(
                *callee,
                vals@,
                k as int,
                env@,
            ),
        decreases nparams - k,
    {
        let fa = read_funcarg_at(callee.func_args, k);
        if !(fa.arg_name_idxes.first <= fa.arg_name_idxes.second && (
        fa.arg_name_idxes.second as usize) < vn) {
            return Err(FlatError::CorruptBinary);
        }
        let pname = get_var(callee, fa.arg_name_idxes.first, fa.arg_name_idxes.second);
        let ok = match (&vals[k], &fa.arg_type) {
            (BrilValue::IntVal(_), Type::Int) => true,
            (BrilValue::BoolVal(_), Type::Bool) => true,
            _ => false,
        };
        if !ok {
            return Err(FlatError::TypeMismatch);
        }
        env.set(pname, vals[k]);
        k += 1;
    }
    Ok(env)
}

/// Resolves the argument names `lo ..` of the range against the
/// environment, extending `acc` with their values in order.
pub open spec fn eval_args_from(
    v: InstrView,
    env: Map<Seq<u8>, BrilValue>,
    p: I32Pair,
    k: int,
    acc: Seq<BrilValue>,
) -> Result<Seq<BrilValue>, FlatError>
    decreases p.second + 1 - k,
{
    if k < p.first || k > p.second {
        Ok(acc)
    } else {
        let sp = pair_at(v.arg_idxes_store@, k);
        if !span_ok(sp, v.var_store@.len() as int) {
            Err(FlatError::CorruptBinary)
        } else {
            let name = span_bytes(v.var_store@, sp);
            if !env.contains_key(name) {
                Err(FlatError::UnboundVariable)
            } else {
                eval_args_from(v, env, p, k + 1, acc.push(env[name]))
            }
        }
    }
}

/// The values of the whole argument range.
pub open spec fn spec_eval_args(v: InstrView, env: Map<Seq<u8>, BrilValue>, p: I32Pair) -> Result<
    Seq<BrilValue>,
    FlatError,
> {
    if !range_in_table(p, v.arg_idxes_store@) {
        Err(FlatError::CorruptBinary)
    } else {
        eval_args_from(v, env, p, p.first as int, Seq::empty())
    }
}

/// Resolves the whole argument range of an instruction to values.
#[verifier::loop_isolation(false)]
pub fn eval_args(v: &InstrView, env: &Environment, p: I32Pair) -> (r: Result<
    Vec<BrilValue>,
    FlatError,
>)
    ensures
        r matches Ok(vals) ==> spec_eval_args(*v, env@, p) == Ok::<_, FlatError>(vals@)
            && vals@.len() == p.second - p.first + 1,
        r matches Err(e) ==> spec_eval_args(*v, env@, p) == Err::<Seq<BrilValue>, _>(e),
{
    let tn = v.arg_idxes_store.len();
    if !(p.first <= p.second && (p.second as u64) * (PAIR_SIZE as u64) + (PAIR_SIZE as u64) <= (
    tn as u64)) {
        return Err(FlatError::CorruptBinary);
    }
    let vn = v.var_store.len();
    let mut vals: Vec<BrilValue> = Vec::new();
    let mut k: usize = p.first as usize;
    let end: usize = p.second as usize;
    while k <= end
        invariant
            p.first <= k <= end + 1,
            end == p.second as int,
            vals@.len() == k - p.first,
            PAIR_SIZE * (p.second as int) + PAIR_SIZE <= v.arg_idxes_store@.len(),
            vn == v.var_store@.len(),
            eval_args_from(*v, env@, p, p.first as int, Seq::empty()) == eval_args_from(
                *v,
                env@,
                p,
                k as int,
                vals@,
            ),
        decreases end + 1 - k,
    {
        let sp = read_pair_at(v.arg_idxes_store, k);
        if !(sp.first <= sp.second && (sp.second as usize) < vn) {
            return Err(FlatError::CorruptBinary);
        }
        let name = get_var(v, sp.first, sp.second);
        match env.get(name) {
            Some(val) => {
                vals.push(val);
            },
            None => {
                return Err(FlatError::UnboundVariable);
            },
        }
        k += 1;
    }
    Ok(vals)
}

/// One activation's interpretation of a unary value operation, as a map
/// transformation: checks the destination, the single argument, the
/// binding, and the operand's variant, in that order.
pub open spec fn spec_interp_unop(
    v: InstrView,
    op: Opcode,
    fi: FlatInstr,
    env: Map<Seq<u8>, BrilValue>,
) -> Result<Map<Seq<u8>, BrilValue>, FlatError> {
    if is_absent(fi.dest) {
        Err(FlatError::ParseShape)
    } else if !span_ok(fi.dest, v.var_store@.len() as int) {
        Err(FlatError::CorruptBinary)
    } else if is_absent(fi.args) {
        Err(FlatError::ArityMismatch)
    } else if !range_in_table(fi.args, v.arg_idxes_store@) {
        Err(FlatError::CorruptBinary)
    } else if fi.args.second != fi.args.first {
        Err(FlatError::ArityMismatch)
    } else {
        let sp = pair_at(v.arg_idxes_store@, fi.args.first as int);
        if !span_ok(sp, v.var_store@.len() as int) {
            Err(FlatError::CorruptBinary)
        } else {
            let name = span_bytes(v.var_store@, sp);
            if !env.contains_key(name) {
                Err(FlatError::UnboundVariable)
            } else {
                match unop_result(op, env[name]) {
                    Ok(val) => Ok(env.insert(span_bytes(v.var_store@, fi.dest), val)),
                    Err(e) => Err(e),
                }
            }
        }
    }
}

/// Interprets a unary value operation (`not`, `id`) against the
/// environment, binding its destination on success; on an error the
/// environment is untouched.
pub fn interp_unop(
    instr_view: &InstrView,
    op: Opcode,
    instr: &FlatInstr,
    env: &mut Environment,
) -> (r: Result<(), FlatError>)
    requires
        op.spec_is_unop(),
    ensures
        r matches Ok(()) ==> spec_interp_unop(*instr_view, op, *instr, old(env)@) == Ok::<
            _,
            FlatError,
        >(final(env)@),
        r matches Err(e) ==> spec_interp_unop(*instr_view, op, *instr, old(env)@) == Err::<
            Map<Seq<u8>, BrilValue>,
            _,
        >(e) && final(env)@ == old(env)@,
{
    let vn = instr_view.var_store.len();
    let tn = instr_view.arg_idxes_store.len();
    if instr.dest.first == crate::types::ABSENT_IDX && instr.dest.second
        == crate::types::ABSENT_IDX {
        return Err(FlatError::ParseShape);
    }
    if !(instr.dest.first <= instr.dest.second && (instr.dest.second as usize) < vn) {
        return Err(FlatError::CorruptBinary);
    }
    if instr.args.first == crate::types::ABSENT_IDX && instr.args.second
        == crate::types::ABSENT_IDX {
        return Err(FlatError::ArityMismatch);
    }
    if !(instr.args.first <= instr.args.second && (instr.args.second as u64) * (PAIR_SIZE as u64)
        + (PAIR_SIZE as u64) <= (tn as u64)) {
        return Err(FlatError::CorruptBinary);
    }
    if instr.args.second != instr.args.first {
        return Err(FlatError::ArityMismatch);
    }
    let sp = read_pair_at(instr_view.arg_idxes_store, instr.args.first as usize);
    if !(sp.first <= sp.second && (sp.second as usize) < vn) {
        return Err(FlatError::CorruptBinary);
    }
    let name = get_var(instr_view, sp.first, sp.second);
    let argval = match env.get(name) {
        Some(val) => val,
        None => {
            return Err(FlatError::UnboundVariable);
        },
    };
    let result = match (op, argval) {
        (Opcode::Not, BrilValue::BoolVal(b)) => BrilValue::BoolVal(!b),
        (Opcode::Not, _) => {
            return Err(FlatError::TypeMismatch);
        },
        _ => argval,
    };
    let dest = get_var(instr_view, instr.dest.first, instr.dest.second);
    env.set(dest, result);
    Ok(())
}

/// One activation's interpretation of a binary value operation, as a map
/// transformation.
pub open spec fn spec_interp_binop(
    v: InstrView,
    op: Opcode,
    fi: FlatInstr,
    env: Map<Seq<u8>, BrilValue>,
) -> Result<Map<Seq<u8>, BrilValue>, FlatError> {
    if is_absent(fi.dest) {
        Err(FlatError::ParseShape)
    } else if !span_ok(fi.dest, v.var_store@.len() as int) {
        Err(FlatError::CorruptBinary)
    } else if is_absent(fi.args) {
        Err(FlatError::ArityMismatch)
    } else if !range_in_table(fi.args, v.arg_idxes_store@) {
        Err(FlatError::CorruptBinary)
    } else if fi.args.second != fi.args.first + 1 {
        Err(FlatError::ArityMismatch)
    } else {
        let sp0 = pair_at(v.arg_idxes_store@, fi.args.first as int);
        let sp1 = pair_at(v.arg_idxes_store@, fi.args.first + 1);
        if !span_ok(sp0, v.var_store@.len() as int) || !span_ok(sp1, v.var_store@.len() as int) {
            Err(FlatError::CorruptBinary)
        } else {
            let n0 = span_bytes(v.var_store@, sp0);
            let n1 = span_bytes(v.var_store@, sp1);
            if !env.contains_key(n0) {
                Err(FlatError::UnboundVariable)
            } else if !env.contains_key(n1) {
                Err(FlatError::UnboundVariable)
            } else {
                match binop_result(op, env[n0], env[n1]) {
                    Ok(val) => Ok(env.insert(span_bytes(v.var_store@, fi.dest), val)),
                    Err(e) => Err(e),
                }
            }
        }
    }
}

/// Interprets a binary value operation (arithmetic, comparison or logic)
/// against the environment, binding its destination on success; arithmetic
/// wraps around two's-complement and never fails on overflow.
pub fn interp_binop(
    instr_view: &InstrView,
    op: Opcode,
    instr: &FlatInstr,
    env: &mut Environment,
) -> (r: Result<(), FlatError>)
    requires
        op.spec_is_binop(),
    ensures
        r matches Ok(()) ==> spec_interp_binop(*instr_view, op, *instr, old(env)@) == Ok::<
            _,
            FlatError,
        >(final(env)@),
        r matches Err(e) ==> spec_interp_binop(*instr_view, op, *instr, old(env)@) == Err::<
            Map<Seq<u8>, BrilValue>,
            _,
        >(e) && final(env)@ == old(env)@,
{
    let vn = instr_view.var_store.len();
    let tn = instr_view.arg_idxes_store.len();
    if instr.dest.first == crate::types::ABSENT_IDX && instr.dest.second
        == crate::types::ABSENT_IDX {
        return Err(FlatError::ParseShape);
    }
    if !(instr.dest.first <= instr.dest.second && (instr.dest.second as usize) < vn) {
        return Err(FlatError::CorruptBinary);
    }
    if instr.args.first == crate::types::ABSENT_IDX && instr.args.second
        == crate::types::ABSENT_IDX {
        return Err(FlatError::ArityMismatch);
    }
    if !(instr.args.first <= instr.args.second && (instr.args.second as u64) * (PAIR_SIZE as u64)
        + (PAIR_SIZE as u64) <= (tn as u64)) {
        return Err(FlatError::CorruptBinary);
    }
    if !(instr.args.first < u32::MAX && instr.args.second == instr.args.first + 1) {
        return Err(FlatError::ArityMismatch);
    }
    let sp0 = read_pair_at(instr_view.arg_idxes_store, instr.args.first as usize);
    let sp1 = read_pair_at(instr_view.arg_idxes_store, instr.args.first as usize + 1);
    if !(sp0.first <= sp0.second && (sp0.second as usize) < vn && sp1.first <= sp1.second && (
    sp1.second as usize) < vn) {
        return Err(FlatError::CorruptBinary);
    }
    let n0 = get_var(instr_view, sp0.first, sp0.second);
    let x = match env.get(n0) {
        Some(val) => val,
        None => {
            return Err(FlatError::UnboundVariable);
        },
    };
    let n1 = get_var(instr_view, sp1.first, sp1.second);
    let y = match env.get(n1) {
        Some(val) => val,
        None => {
            return Err(FlatError::UnboundVariable);
        },
    };
    let result = match eval_binop(op, x, y) {
        Ok(val) => val,
        Err(e) => {
            return Err(e);
        },
    };
    let dest = get_var(instr_view, instr.dest.first, instr.dest.second);
    env.set(dest, result);
    Ok(())
}

/// The first function of the program whose name is `name`, scanning at or
/// after position `j`.
pub open spec fn find_func_from(p: Seq<InstrView>, name: Seq<u8>, j: int) -> Option<int>
    decreases p.len() - j,
{
    if j < 0 || j >= p.len() {
        None
    } else if p[j].func_name@ == name {
        Some(j)
    } else {
        find_func_from(p, name, j + 1)
    }
}

/// One live activation of the abstract machine.
#[verifier::ext_equal]
pub struct SpecActivation {
    pub fidx: int,
    pub pc: int,
    pub env: Map<Seq<u8>, BrilValue>,
    pub dest: Option<Seq<u8>>,
}

/// The abstract machine's state: the activation stack (entry at the
/// bottom) and the text written to the output sink so far.
#[verifier::ext_equal]
pub struct MState {
    pub stack: Seq<SpecActivation>,
    pub out: Seq<Seq<u8>>,
}

/// The outcome of one machine step.
pub enum StepOut {
    Next(MState),
    Finished(Option<BrilValue>, Seq<Seq<u8>>),
    Failed(FlatError, Seq<Seq<u8>>),
}

/// The outcome of a bounded run.
pub enum RunOut {
    Finished(Option<BrilValue>, Seq<Seq<u8>>),
    Failed(FlatError, Seq<Seq<u8>>),
    OutOfSteps(Seq<Seq<u8>>),
}

/// Ends the topmost activation, carrying `ret` back: the caller's pending
/// destination (if any) is bound — a destination with no returned value is
/// a `NullValue` error — and the run finishes when the entry activation
/// ends.
pub open spec fn spec_pop(st: MState, ret: Option<BrilValue>) -> StepOut {
    let rest = st.stack.drop_last();
    if rest.len() == 0 {
        StepOut::Finished(ret, st.out)
    } else {
        let caller = rest.last();
        match caller.dest {
            Some(dname) => match ret {
                Some(v) => StepOut::Next(
                    MState {
                        stack: rest.update(
                            rest.len() - 1,
                            SpecActivation { env: caller.env.insert(dname, v), ..caller },
                        ),
                        out: st.out,
                    },
                ),
                None => StepOut::Failed(FlatError::NullValue, st.out),
            },
            None => StepOut::Next(MState { stack: rest, out: st.out }),
        }
    }
}

/// Replaces the topmost activation.
pub open spec fn with_top(st: MState, a: SpecActivation) -> MState {
    MState { stack: st.stack.update(st.stack.len() - 1, a), out: st.out }
}

/// The `const` step: bind the inline value under the destination name.
pub open spec fn spec_const_step(v: InstrView, st: MState, a: SpecActivation, fi: FlatInstr) -> StepOut {
    if is_absent(fi.dest) {
        StepOut::Failed(FlatError::ParseShape, st.out)
    } else if !span_ok(fi.dest, v.var_store@.len() as int) {
        StepOut::Failed(FlatError::CorruptBinary, st.out)
    } else if fi.value == BrilValue::Null {
        StepOut::Failed(FlatError::NullValue, st.out)
    } else {
        StepOut::Next(
            with_top(
                st,
                SpecActivation {
                    pc: a.pc + 1,
                    env: a.env.insert(span_bytes(v.var_store@, fi.dest), fi.value),
                    ..a
                },
            ),
        )
    }
}

/// The `print` step: exactly one argument, looked up and written to the
/// sink in canonical text form.
pub open spec fn spec_print_step(v: InstrView, st: MState, a: SpecActivation, fi: FlatInstr) -> StepOut {
    if is_absent(fi.args) {
        StepOut::Failed(FlatError::ArityMismatch, st.out)
    } else if !range_in_table(fi.args, v.arg_idxes_store@) {
        StepOut::Failed(FlatError::CorruptBinary, st.out)
    } else if fi.args.second != fi.args.first {
        StepOut::Failed(FlatError::ArityMismatch, st.out)
    } else {
        match spec_eval_args(v, a.env, fi.args) {
            Err(e) => StepOut::Failed(e, st.out),
            Ok(vals) => StepOut::Next(
                MState {
                    stack: st.stack.update(
                        st.stack.len() - 1,
                        SpecActivation { pc: a.pc + 1, ..a },
                    ),
                    out: st.out.push(canonical_text(vals[0])),
                },
            ),
        }
    }
}

/// The `jmp` step: exactly one target label, resolved by scanning for the
/// first matching label marker.
pub open spec fn spec_jmp_step(v: InstrView, st: MState, a: SpecActivation, fi: FlatInstr) -> StepOut {
    if is_absent(fi.labels) {
        StepOut::Failed(FlatError::ArityMismatch, st.out)
    } else if !range_in_table(fi.labels, v.labels_idxes_store@) {
        StepOut::Failed(FlatError::CorruptBinary, st.out)
    } else if fi.labels.second != fi.labels.first {
        StepOut::Failed(FlatError::ArityMismatch, st.out)
    } else {
        let sp = pair_at(v.labels_idxes_store@, fi.labels.first as int);
        if !span_ok(sp, v.labels_store@.len() as int) {
            StepOut::Failed(FlatError::CorruptBinary, st.out)
        } else {
            match find_label_from(v, span_bytes(v.labels_store@, sp), 0) {
                None => StepOut::Failed(FlatError::UnknownLabel, st.out),
                Some(t) => StepOut::Next(with_top(st, SpecActivation { pc: t, ..a })),
            }
        }
    }
}

/// The `br` step: one boolean condition argument and two target labels in
/// fixed order (true target, false target); jumps to the matching one.
pub open spec fn spec_br_step(v: InstrView, st: MState, a: SpecActivation, fi: FlatInstr) -> StepOut {
    if is_absent(fi.args) {
        StepOut::Failed(FlatError::ArityMismatch, st.out)
    } else if !range_in_table(fi.args, v.arg_idxes_store@) {
        StepOut::Failed(FlatError::CorruptBinary, st.out)
    } else if fi.args.second != fi.args.first {
        StepOut::Failed(FlatError::ArityMismatch, st.out)
    } else {
        match spec_eval_args(v, a.env, fi.args) {
            Err(e) => StepOut::Failed(e, st.out),
            Ok(vals) => match vals[0] {
                BrilValue::BoolVal(cond) => {
                    if is_absent(fi.labels) {
                        StepOut::Failed(FlatError::ArityMismatch, st.out)
                    } else if !range_in_table(fi.labels, v.labels_idxes_store@) {
                        StepOut::Failed(FlatError::CorruptBinary, st.out)
                    } else if fi.labels.second != fi.labels.first + 1 {
                        StepOut::Failed(FlatError::ArityMismatch, st.out)
                    } else {
                        let which = if cond {
                            fi.labels.first as int
                        } else {
                            fi.labels.first + 1
                        };
                        let sp = pair_at(v.labels_idxes_store@, which);
                        if !span_ok(sp, v.labels_store@.len() as int) {
                            StepOut::Failed(FlatError::CorruptBinary, st.out)
                        } else {
                            match find_label_from(v, span_bytes(v.labels_store@, sp), 0) {
                                None => StepOut::Failed(FlatError::UnknownLabel, st.out),
                                Some(t) => StepOut::Next(
                                    with_top(st, SpecActivation { pc: t, ..a }),
                                ),
                            }
                        }
                    }
                },
                _ => StepOut::Failed(FlatError::TypeMismatch, st.out),
            },
        }
    }
}

/// The `ret` step: ends the activation, optionally carrying one value.
pub open spec fn spec_ret_step(v: InstrView, st: MState, a: SpecActivation, fi: FlatInstr) -> StepOut {
    if is_absent(fi.args) {
        spec_pop(st, None)
    } else if !range_in_table(fi.args, v.arg_idxes_store@) {
        StepOut::Failed(FlatError::CorruptBinary, st.out)
    } else if fi.args.second != fi.args.first {
        StepOut::Failed(FlatError::ArityMismatch, st.out)
    } else {
        match spec_eval_args(v, a.env, fi.args) {
            Err(e) => StepOut::Failed(e, st.out),
            Ok(vals) => spec_pop(st, Some(vals[0])),
        }
    }
}

/// The `call` step: resolve the callee by name, evaluate the arguments,
/// bind the callee's declared parameters, remember the caller's pending
/// destination, and push a fresh activation.
pub open spec fn spec_call_step(
    p: Seq<InstrView>,
    v: InstrView,
    st: MState,
    a: SpecActivation,
    fi: FlatInstr,
) -> StepOut {
    if is_absent(fi.funcs) {
        StepOut::Failed(FlatError::ParseShape, st.out)
    } else if !span_ok(fi.funcs, v.funcs_store@.len() as int) {
        StepOut::Failed(FlatError::CorruptBinary, st.out)
    } else {
        match find_func_from(p, span_bytes(v.funcs_store@, fi.funcs), 0) {
            None => StepOut::Failed(FlatError::UnboundVariable, st.out),
            Some(j) => {
                let argvals = if is_absent(fi.args) {
                    Ok(Seq::<BrilValue>::empty())
                } else {
                    spec_eval_args(v, a.env, fi.args)
                };
                match argvals {
                    Err(e) => StepOut::Failed(e, st.out),
                    Ok(vals) => match spec_bind_params(p[j], vals) {
                        Err(e) => StepOut::Failed(e, st.out),
                        Ok(envc) => {
                            if !is_absent(fi.dest) && !span_ok(
                                fi.dest,
                                v.var_store@.len() as int,
                            ) {
                                StepOut::Failed(FlatError::CorruptBinary, st.out)
                            } else {
                                let dest = if is_absent(fi.dest) {
                                    None
                                } else {
                                    Some(span_bytes(v.var_store@, fi.dest))
                                };
                                StepOut::Next(
                                    MState {
                                        stack: st.stack.update(
                                            st.stack.len() - 1,
                                            SpecActivation { pc: a.pc + 1, dest, ..a },
                                        ).push(
                                            SpecActivation {
                                                fidx: j,
                                                pc: 0,
                                                env: envc,
                                                dest: None,
                                            },
                                        ),
                                        out: st.out,
                                    },
                                )
                            }
                        },
                    },
                }
            },
        }
    }
}

/// One step of the machine: fetch the record under the top activation's
/// program counter and dispatch on its opcode; label markers are
/// transparent; reaching the end of the record sequence ends the
/// activation with no value.
pub open spec fn spec_step(p: Seq<InstrView>, st: MState) -> StepOut {
    if st.stack.len() == 0 {
        StepOut::Finished(None, st.out)
    } else {
        let a = st.stack.last();
        if !(0 <= a.fidx < p.len()) {
            StepOut::Failed(FlatError::CorruptBinary, st.out)
        } else {
            let v = p[a.fidx];
            if !(0 <= a.pc < spec_instr_count(v)) {
                spec_pop(st, None)
            } else {
                let fi = record_at(v.instrs@, a.pc);
                if fi.op == LABEL_SENTINEL {
                    StepOut::Next(with_top(st, SpecActivation { pc: a.pc + 1, ..a }))
                } else {
                    match op_of_index(fi.op) {
                        None => StepOut::Failed(FlatError::InvalidOpcode, st.out),
                        Some(op) => match crate::types::spec_instr_kind(op, !is_absent(fi.dest)) {
                            crate::types::InstrKind::Const => spec_const_step(v, st, a, fi),
                            crate::types::InstrKind::ValueOp => if op.spec_is_unop() {
                                match spec_interp_unop(v, op, fi, a.env) {
                                    Ok(env2) => StepOut::Next(
                                        with_top(st, SpecActivation { pc: a.pc + 1, env: env2, ..a }),
                                    ),
                                    Err(e) => StepOut::Failed(e, st.out),
                                }
                            } else if op.spec_is_binop() {
                                match spec_interp_binop(v, op, fi, a.env) {
                                    Ok(env2) => StepOut::Next(
                                        with_top(st, SpecActivation { pc: a.pc + 1, env: env2, ..a }),
                                    ),
                                    Err(e) => StepOut::Failed(e, st.out),
                                }
                            } else if op == Opcode::Call {
                                spec_call_step(p, v, st, a, fi)
                            } else {
                                StepOut::Failed(FlatError::ParseShape, st.out)
                            },
                            crate::types::InstrKind::EffectOp => if op == Opcode::Print {
                                spec_print_step(v, st, a, fi)
                            } else if op == Opcode::Jmp {
                                spec_jmp_step(v, st, a, fi)
                            } else if op == Opcode::Br {
                                spec_br_step(v, st, a, fi)
                            } else if op == Opcode::Nop {
                                StepOut::Next(with_top(st, SpecActivation { pc: a.pc + 1, ..a }))
                            } else if op == Opcode::Ret {
                                spec_ret_step(v, st, a, fi)
                            } else if op == Opcode::Call {
                                spec_call_step(p, v, st, a, fi)
                            } else {
                                StepOut::Failed(FlatError::ParseShape, st.out)
                            },
                        },
                    }
                }
            }
        }
    }
}

/// A bounded run of the machine: steps until it finishes, fails, or the
/// step budget runs out. A program that does not terminate (an infinite
/// jump loop) exhausts any budget.
pub open spec fn spec_run(p: Seq<InstrView>, st: MState, fuel: nat) -> RunOut
    decreases fuel,
{
    if fuel == 0 {
        RunOut::OutOfSteps(st.out)
    } else {
        match spec_step(p, st) {
            StepOut::Next(st2) => spec_run(p, st2, (fuel - 1) as nat),
            StepOut::Finished(rv, o) => RunOut::Finished(rv, o),
            StepOut::Failed(e, o) => RunOut::Failed(e, o),
        }
    }
}

/// The outcome the interpreter reports: the entry function's returned
/// value, a fatal error, or an exhausted step budget (a program that does
/// not terminate exhausts any budget).
#[derive(Debug, PartialEq, Eq, Structural, Clone, Copy)]
pub enum InterpOutcome {
    Finished(Option<BrilValue>),
    Error(FlatError),
    OutOfSteps,
}

/// One live activation: the function it runs, its program counter, its
/// private environment, and — while a call is pending — the destination
/// name the callee's value will be bound under.
pub struct Activation {
    pub fidx: usize,
    pub pc: usize,
    pub env: Environment,
    pub dest: Option<Vec<u8>>,
}

/// The abstract state of one activation.
pub open spec fn act_model(a: Activation) -> SpecActivation {
    SpecActivation {
        fidx: a.fidx as int,
        pc: a.pc as int,
        env: a.env@,
        dest: match a.dest {
            Some(d) => Some(d@),
            None => None,
        },
    }
}

/// The abstract state of the whole activation stack.
pub open spec fn stack_model(s: Seq<Activation>) -> Seq<SpecActivation> {
    Seq::new(s.len(), |i: int| act_model(s[i]))
}

/// Finds the first function of the program carrying `name`.
#[verifier::loop_isolation(false)]
pub fn find_func(program: &Vec<InstrView>, name: &[u8]) -> (r: Option<usize>)
    ensures
        r matches Some(j) ==> find_func_from(program@, name@, 0) == Some(j as int) && (
        j as int) < program@.len(),
        r is None ==> find_func_from(program@, name@, 0) is None,
{
    let mut j: usize = 0;
    while j < program.len()
        invariant
            j <= program@.len(),
            find_func_from(program@, name@, 0) == find_func_from(program@, name@, j as int),
        decreases program@.len() - j,
    {
        if bytes_eq(program[j].func_name, name) {
            return Some(j);
        }
        j += 1;
    }
    None
}

/// Performs the `const` branch of one step: bind the inline value and
/// advance. `None` means the machine continues.
fn step_const(
    view: &InstrView,
    frame: Activation,
    stack: &mut Vec<Activation>,
    Ghost(pre): Ghost<MState>,
) -> (r: Option<InterpOutcome>)
    requires
        pre.stack.len() >= 1,
        pre.stack.drop_last() == stack_model(old(stack)@),
        pre.stack.last() == act_model(frame),
        frame.pc < spec_instr_count(*view),
    ensures
        match spec_const_step(*view, pre, pre.stack.last(), record_at(view.instrs@, pre.stack.last().pc)) {
            StepOut::Next(st2) => r is None && stack_model(final(stack)@) == st2.stack,
            StepOut::Failed(e, _) => r == Some(InterpOutcome::Error(e)),
            StepOut::Finished(_, _) => false,
        },
{
    let _instr_buf_len = view.instrs.len();
    let mut frame = frame;
    let fi = read_record_at(view.instrs, frame.pc);
    if fi.dest.first == crate::types::ABSENT_IDX && fi.dest.second == crate::types::ABSENT_IDX {
        return Some(InterpOutcome::Error(FlatError::ParseShape));
    }
    let vn = view.var_store.len();
    if !(fi.dest.first <= fi.dest.second && (fi.dest.second as usize) < vn) {
        return Some(InterpOutcome::Error(FlatError::CorruptBinary));
    }
    if matches!(fi.value, BrilValue::Null) {
        return Some(InterpOutcome::Error(FlatError::NullValue));
    }
    let dname = get_var(view, fi.dest.first, fi.dest.second);
    frame.env.set(dname, fi.value);
    frame.pc = frame.pc + 1;
    stack.push(frame);
    proof {
        let a = pre.stack.last();
        let fi_s = record_at(view.instrs@, a.pc);
        assert(stack@.len() == old(stack)@.len() + 1);
        assert(stack_model(old(stack)@).len() == old(stack)@.len());
        assert(pre.stack.drop_last().len() == stack_model(old(stack)@).len());
        assert(stack_model(stack@).len() == stack@.len());
        assert(stack_model(stack@).len() == pre.stack.len());
        assert forall|k: int| 0 <= k < pre.stack.len() - 1 implies stack_model(stack@)[k]
            == pre.stack[k] by {
            assert(stack_model(stack@)[k] == act_model(stack@[k]));
            assert(stack@[k] == old(stack)@[k]);
            assert(act_model(old(stack)@[k]) == stack_model(old(stack)@)[k]);
        }
        assert(act_model(stack@.last()).pc == a.pc + 1);
        assert(act_model(stack@.last()).fidx == a.fidx);
        assert(act_model(stack@.last()).dest == a.dest);
        assert(act_model(stack@.last()).env == a.env.insert(
            span_bytes(view.var_store@, fi_s.dest),
            fi_s.value,
        ));
        assert(stack_model(stack@) =~~= pre.stack.update(
            pre.stack.len() - 1,
            SpecActivation {
                pc: a.pc + 1,
                env: a.env.insert(span_bytes(view.var_store@, fi_s.dest), fi_s.value),
                ..a
            },
        ));
    }
    None
}

/// Performs the unary or binary value-operation branch of one step.
fn step_value_op(
    view: &InstrView,
    op: Opcode,
    frame: Activation,
    stack: &mut Vec<Activation>,
    Ghost(pre): Ghost<MState>,
) -> (r: Option<InterpOutcome>)
    requires
        op.spec_is_unop() || op.spec_is_binop(),
        pre.stack.len() >= 1,
        pre.stack.drop_last() == stack_model(old(stack)@),
        pre.stack.last() == act_model(frame),
        frame.pc < spec_instr_count(*view),
    ensures
        ({
            let a = pre.stack.last();
            let fi = record_at(view.instrs@, a.pc);
            let res = if op.spec_is_unop() {
                spec_interp_unop(*view, op, fi, a.env)
            } else {
                spec_interp_binop(*view, op, fi, a.env)
            };
            match res {
                Ok(env2) => r is None && stack_model(final(stack)@) == pre.stack.update(
                    pre.stack.len() - 1,
                    SpecActivation { pc: a.pc + 1, env: env2, ..a },
                ),
                Err(e) => r == Some(InterpOutcome::Error(e)),
            }
        }),
{
    let _instr_buf_len = view.instrs.len();
    let mut frame = frame;
    let fi = read_record_at(view.instrs, frame.pc);
    let outcome = if op.is_unop() {
        interp_unop(view, op, &fi, &mut frame.env)
    } else {
        interp_binop(view, op, &fi, &mut frame.env)
    };
    match outcome {
        Ok(()) => {
            frame.pc = frame.pc + 1;
            stack.push(frame);
            proof {
                let a = pre.stack.last();
                assert(stack@.len() == old(stack)@.len() + 1);
                assert(stack_model(old(stack)@).len() == old(stack)@.len());
                assert(pre.stack.drop_last().len() == stack_model(old(stack)@).len());
                assert(stack_model(stack@).len() == stack@.len());
                assert(stack_model(stack@).len() == pre.stack.len());
                assert forall|k: int| 0 <= k < pre.stack.len() - 1 implies stack_model(stack@)[k]
                    == pre.stack[k] by {
                            assert(stack_model(stack@)[k] == act_model(stack@[k]));
                            assert(stack@[k] == old(stack)@[k]);
                            assert(act_model(old(stack)@[k]) == stack_model(old(stack)@)[k]);
                }
                assert(act_model(stack@.last()).pc == a.pc + 1);
                assert(stack_model(stack@) =~~= pre.stack.update(
                    pre.stack.len() - 1,
                    SpecActivation { pc: a.pc + 1, env: act_model(stack@.last()).env, ..a },
                ));
            }
            None
        },
        Err(e) => Some(InterpOutcome::Error(e)),
    }
}

/// Performs the `print` branch of one step: one argument, written in
/// canonical text form to the sink.
fn step_print(
    view: &InstrView,
    frame: Activation,
    stack: &mut Vec<Activation>,
    out: &mut Vec<Vec<u8>>,
    Ghost(pre): Ghost<MState>,
) -> (r: Option<InterpOutcome>)
    requires
        pre.stack.len() >= 1,
        pre.stack.drop_last() == stack_model(old(stack)@),
        pre.stack.last() == act_model(frame),
        pre.out == old(out).deep_view(),
        frame.pc < spec_instr_count(*view),
    ensures
        match spec_print_step(*view, pre, pre.stack.last(), record_at(view.instrs@, pre.stack.last().pc)) {
            StepOut::Next(st2) => r is None && stack_model(final(stack)@) == st2.stack
                && final(out).deep_view() == st2.out,
            StepOut::Failed(e, _) => r == Some(InterpOutcome::Error(e))
                && final(out)@ == old(out)@,
            StepOut::Finished(_, _) => false,
        },
{
    let _instr_buf_len = view.instrs.len();
    let mut frame = frame;
    let fi = read_record_at(view.instrs, frame.pc);
    if fi.args.first == crate::types::ABSENT_IDX && fi.args.second == crate::types::ABSENT_IDX {
        return Some(InterpOutcome::Error(FlatError::ArityMismatch));
    }
    let tn = view.arg_idxes_store.len();
    if !(fi.args.first <= fi.args.second && (fi.args.second as u64) * (PAIR_SIZE as u64) + (
    PAIR_SIZE as u64) <= (tn as u64)) {
        return Some(InterpOutcome::Error(FlatError::CorruptBinary));
    }
    if fi.args.second != fi.args.first {
        return Some(InterpOutcome::Error(FlatError::ArityMismatch));
    }
    let vals = match eval_args(view, &frame.env, fi.args) {
        Ok(v) => v,
        Err(e) => {
            return Some(InterpOutcome::Error(e));
        },
    };
    let txt = value_to_text(&vals[0]);
    let ghost out_before = out.deep_view();
    out.push(txt);
    frame.pc = frame.pc + 1;
    stack.push(frame);
    proof {
        let a = pre.stack.last();
        assert(out.deep_view() =~~= out_before.push(canonical_text(vals@[0])));
        assert(stack@.len() == old(stack)@.len() + 1);
        assert(stack_model(old(stack)@).len() == old(stack)@.len());
        assert(pre.stack.drop_last().len() == stack_model(old(stack)@).len());
        assert(stack_model(stack@).len() == stack@.len());
        assert(stack_model(stack@).len() == pre.stack.len());
        assert forall|k: int| 0 <= k < pre.stack.len() - 1 implies stack_model(stack@)[k]
            == pre.stack[k] by {
            assert(stack_model(stack@)[k] == act_model(stack@[k]));
            assert(stack@[k] == old(stack)@[k]);
            assert(act_model(old(stack)@[k]) == stack_model(old(stack)@)[k]);
        }
        assert(act_model(stack@.last()).pc == a.pc + 1);
        assert(stack_model(stack@) =~~= pre.stack.update(
            pre.stack.len() - 1,
            SpecActivation { pc: a.pc + 1, ..a },
        ));
    }
    None
}

/// Performs the `jmp` or `br` branch of one step: resolve the target label
/// and move the program counter there.
fn step_jump(
    view: &InstrView,
    op: Opcode,
    frame: Activation,
    stack: &mut Vec<Activation>,
    Ghost(pre): Ghost<MState>,
) -> (r: Option<InterpOutcome>)
    requires
        op == Opcode::Jmp || op == Opcode::Br,
        pre.stack.len() >= 1,
        pre.stack.drop_last() == stack_model(old(stack)@),
        pre.stack.last() == act_model(frame),
        frame.pc < spec_instr_count(*view),
    ensures
        ({
            let a = pre.stack.last();
            let fi = record_at(view.instrs@, a.pc);
            let step = if op == Opcode::Jmp {
                spec_jmp_step(*view, pre, a, fi)
            } else {
                spec_br_step(*view, pre, a, fi)
            };
            match step {
                StepOut::Next(st2) => r is None && stack_model(final(stack)@) == st2.stack,
                StepOut::Failed(e, _) => r == Some(InterpOutcome::Error(e)),
                StepOut::Finished(_, _) => false,
            }
        }),
{
    let _instr_buf_len = view.instrs.len();
    let mut frame = frame;
    let fi = read_record_at(view.instrs, frame.pc);
    let which: usize;
    if matches!(op, Opcode::Br) {
        if fi.args.first == crate::types::ABSENT_IDX && fi.args.second
            == crate::types::ABSENT_IDX {
            return Some(InterpOutcome::Error(FlatError::ArityMismatch));
        }
        let tn = view.arg_idxes_store.len();
        if !(fi.args.first <= fi.args.second && (fi.args.second as u64) * (PAIR_SIZE as u64) + (
        PAIR_SIZE as u64) <= (tn as u64)) {
            return Some(InterpOutcome::Error(FlatError::CorruptBinary));
        }
        if fi.args.second != fi.args.first {
            return Some(InterpOutcome::Error(FlatError::ArityMismatch));
        }
        let vals = match eval_args(view, &frame.env, fi.args) {
            Ok(v) => v,
            Err(e) => {
                return Some(InterpOutcome::Error(e));
            },
        };
        let cond = match vals[0] {
            BrilValue::BoolVal(b) => b,
            _ => {
                return Some(InterpOutcome::Error(FlatError::TypeMismatch));
            },
        };
        if fi.labels.first == crate::types::ABSENT_IDX && fi.labels.second
            == crate::types::ABSENT_IDX {
            return Some(InterpOutcome::Error(FlatError::ArityMismatch));
        }
        let ltn = view.labels_idxes_store.len();
        if !(fi.labels.first <= fi.labels.second && (fi.labels.second as u64) * (
        PAIR_SIZE as u64) + (PAIR_SIZE as u64) <= (ltn as u64)) {
            return Some(InterpOutcome::Error(FlatError::CorruptBinary));
        }
        if !(fi.labels.first < u32::MAX && fi.labels.second == fi.labels.first + 1) {
            return Some(InterpOutcome::Error(FlatError::ArityMismatch));
        }
        which = if cond {
            fi.labels.first as usize
        } else {
            fi.labels.first as usize + 1
        };
    } else {
        if fi.labels.first == crate::types::ABSENT_IDX && fi.labels.second
            == crate::types::ABSENT_IDX {
            return Some(InterpOutcome::Error(FlatError::ArityMismatch));
        }
        let ltn = view.labels_idxes_store.len();
        if !(fi.labels.first <= fi.labels.second && (fi.labels.second as u64) * (
        PAIR_SIZE as u64) + (PAIR_SIZE as u64) <= (ltn as u64)) {
            return Some(InterpOutcome::Error(FlatError::CorruptBinary));
        }
        if fi.labels.second != fi.labels.first {
            return Some(InterpOutcome::Error(FlatError::ArityMismatch));
        }
        which = fi.labels.first as usize;
    }
    let sp = read_pair_at(view.labels_idxes_store, which);
    let ln = view.labels_store.len();
    if !(sp.first <= sp.second && (sp.second as usize) < ln) {
        return Some(InterpOutcome::Error(FlatError::CorruptBinary));
    }
    let name = get_label_name(view, sp.first, sp.second);
    match get_pc_of_label(view, name) {
        Some(t) => {
            frame.pc = t;
            stack.push(frame);
            proof {
                let a = pre.stack.last();
                assert(stack@.len() == old(stack)@.len() + 1);
                assert(stack_model(old(stack)@).len() == old(stack)@.len());
                assert(pre.stack.drop_last().len() == stack_model(old(stack)@).len());
                assert(stack_model(stack@).len() == stack@.len());
                assert(stack_model(stack@).len() == pre.stack.len());
                assert forall|k: int| 0 <= k < pre.stack.len() - 1 implies stack_model(stack@)[k]
                    == pre.stack[k] by {
                            assert(stack_model(stack@)[k] == act_model(stack@[k]));
                            assert(stack@[k] == old(stack)@[k]);
                            assert(act_model(old(stack)@[k]) == stack_model(old(stack)@)[k]);
                }
                assert(act_model(stack@.last()).pc == t as int);
                assert(stack_model(stack@) =~~= pre.stack.update(
                    pre.stack.len() - 1,
                    SpecActivation { pc: t as int, ..a },
                ));
            }
            None
        },
        None => Some(InterpOutcome::Error(FlatError::UnknownLabel)),
    }
}

/// Performs the `call` branch of one step: resolve the callee, evaluate
/// the arguments, bind the parameters, remember the caller's pending
/// destination, and push the fresh activation.
fn step_call(
    program: &Vec<InstrView>,
    view: &InstrView,
    frame: Activation,
    stack: &mut Vec<Activation>,
    Ghost(pre): Ghost<MState>,
) -> (r: Option<InterpOutcome>)
    requires
        pre.stack.len() >= 1,
        pre.stack.drop_last() == stack_model(old(stack)@),
        pre.stack.last() == act_model(frame),
        0 <= pre.stack.last().fidx < program@.len(),
        *view == program@[pre.stack.last().fidx],
        frame.pc < spec_instr_count(*view),
    ensures
        match spec_call_step(program@, *view, pre, pre.stack.last(), record_at(view.instrs@, pre.stack.last().pc)) {
            StepOut::Next(st2) => r is None && stack_model(final(stack)@) == st2.stack,
            StepOut::Failed(e, _) => r == Some(InterpOutcome::Error(e)),
            StepOut::Finished(_, _) => false,
        },
{
    let _instr_buf_len = view.instrs.len();
    let mut frame = frame;
    let fi = read_record_at(view.instrs, frame.pc);
    if fi.funcs.first == crate::types::ABSENT_IDX && fi.funcs.second == crate::types::ABSENT_IDX {
        return Some(InterpOutcome::Error(FlatError::ParseShape));
    }
    let fsn = view.funcs_store.len();
    if !(fi.funcs.first <= fi.funcs.second && (fi.funcs.second as usize) < fsn) {
        return Some(InterpOutcome::Error(FlatError::CorruptBinary));
    }
    let fname = slice_subrange(
        view.funcs_store,
        fi.funcs.first as usize,
        fi.funcs.second as usize + 1,
    );
    let j = match find_func(program, fname) {
        Some(j) => j,
        None => {
            return Some(InterpOutcome::Error(FlatError::UnboundVariable));
        },
    };
    let vals: Vec<BrilValue> = if fi.args.first == crate::types::ABSENT_IDX && fi.args.second
        == crate::types::ABSENT_IDX {
        Vec::new()
    } else {
        match eval_args(view, &frame.env, fi.args) {
            Ok(v) => v,
            Err(e) => {
                return Some(InterpOutcome::Error(e));
            },
        }
    };
    let cenv = match bind_params(&program[j], &vals) {
        Ok(env) => env,
        Err(e) => {
            return Some(InterpOutcome::Error(e));
        },
    };
    let dest: Option<Vec<u8>> = if fi.dest.first == crate::types::ABSENT_IDX && fi.dest.second
        == crate::types::ABSENT_IDX {
        None
    } else {
        let vn = view.var_store.len();
        if !(fi.dest.first <= fi.dest.second && (fi.dest.second as usize) < vn) {
            return Some(InterpOutcome::Error(FlatError::CorruptBinary));
        }
        Some(vstd::slice::slice_to_vec(get_var(view, fi.dest.first, fi.dest.second)))
    };
    frame.pc = frame.pc + 1;
    frame.dest = dest;
    stack.push(frame);
    stack.push(Activation { fidx: j, pc: 0, env: cenv, dest: None });
    proof {
        let a = pre.stack.last();
        let fi_s = record_at(view.instrs@, a.pc);
        assert(stack@.len() == old(stack)@.len() + 2);
        assert(stack_model(old(stack)@).len() == old(stack)@.len());
        assert(pre.stack.drop_last().len() == stack_model(old(stack)@).len());
        assert(stack_model(stack@).len() == stack@.len());
        assert(stack_model(stack@).len() == pre.stack.len() + 1);
        assert forall|k: int| 0 <= k < pre.stack.len() - 1 implies stack_model(stack@)[k]
            == pre.stack[k] by {
            assert(stack_model(stack@)[k] == act_model(stack@[k]));
            assert(stack@[k] == old(stack)@[k]);
            assert(act_model(old(stack)@[k]) == stack_model(old(stack)@)[k]);
        }
        assert(stack@[pre.stack.len() - 1] == stack@[stack@.len() - 2]);
        assert(act_model(stack@[stack@.len() - 2]).pc == a.pc + 1);
        assert(act_model(stack@[stack@.len() - 2]).dest == spec_call_dest(*view, fi_s));
        assert(act_model(stack@[stack@.len() - 2]).env == a.env);
        assert(act_model(stack@[stack@.len() - 2]).fidx == a.fidx);
        assert(act_model(stack@.last()) == SpecActivation {
            fidx: j as int,
            pc: 0,
            env: cenv@,
            dest: None,
        });
        assert(stack_model(stack@) =~~= pre.stack.update(
            pre.stack.len() - 1,
            SpecActivation { pc: a.pc + 1, dest: spec_call_dest(*view, fi_s), ..a },
        ).push(
            SpecActivation { fidx: j as int, pc: 0, env: cenv@, dest: None },
        ));
    }
    None
}

/// Runs the machine from an already-built entry environment. Prints go to
/// `out` as canonical text lines; `max_steps` bounds the number of machine
/// steps, and a program that does not terminate exhausts any budget.
#[verifier::loop_isolation(false)]
#[verifier::rlimit(100)]
pub fn interp_core(
    program: &Vec<InstrView>,
    entry: usize,
    env0: Environment,
    max_steps: u64,
    out: &mut Vec<Vec<u8>>,
) -> (r: InterpOutcome)
    requires
        entry < program@.len(),
    ensures
        ({
            let st0 = MState {
                stack: seq![
                    SpecActivation { fidx: entry as int, pc: 0, env: env0@, dest: None },
                ],
                out: old(out).deep_view(),
            };
            match spec_run(program@, st0, max_steps as nat) {
                RunOut::Finished(rv, o) => r == InterpOutcome::Finished(rv)
                    && final(out).deep_view() == o,
                RunOut::Failed(e, o) => r == InterpOutcome::Error(e)
                    && final(out).deep_view() == o,
                RunOut::OutOfSteps(o) => r == InterpOutcome::OutOfSteps
                    && final(out).deep_view() == o,
            }
        }),
{
    let mut stack: Vec<Activation> = Vec::new();
    stack.push(Activation { fidx: entry, pc: 0, env: env0, dest: None });
    let ghost st0 = MState { stack: stack_model(stack@), out: out.deep_view() };
    proof {
        assert(stack_model(stack@) =~~= seq![
            SpecActivation { fidx: entry as int, pc: 0, env: env0@, dest: None },
        ]);
    }
    let mut fuel: u64 = max_steps;
    while fuel > 0
        invariant
            stack@.len() >= 1,
            forall|k: int|
                0 <= k < stack_model(stack@).len() ==> 0 <= (#[trigger] stack_model(
                    stack@,
                )[k]).fidx < program@.len(),
            spec_run(program@, st0, max_steps as nat) == spec_run(
                program@,
                (MState { stack: stack_model(stack@), out: out.deep_view() }),
                fuel as nat,
            ),
        decreases fuel,
    {
        let ghost pre = MState { stack: stack_model(stack@), out: out.deep_view() };
        proof {
            assert(pre.stack.last() == act_model(stack@.last()));
            assert(pre.stack[pre.stack.len() - 1].fidx < program@.len());
        }
        let frame = match stack.pop() {
            Some(f) => f,
            None => {
                proof {
                    assert(false);
                }
                return InterpOutcome::OutOfSteps;
            },
        };
        proof {
            assert(stack_model(stack@) =~~= pre.stack.drop_last());
        }
        let view = &program[frame.fidx];
        let n = instr_count(view);
        let step_result: Option<InterpOutcome>;
        if frame.pc >= n {
            // The activation fell off the end: it returns no value.
            step_result = finish_activation(&mut stack, out, None, Ghost(pre));
            proof {
                assert(spec_step(program@, pre) == spec_pop(pre, None));
            }
        } else {
            let fi = read_record_at(view.instrs, frame.pc);
            if fi.op == LABEL_SENTINEL {
                // Labels are transparent at run time.
                let mut frame = frame;
                frame.pc = frame.pc + 1;
                stack.push(frame);
                proof {
                    let a = pre.stack.last();
                    assert(stack_model(stack@) =~~= pre.stack.update(
                        pre.stack.len() - 1,
                        SpecActivation { pc: a.pc + 1, ..a },
                    ));
                }
                step_result = None;
            } else if fi.op >= NUM_OPCODES as u32 {
                return InterpOutcome::Error(FlatError::InvalidOpcode);
            } else {
                let op = Opcode::u32_to_opcode(fi.op);
                match op {
                    Opcode::Const => {
                        step_result = step_const(view, frame, &mut stack, Ghost(pre));
                    },
                    Opcode::Not | Opcode::Id | Opcode::Add | Opcode::Mul | Opcode::Sub
                        | Opcode::Div | Opcode::Eq | Opcode::Lt | Opcode::Gt | Opcode::Le
                        | Opcode::Ge | Opcode::And | Opcode::Or => {
                        step_result = step_value_op(view, op, frame, &mut stack, Ghost(pre));
                    },
                    Opcode::Print => {
                        step_result = step_print(view, frame, &mut stack, out, Ghost(pre));
                    },
                    Opcode::Jmp | Opcode::Br => {
                        step_result = step_jump(view, op, frame, &mut stack, Ghost(pre));
                    },
                    Opcode::Nop => {
                        let mut frame = frame;
                        frame.pc = frame.pc + 1;
                        stack.push(frame);
                        proof {
                            let a = pre.stack.last();
                            assert(stack_model(stack@) =~~= pre.stack.update(
                                pre.stack.len() - 1,
                                SpecActivation { pc: a.pc + 1, ..a },
                            ));
                        }
                        step_result = None;
                    },
                    Opcode::Ret => {
                        if fi.args.first == crate::types::ABSENT_IDX && fi.args.second
                            == crate::types::ABSENT_IDX {
                            step_result = finish_activation(&mut stack, out, None, Ghost(pre));
                        } else {
                            let tn = view.arg_idxes_store.len();
                            if !(fi.args.first <= fi.args.second && (fi.args.second as u64) * (
                            PAIR_SIZE as u64) + (PAIR_SIZE as u64) <= (tn as u64)) {
                                return InterpOutcome::Error(FlatError::CorruptBinary);
                            }
                            if fi.args.second != fi.args.first {
                                return InterpOutcome::Error(FlatError::ArityMismatch);
                            }
                            match eval_args(view, &frame.env, fi.args) {
                                Ok(vals) => {
                                    step_result = finish_activation(
                                        &mut stack,
                                        out,
                                        Some(vals[0]),
                                        Ghost(pre),
                                    );
                                },
                                Err(e) => {
                                    return InterpOutcome::Error(e);
                                },
                            }
                        }
                    },
                    Opcode::Call => {
                        step_result = step_call(program, view, frame, &mut stack, Ghost(pre));
                    },
                }
            }
        }
        match step_result {
            Some(outcome) => {
                return outcome;
            },
            None => {
                proof {
                    lemma_step_preserves_fidx_bounds(program@, pre);
                }
                fuel = fuel - 1;
            },
        }
    }
    InterpOutcome::OutOfSteps
}

/// Whatever step the machine takes from a state whose activations all
/// name functions of the program, the next state's activations do too.
proof fn lemma_step_preserves_fidx_bounds(p: Seq<InstrView>, st: MState)
    requires
        forall|k: int|
            0 <= k < st.stack.len() ==> 0 <= (#[trigger] st.stack[k]).fidx < p.len(),
    ensures
        spec_step(p, st) matches StepOut::Next(st2) ==> forall|k: int|
            0 <= k < st2.stack.len() ==> 0 <= (#[trigger] st2.stack[k]).fidx < p.len(),
{
    if st.stack.len() > 0 {
        let a = st.stack.last();
        if 0 <= a.fidx < p.len() {
            let v = p[a.fidx];
            match spec_step(p, st) {
                StepOut::Next(st2) => {
                    assert forall|k: int|
                        0 <= k < st2.stack.len() implies 0 <= (#[trigger] st2.stack[k]).fidx
                        < p.len() by {
                        lemma_next_frame_source(p, st, st2, k);
                    }
                },
                _ => {},
            }
        }
    }
}

/// Each activation of a successor state either comes from the old stack,
/// is an updated copy of an old activation, or is a callee that the call
/// step resolved inside the program.
proof fn lemma_next_frame_source(p: Seq<InstrView>, st: MState, st2: MState, k: int)
    requires
        forall|j: int|
            0 <= j < st.stack.len() ==> 0 <= (#[trigger] st.stack[j]).fidx < p.len(),
        st.stack.len() > 0,
        0 <= st.stack.last().fidx < p.len(),
        spec_step(p, st) == StepOut::Next(st2),
        0 <= k < st2.stack.len(),
    ensures
        0 <= st2.stack[k].fidx < p.len(),
{
    let a = st.stack.last();
    let v = p[a.fidx];
    if !(0 <= a.pc < spec_instr_count(v)) {
        // A pop: the successor stack is a prefix, possibly with its top's
        // environment updated.
        assert(st2.stack[k].fidx == st.stack[k].fidx);
    } else {
        let fi = record_at(v.instrs@, a.pc);
        if fi.op == LABEL_SENTINEL {
            assert(st2.stack[k].fidx == st.stack[k].fidx);
        } else {
            match op_of_index(fi.op) {
                None => {},
                Some(op) => {
                    if op == Opcode::Call {
                        if k < st2.stack.len() - 1 {
                            assert(st2.stack[k].fidx == st.stack[k].fidx);
                        } else {
                            let fname = span_bytes(v.funcs_store@, fi.funcs);
                            let j = find_func_from(p, fname, 0)->0;
                            lemma_find_func_in_range(p, fname, 0);
                        }
                    } else if op == Opcode::Ret {
                        assert(st2.stack[k].fidx == st.stack[k].fidx);
                    } else {
                        assert(st2.stack[k].fidx == st.stack[k].fidx);
                    }
                },
            }
        }
    }
}

/// A resolved function index lies inside the program.
proof fn lemma_find_func_in_range(p: Seq<InstrView>, name: Seq<u8>, j: int)
    ensures
        find_func_from(p, name, j) matches Some(i) ==> j <= i < p.len(),
    decreases p.len() - j,
{
    if 0 <= j < p.len() {
        if p[j].func_name@ != name {
            lemma_find_func_in_range(p, name, j + 1);
        }
    }
}

/// Runs a program: an ordered set of function views, an entry function,
/// and that function's argument values, checked for count and type against
/// the entry function's declared parameters before the machine starts.
pub fn interp_program(
    program: &Vec<InstrView>,
    entry: usize,
    args: &Vec<BrilValue>,
    max_steps: u64,
    out: &mut Vec<Vec<u8>>,
) -> (r: InterpOutcome)
    requires
        entry < program@.len(),
    ensures
        match spec_bind_params(program@[entry as int], args@) {
            Err(e) => r == InterpOutcome::Error(e)
                && final(out).deep_view() == old(out).deep_view(),
            Ok(env0) => {
                let st0 = MState {
                    stack: seq![
                        SpecActivation { fidx: entry as int, pc: 0, env: env0, dest: None },
                    ],
                    out: old(out).deep_view(),
                };
                match spec_run(program@, st0, max_steps as nat) {
                    RunOut::Finished(rv, o) => r == InterpOutcome::Finished(rv)
                        && final(out).deep_view() == o,
                    RunOut::Failed(e, o) => r == InterpOutcome::Error(e)
                        && final(out).deep_view() == o,
                    RunOut::OutOfSteps(o) => r == InterpOutcome::OutOfSteps
                        && final(out).deep_view() == o,
                }
            },
        },
{
    let env0 = match bind_params(&program[entry], args) {
        Ok(e) => e,
        Err(e) => {
            return InterpOutcome::Error(e);
        },
    };
    interp_core(program, entry, env0, max_steps, out)
}

/// Interprets one function's view with a supplied environment: the machine
/// runs over a program holding just this function, so a `call` can only
/// resolve the function itself.
pub fn interp_instr_view(
    instr_view: &InstrView,
    env: Environment,
    max_steps: u64,
    out: &mut Vec<Vec<u8>>,
) -> (r: InterpOutcome)
    ensures
        ({
            let st0 = MState {
                stack: seq![SpecActivation { fidx: 0, pc: 0, env: env@, dest: None }],
                out: old(out).deep_view(),
            };
            match spec_run(seq![*instr_view], st0, max_steps as nat) {
                RunOut::Finished(rv, o) => r == InterpOutcome::Finished(rv)
                    && final(out).deep_view() == o,
                RunOut::Failed(e, o) => r == InterpOutcome::Error(e)
                    && final(out).deep_view() == o,
                RunOut::OutOfSteps(o) => r == InterpOutcome::OutOfSteps
                    && final(out).deep_view() == o,
            }
        }),
{
    let mut program: Vec<InstrView> = Vec::new();
    program.push(*instr_view);
    proof {
        assert(program@ =~= seq![*instr_view]);
    }
    interp_core(&program, 0, env, max_steps, out)
}

/// The destination the caller remembers across a call, if any.
pub open spec fn spec_call_dest(v: InstrView, fi: FlatInstr) -> Option<Seq<u8>> {
    if is_absent(fi.dest) {
        None
    } else {
        Some(span_bytes(v.var_store@, fi.dest))
    }
}

/// Ends the topmost (already popped) activation of the machine state
/// `pre`: binds the caller's pending destination from `ret` when there is
/// one, and reports the run's result when the entry activation ended.
/// Returns `None` when the machine continues.
fn finish_activation(
    stack: &mut Vec<Activation>,
    out: &Vec<Vec<u8>>,
    ret: Option<BrilValue>,
    Ghost(pre): Ghost<MState>,
) -> (r: Option<InterpOutcome>)
    requires
        pre.stack.len() >= 1,
        pre.stack.drop_last() == stack_model(old(stack)@),
        pre.out == out.deep_view(),
    ensures
        match spec_pop(pre, ret) {
            StepOut::Next(st2) => r is None && stack_model(final(stack)@) == st2.stack
                && st2.out == out.deep_view(),
            StepOut::Finished(rv, o) => r == Some(InterpOutcome::Finished(rv))
                && final(stack)@ == old(stack)@ && o == out.deep_view(),
            StepOut::Failed(e, o) => r == Some(InterpOutcome::Error(e)) && final(stack)@
                == old(stack)@ && o == out.deep_view(),
        },
{
    if stack.len() == 0 {
        return Some(InterpOutcome::Finished(ret));
    }
    let mut caller = match stack.pop() {
        Some(c) => c,
        None => {
            proof {
                assert(false);
            }
            return None;
        },
    };
    proof {
        assert(pre.stack.drop_last().last() == act_model(caller));
        assert(stack_model(stack@) =~~= pre.stack.drop_last().drop_last());
    }
    let has_dest = caller.dest.is_some();
    if has_dest {
        match ret {
            Some(v) => {
                let dname = match &caller.dest {
                    Some(d) => vstd::slice::slice_to_vec(d.as_slice()),
                    None => {
                        proof {
                            assert(false);
                        }
                        Vec::new()
                    },
                };
                caller.env.set(dname.as_slice(), v);
                stack.push(caller);
                proof {
                    let rest = pre.stack.drop_last();
                    let c = rest.last();
                    assert(stack_model(stack@) =~~= rest.update(
                        rest.len() - 1,
                        SpecActivation { env: c.env.insert(c.dest->0, v), ..c },
                    ));
                }
                None
            },
            None => {
                stack.push(caller);
                proof {
                    assert(stack@ =~= old(stack)@);
                }
                Some(InterpOutcome::Error(FlatError::NullValue))
            },
        }
    } else {
        stack.push(caller);
        proof {
            assert(stack@ =~= old(stack)@);
            assert(stack_model(stack@) =~~= pre.stack.drop_last());
        }
        None
    }
}

} // verus!