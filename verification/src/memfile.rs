//! The binary persistence layer: serializes stores into one contiguous byte
//! region (header, then per function a table of contents followed by the
//! buffers verbatim), and reconstructs borrowed views from such a region by
//! offset arithmetic only.
use vstd::prelude::*;

use vstd::bytes::{
    lemma_auto_spec_u32_to_from_le_bytes, lemma_auto_spec_u64_to_from_le_bytes,
    spec_u32_from_le_bytes, spec_u32_to_le_bytes, spec_u64_from_le_bytes, spec_u64_to_le_bytes,
    u32_from_le_bytes, u32_to_le_bytes, u64_from_le_bytes, u64_to_le_bytes,
};
use vstd::slice::slice_subrange;

use crate::types::{
    BrilValue, FlatError, FlatInstr, FuncArg, I32Pair, Instr, InstrOrLabel, InstrStore, Type,
    ABSENT_IDX, LABEL_SENTINEL,
};

verus! {

/// Size in bytes of one serialized `I32Pair`.
pub const PAIR_SIZE: usize = 8;

/// Size in bytes of one serialized `FuncArg` (name span plus type tag).
pub const FUNCARG_SIZE: usize = 12;

/// Size in bytes of one serialized `FlatInstr` record: opcode, four index
/// pairs, type tag, value tag, value payload.
pub const INSTR_SIZE: usize = 52;

/// Size in bytes of the per-function table of contents: nine 32-bit byte
/// lengths, one per buffer, in canonical order.
pub const TOC_SIZE: usize = 36;

/// Fixed capacity of the file header: one 32-bit block length per slot,
/// zero marking an unused slot.
pub const HEADER_SLOTS: usize = 64;

/// Size in bytes of the file header.
pub const HEADER_SIZE: usize = 256;

/// The numeric tag of a type, as stored inline in fixed-width records.
pub open spec fn type_tag(t: Type) -> u32 {
    match t {
        Type::Int => 0,
        Type::Bool => 1,
        Type::Null => 2,
    }
}

/// The type with the given tag, if the tag is valid.
pub open spec fn type_of_tag(v: u32) -> Option<Type> {
    if v == 0 {
        Some(Type::Int)
    } else if v == 1 {
        Some(Type::Bool)
    } else if v == 2 {
        Some(Type::Null)
    } else {
        None
    }
}

/// An optional type collapses to a tag, `Null` standing for absence.
pub open spec fn opt_type_tag(t: Option<Type>) -> u32 {
    match t {
        Some(t0) => type_tag(t0),
        None => type_tag(Type::Null),
    }
}

/// The numeric tag of an inline value.
pub open spec fn value_tag(v: BrilValue) -> u32 {
    match v {
        BrilValue::IntVal(_) => 0,
        BrilValue::BoolVal(_) => 1,
        BrilValue::Null => 2,
    }
}

/// The 64-bit payload of an inline value: the integer's two's-complement
/// bits, a boolean as zero or one, nothing as zero.
pub open spec fn value_payload(v: BrilValue) -> u64 {
    match v {
        BrilValue::IntVal(n) => n as u64,
        BrilValue::BoolVal(b) => if b {
            1
        } else {
            0
        },
        BrilValue::Null => 0,
    }
}

/// The value encoded by a tag and payload, if the pair is valid.
pub open spec fn value_of_tag(tag: u32, payload: u64) -> Option<BrilValue> {
    if tag == 0 {
        Some(BrilValue::IntVal(payload as i64))
    } else if tag == 1 && payload == 0 {
        Some(BrilValue::BoolVal(false))
    } else if tag == 1 && payload == 1 {
        Some(BrilValue::BoolVal(true))
    } else if tag == 2 && payload == 0 {
        Some(BrilValue::Null)
    } else {
        None
    }
}

/// Tag-and-payload encoding of a value reads back as the value it came
/// from.
pub proof fn lemma_value_round_trip(v: BrilValue)
    ensures
        value_of_tag(value_tag(v), value_payload(v)) == Some(v),
{
    if let BrilValue::IntVal(n) = v {
        assert((n as u64) as i64 == n) by (bit_vector);
    }
}

/// An optional index pair collapses to one fixed-width pair, the absent
/// marker standing for `None`.
pub open spec fn opt_pair(o: Option<I32Pair>) -> I32Pair {
    match o {
        Some(p) => p,
        None => I32Pair { first: ABSENT_IDX, second: ABSENT_IDX },
    }
}

/// The fully fixed-width record of one item, as the serialization boundary
/// lowers it: a label marker takes the sentinel opcode and carries its name
/// span in the `labels` slot.
pub open spec fn flat_of_item(it: InstrOrLabel) -> FlatInstr {
    match it {
        InstrOrLabel::Label(p) => FlatInstr {
            op: LABEL_SENTINEL,
            dest: opt_pair(None),
            args: opt_pair(None),
            labels: p,
            funcs: opt_pair(None),
            ty: Type::Null,
            value: BrilValue::Null,
        },
        InstrOrLabel::Instr(i) => FlatInstr {
            op: i.op,
            dest: opt_pair(i.dest),
            args: opt_pair(i.args),
            labels: opt_pair(i.labels),
            funcs: opt_pair(i.funcs),
            ty: match i.ty {
                Some(t) => t,
                None => Type::Null,
            },
            value: match i.value {
                Some(v) => v,
                None => BrilValue::Null,
            },
        },
    }
}

/// The serialized bytes of one index pair.
pub open spec fn pair_bytes(p: I32Pair) -> Seq<u8> {
    spec_u32_to_le_bytes(p.first) + spec_u32_to_le_bytes(p.second)
}

/// The serialized bytes of a span table.
pub open spec fn pairs_bytes(t: Seq<I32Pair>) -> Seq<u8>
    decreases t.len(),
{
    if t.len() == 0 {
        Seq::empty()
    } else {
        pair_bytes(t[0]) + pairs_bytes(t.drop_first())
    }
}

/// The serialized bytes of one declared parameter.
pub open spec fn funcarg_bytes(a: FuncArg) -> Seq<u8> {
    pair_bytes(a.arg_name_idxes) + spec_u32_to_le_bytes(type_tag(a.arg_type))
}

/// The serialized bytes of the parameter list.
pub open spec fn funcargs_bytes(t: Seq<FuncArg>) -> Seq<u8>
    decreases t.len(),
{
    if t.len() == 0 {
        Seq::empty()
    } else {
        funcarg_bytes(t[0]) + funcargs_bytes(t.drop_first())
    }
}

/// The serialized bytes of one fixed-width instruction record.
pub open spec fn instr_bytes(fi: FlatInstr) -> Seq<u8> {
    spec_u32_to_le_bytes(fi.op) + pair_bytes(fi.dest) + pair_bytes(fi.args) + pair_bytes(fi.labels)
        + pair_bytes(fi.funcs) + spec_u32_to_le_bytes(type_tag(fi.ty)) + spec_u32_to_le_bytes(
        value_tag(fi.value),
    ) + spec_u64_to_le_bytes(value_payload(fi.value))
}

/// The serialized bytes of the item list, one fixed-width record per item.
pub open spec fn instrs_bytes(t: Seq<InstrOrLabel>) -> Seq<u8>
    decreases t.len(),
{
    if t.len() == 0 {
        Seq::empty()
    } else {
        instr_bytes(flat_of_item(t[0])) + instrs_bytes(t.drop_first())
    }
}

/// Record serializations have fixed widths.
pub proof fn lemma_record_sizes()
    ensures
        forall|p: I32Pair| (#[trigger] pair_bytes(p)).len() == PAIR_SIZE,
        forall|a: FuncArg| (#[trigger] funcarg_bytes(a)).len() == FUNCARG_SIZE,
        forall|fi: FlatInstr| (#[trigger] instr_bytes(fi)).len() == INSTR_SIZE,
{
    lemma_auto_spec_u32_to_from_le_bytes();
    lemma_auto_spec_u64_to_from_le_bytes();
}

/// The serialized span table is eight bytes per entry.
pub proof fn lemma_pairs_bytes_len(t: Seq<I32Pair>)
    ensures
        pairs_bytes(t).len() == PAIR_SIZE * t.len(),
    decreases t.len(),
{
    lemma_record_sizes();
    if t.len() > 0 {
        lemma_pairs_bytes_len(t.drop_first());
    }
}

/// The serialized parameter list is twelve bytes per entry.
pub proof fn lemma_funcargs_bytes_len(t: Seq<FuncArg>)
    ensures
        funcargs_bytes(t).len() == FUNCARG_SIZE * t.len(),
    decreases t.len(),
{
    lemma_record_sizes();
    if t.len() > 0 {
        lemma_funcargs_bytes_len(t.drop_first());
    }
}

/// The serialized item list is fifty-two bytes per entry.
pub proof fn lemma_instrs_bytes_len(t: Seq<InstrOrLabel>)
    ensures
        instrs_bytes(t).len() == INSTR_SIZE * t.len(),
    decreases t.len(),
{
    lemma_record_sizes();
    if t.len() > 0 {
        lemma_instrs_bytes_len(t.drop_first());
    }
}

/// Appending one entry to a span-table prefix appends that entry's bytes.
pub proof fn lemma_pairs_bytes_take_step(t: Seq<I32Pair>, i: int)
    requires
        0 <= i < t.len(),
    ensures
        pairs_bytes(t.take(i + 1)) == pairs_bytes(t.take(i)) + pair_bytes(t[i]),
    decreases i,
{
    if i == 0 {
        assert(t.take(1).drop_first() =~= t.take(0));
        assert(t.take(1)[0] == t[0]);
        assert(pairs_bytes(t.take(0)) == Seq::<u8>::empty());
        assert(pairs_bytes(t.take(1)) =~= pairs_bytes(t.take(0)) + pair_bytes(t[0]));
    } else {
        lemma_pairs_bytes_take_step(t.drop_first(), i - 1);
        assert(t.take(i + 1).drop_first() =~= t.drop_first().take(i));
        assert(t.take(i).drop_first() =~= t.drop_first().take(i - 1));
        assert(t.take(i + 1)[0] == t[0]);
        assert(t.take(i)[0] == t[0]);
        assert(t.drop_first()[i - 1] == t[i]);
        assert(pairs_bytes(t.take(i + 1)) =~= pairs_bytes(t.take(i)) + pair_bytes(t[i]));
    }
}

/// Appending one parameter to a prefix appends that parameter's bytes.
pub proof fn lemma_funcargs_bytes_take_step(t: Seq<FuncArg>, i: int)
    requires
        0 <= i < t.len(),
    ensures
        funcargs_bytes(t.take(i + 1)) == funcargs_bytes(t.take(i)) + funcarg_bytes(t[i]),
    decreases i,
{
    if i == 0 {
        assert(t.take(1).drop_first() =~= t.take(0));
        assert(t.take(1)[0] == t[0]);
        assert(funcargs_bytes(t.take(0)) == Seq::<u8>::empty());
        assert(funcargs_bytes(t.take(1)) =~= funcargs_bytes(t.take(0)) + funcarg_bytes(t[0]));
    } else {
        lemma_funcargs_bytes_take_step(t.drop_first(), i - 1);
        assert(t.take(i + 1).drop_first() =~= t.drop_first().take(i));
        assert(t.take(i).drop_first() =~= t.drop_first().take(i - 1));
        assert(t.take(i + 1)[0] == t[0]);
        assert(t.take(i)[0] == t[0]);
        assert(t.drop_first()[i - 1] == t[i]);
        assert(funcargs_bytes(t.take(i + 1)) =~= funcargs_bytes(t.take(i)) + funcarg_bytes(t[i]));
    }
}

/// Appending one item to a prefix appends that item's record bytes.
pub proof fn lemma_instrs_bytes_take_step(t: Seq<InstrOrLabel>, i: int)
    requires
        0 <= i < t.len(),
    ensures
        instrs_bytes(t.take(i + 1)) == instrs_bytes(t.take(i)) + instr_bytes(
            flat_of_item(t[i]),
        ),
    decreases i,
{
    if i == 0 {
        assert(t.take(1).drop_first() =~= t.take(0));
        assert(t.take(1)[0] == t[0]);
        assert(instrs_bytes(t.take(0)) == Seq::<u8>::empty());
        assert(instrs_bytes(t.take(1)) =~= instrs_bytes(t.take(0)) + instr_bytes(
            flat_of_item(t[0]),
        ));
    } else {
        lemma_instrs_bytes_take_step(t.drop_first(), i - 1);
        assert(t.take(i + 1).drop_first() =~= t.drop_first().take(i));
        assert(t.take(i).drop_first() =~= t.drop_first().take(i - 1));
        assert(t.take(i + 1)[0] == t[0]);
        assert(t.take(i)[0] == t[0]);
        assert(t.drop_first()[i - 1] == t[i]);
        assert(instrs_bytes(t.take(i + 1)) =~= instrs_bytes(t.take(i)) + instr_bytes(
            flat_of_item(t[i]),
        ));
    }
}

/// The decoded table of contents of one function block: the byte length of
/// each buffer, in canonical order.
#[derive(Debug, PartialEq, Eq, Structural, Clone, Copy)]
pub struct Toc {
    pub func_name: u32,
    pub func_args: u32,
    pub func_ret_ty: u32,
    pub var_store: u32,
    pub arg_idxes_store: u32,
    pub labels_idxes_store: u32,
    pub labels_store: u32,
    pub funcs_store: u32,
    pub instrs: u32,
}

/// The table of contents a store serializes to: one byte length per buffer.
pub open spec fn toc_of(s: InstrStore) -> Toc {
    Toc {
        func_name: s.func_name@.len() as u32,
        func_args: (FUNCARG_SIZE * s.func_args@.len()) as u32,
        func_ret_ty: 4u32,
        var_store: s.var_store@.len() as u32,
        arg_idxes_store: (PAIR_SIZE * s.args_idxes_store@.len()) as u32,
        labels_idxes_store: (PAIR_SIZE * s.labels_idxes_store@.len()) as u32,
        labels_store: s.labels_store@.len() as u32,
        funcs_store: s.funcs_store@.len() as u32,
        instrs: (INSTR_SIZE * s.instrs_and_labels@.len()) as u32,
    }
}

/// The serialized bytes of a table of contents.
pub open spec fn toc_bytes(t: Toc) -> Seq<u8> {
    spec_u32_to_le_bytes(t.func_name) + spec_u32_to_le_bytes(t.func_args) + spec_u32_to_le_bytes(
        t.func_ret_ty,
    ) + spec_u32_to_le_bytes(t.var_store) + spec_u32_to_le_bytes(t.arg_idxes_store)
        + spec_u32_to_le_bytes(t.labels_idxes_store) + spec_u32_to_le_bytes(t.labels_store)
        + spec_u32_to_le_bytes(t.funcs_store) + spec_u32_to_le_bytes(t.instrs)
}

/// The record buffers of a store stay within the fixed 32-bit length
/// fields of its table of contents, and the whole block length fits one
/// header slot.
pub open spec fn store_fits_block(s: InstrStore) -> bool {
    &&& FUNCARG_SIZE * s.func_args@.len() <= u32::MAX
    &&& PAIR_SIZE * s.args_idxes_store@.len() <= u32::MAX
    &&& PAIR_SIZE * s.labels_idxes_store@.len() <= u32::MAX
    &&& INSTR_SIZE * s.instrs_and_labels@.len() <= u32::MAX
    &&& block_len(s) <= u32::MAX
}

/// The byte length of a store's serialized block.
pub open spec fn block_len(s: InstrStore) -> int {
    TOC_SIZE + s.func_name@.len() + FUNCARG_SIZE * s.func_args@.len() + 4 + s.var_store@.len()
        + PAIR_SIZE * s.args_idxes_store@.len() + PAIR_SIZE * s.labels_idxes_store@.len()
        + s.labels_store@.len() + s.funcs_store@.len() + INSTR_SIZE * s.instrs_and_labels@.len()
}

/// The serialized bytes of one function block: the table of contents, then
/// every buffer verbatim in canonical order. Lengths are never written
/// inline; they all come from the table of contents.
pub open spec fn block_bytes(s: InstrStore) -> Seq<u8> {
    toc_bytes(toc_of(s)) + s.func_name@ + funcargs_bytes(s.func_args@) + spec_u32_to_le_bytes(
        opt_type_tag(s.func_ret_ty),
    ) + s.var_store@ + pairs_bytes(s.args_idxes_store@) + pairs_bytes(s.labels_idxes_store@)
        + s.labels_store@ + s.funcs_store@ + instrs_bytes(s.instrs_and_labels@)
}

/// A block is as long as its table of contents says.
pub proof fn lemma_block_bytes_len(s: InstrStore)
    ensures
        block_bytes(s).len() == block_len(s),
{
    lemma_auto_spec_u32_to_from_le_bytes();
    lemma_funcargs_bytes_len(s.func_args@);
    lemma_pairs_bytes_len(s.args_idxes_store@);
    lemma_pairs_bytes_len(s.labels_idxes_store@);
    lemma_instrs_bytes_len(s.instrs_and_labels@);
}

/// Writes `data` verbatim onto the end of `buffer`.
pub fn write_bytes(buffer: &mut Vec<u8>, data: &[u8])
    ensures
        final(buffer)@ == old(buffer)@ + data@,
{
    let mut j: usize = 0;
    while j < data.len()
        invariant
            j <= data@.len(),
            buffer@ == old(buffer)@ + data@.take(j as int),
        decreases data@.len() - j,
    {
        buffer.push(data[j]);
        proof {
            assert(data@.take(j + 1 as int) =~= data@.take(j as int).push(data@[j as int]));
        }
        j += 1;
    }
    proof {
        assert(data@.take(data@.len() as int) =~= data@);
    }
}

/// Writes one 32-bit length or tag, little endian.
fn write_u32(buffer: &mut Vec<u8>, x: u32)
    ensures
        final(buffer)@ == old(buffer)@ + spec_u32_to_le_bytes(x),
{
    let v = u32_to_le_bytes(x);
    write_bytes(buffer, v.as_slice());
}

/// Writes one 64-bit payload, little endian.
fn write_u64(buffer: &mut Vec<u8>, x: u64)
    ensures
        final(buffer)@ == old(buffer)@ + spec_u64_to_le_bytes(x),
{
    let v = u64_to_le_bytes(x);
    write_bytes(buffer, v.as_slice());
}

/// Writes one index pair.
fn write_pair(buffer: &mut Vec<u8>, p: I32Pair)
    ensures
        final(buffer)@ == old(buffer)@ + pair_bytes(p),
{
    write_u32(buffer, p.first);
    write_u32(buffer, p.second);
    proof {
        assert(buffer@ =~= old(buffer)@ + pair_bytes(p));
    }
}

/// Writes a whole span table.
fn write_pairs(buffer: &mut Vec<u8>, t: &Vec<I32Pair>)
    ensures
        final(buffer)@ == old(buffer)@ + pairs_bytes(t@),
{
    let mut j: usize = 0;
    while j < t.len()
        invariant
            j <= t@.len(),
            buffer@ == old(buffer)@ + pairs_bytes(t@.take(j as int)),
        decreases t@.len() - j,
    {
        write_pair(buffer, t[j]);
        proof {
            lemma_pairs_bytes_take_step(t@, j as int);
            assert(buffer@ =~= old(buffer)@ + pairs_bytes(t@.take(j + 1 as int)));
        }
        j += 1;
    }
    proof {
        assert(t@.take(t@.len() as int) =~= t@);
    }
}

/// Writes the whole parameter list.
fn write_funcargs(buffer: &mut Vec<u8>, t: &Vec<FuncArg>)
    ensures
        final(buffer)@ == old(buffer)@ + funcargs_bytes(t@),
{
    let mut j: usize = 0;
    while j < t.len()
        invariant
            j <= t@.len(),
            buffer@ == old(buffer)@ + funcargs_bytes(t@.take(j as int)),
        decreases t@.len() - j,
    {
        let a = t[j];
        write_pair(buffer, a.arg_name_idxes);
        let tag: u32 = match a.arg_type {
            Type::Int => 0,
            Type::Bool => 1,
            Type::Null => 2,
        };
        write_u32(buffer, tag);
        proof {
            lemma_funcargs_bytes_take_step(t@, j as int);
            assert(buffer@ =~= old(buffer)@ + funcargs_bytes(t@.take(j + 1 as int)));
        }
        j += 1;
    }
    proof {
        assert(t@.take(t@.len() as int) =~= t@);
    }
}

/// Lowers one item to its fully fixed-width record.
fn item_to_flat(it: &InstrOrLabel) -> (fi: FlatInstr)
    ensures
        fi == flat_of_item(*it),
{
    match it {
        InstrOrLabel::Label(p) => FlatInstr {
            op: LABEL_SENTINEL,
            dest: I32Pair { first: ABSENT_IDX, second: ABSENT_IDX },
            args: I32Pair { first: ABSENT_IDX, second: ABSENT_IDX },
            labels: *p,
            funcs: I32Pair { first: ABSENT_IDX, second: ABSENT_IDX },
            ty: Type::Null,
            value: BrilValue::Null,
        },
        InstrOrLabel::Instr(i) => {
            let absent = I32Pair { first: ABSENT_IDX, second: ABSENT_IDX };
            FlatInstr {
                op: i.op,
                dest: match i.dest {
                    Some(p) => p,
                    None => absent,
                },
                args: match i.args {
                    Some(p) => p,
                    None => absent,
                },
                labels: match i.labels {
                    Some(p) => p,
                    None => absent,
                },
                funcs: match i.funcs {
                    Some(p) => p,
                    None => absent,
                },
                ty: match i.ty {
                    Some(t) => t,
                    None => Type::Null,
                },
                value: match i.value {
                    Some(v) => v,
                    None => BrilValue::Null,
                },
            }
        },
    }
}

/// Writes one fixed-width instruction record.
fn write_instr(buffer: &mut Vec<u8>, fi: FlatInstr)
    ensures
        final(buffer)@ == old(buffer)@ + instr_bytes(fi),
{
    write_u32(buffer, fi.op);
    write_pair(buffer, fi.dest);
    write_pair(buffer, fi.args);
    write_pair(buffer, fi.labels);
    write_pair(buffer, fi.funcs);
    let ty_tag_v: u32 = match fi.ty {
        Type::Int => 0,
        Type::Bool => 1,
        Type::Null => 2,
    };
    write_u32(buffer, ty_tag_v);
    let (vtag, payload): (u32, u64) = match fi.value {
        BrilValue::IntVal(n) => (0u32, #[verifier::truncate] (n as u64)),
        BrilValue::BoolVal(b) => (1u32, if b {
            1u64
        } else {
            0u64
        }),
        BrilValue::Null => (2u32, 0u64),
    };
    write_u32(buffer, vtag);
    write_u64(buffer, payload);
    proof {
        assert(buffer@ =~= old(buffer)@ + instr_bytes(fi));
    }
}

/// Writes the whole item list as fixed-width records.
fn write_instrs(buffer: &mut Vec<u8>, t: &Vec<InstrOrLabel>)
    ensures
        final(buffer)@ == old(buffer)@ + instrs_bytes(t@),
{
    let mut j: usize = 0;
    while j < t.len()
        invariant
            j <= t@.len(),
            buffer@ == old(buffer)@ + instrs_bytes(t@.take(j as int)),
        decreases t@.len() - j,
    {
        let fi = item_to_flat(&t[j]);
        write_instr(buffer, fi);
        proof {
            lemma_instrs_bytes_take_step(t@, j as int);
            assert(buffer@ =~= old(buffer)@ + instrs_bytes(t@.take(j + 1 as int)));
        }
        j += 1;
    }
    proof {
        assert(t@.take(t@.len() as int) =~= t@);
    }
}

/// Serializes one store onto the end of `buffer`: its table of contents,
/// then every buffer verbatim in canonical order.
#[verifier::rlimit(100)]
#[verifier::spinoff_prover]
pub fn dump_to_buffer(s: &InstrStore, buffer: &mut Vec<u8>)
    requires
        crate::model::store_wf(*s),
        store_fits_block(*s),
    ensures
        final(buffer)@ == old(buffer)@ + block_bytes(*s),
{
    proof {
        lemma_record_sizes();
    }
    write_u32(buffer, s.func_name.len() as u32);
    write_u32(buffer, (s.func_args.len() as u64 * FUNCARG_SIZE as u64) as u32);
    write_u32(buffer, 4u32);
    write_u32(buffer, s.var_store.len() as u32);
    write_u32(buffer, (s.args_idxes_store.len() as u64 * PAIR_SIZE as u64) as u32);
    write_u32(buffer, (s.labels_idxes_store.len() as u64 * PAIR_SIZE as u64) as u32);
    write_u32(buffer, s.labels_store.len() as u32);
    write_u32(buffer, s.funcs_store.len() as u32);
    write_u32(buffer, (s.instrs_and_labels.len() as u64 * INSTR_SIZE as u64) as u32);
    proof {
        assert(buffer@ =~= old(buffer)@ + toc_bytes(toc_of(*s)));
    }
    let ghost after_toc = buffer@;
    write_bytes(buffer, s.func_name.as_slice());
    write_funcargs(buffer, &s.func_args);
    let ret_tag: u32 = match s.func_ret_ty {
        Some(Type::Int) => 0,
        Some(Type::Bool) => 1,
        Some(Type::Null) => 2,
        None => 2,
    };
    write_u32(buffer, ret_tag);
    write_bytes(buffer, s.var_store.as_slice());
    write_pairs(buffer, &s.args_idxes_store);
    write_pairs(buffer, &s.labels_idxes_store);
    write_bytes(buffer, s.labels_store.as_slice());
    write_bytes(buffer, s.funcs_store.as_slice());
    write_instrs(buffer, &s.instrs_and_labels);
    proof {
        assert(buffer@ =~= after_toc + s.func_name@ + funcargs_bytes(s.func_args@)
            + spec_u32_to_le_bytes(opt_type_tag(s.func_ret_ty)) + s.var_store@ + pairs_bytes(
            s.args_idxes_store@,
        ) + pairs_bytes(s.labels_idxes_store@) + s.labels_store@ + s.funcs_store@ + instrs_bytes(
            s.instrs_and_labels@,
        ));
        assert(buffer@ =~= old(buffer)@ + block_bytes(*s));
    }
}

/// The borrowed counterpart of `InstrStore`: every field is a read-only
/// slice of one contiguous byte region, carved out by table-of-contents
/// offsets only — record buffers stay as raw bytes and are decoded on
/// access. A view must not outlive its backing region.
#[derive(Debug, Clone, Copy)]
pub struct InstrView<'a> {
    pub func_name: &'a [u8],
    pub func_args: &'a [u8],
    pub func_ret_ty: Type,
    pub var_store: &'a [u8],
    pub arg_idxes_store: &'a [u8],
    pub labels_idxes_store: &'a [u8],
    pub labels_store: &'a [u8],
    pub funcs_store: &'a [u8],
    pub instrs: &'a [u8],
}

/// The byte-level content of a view, for specifications.
pub struct ViewParts {
    pub func_name: Seq<u8>,
    pub func_args: Seq<u8>,
    pub func_ret_ty: Type,
    pub var_store: Seq<u8>,
    pub arg_idxes_store: Seq<u8>,
    pub labels_idxes_store: Seq<u8>,
    pub labels_store: Seq<u8>,
    pub funcs_store: Seq<u8>,
    pub instrs: Seq<u8>,
}

/// The content of a view.
pub open spec fn view_parts_of(v: InstrView) -> ViewParts {
    ViewParts {
        func_name: v.func_name@,
        func_args: v.func_args@,
        func_ret_ty: v.func_ret_ty,
        var_store: v.var_store@,
        arg_idxes_store: v.arg_idxes_store@,
        labels_idxes_store: v.labels_idxes_store@,
        labels_store: v.labels_store@,
        funcs_store: v.funcs_store@,
        instrs: v.instrs@,
    }
}

/// The `k`-th 32-bit length of a serialized table of contents.
pub open spec fn toc_entry(d: Seq<u8>, k: int) -> u32 {
    spec_u32_from_le_bytes(d.subrange(4 * k, 4 * k + 4))
}

/// Reads a whole function block: the table of contents, then the buffer
/// boundaries it dictates. `None` when the block is truncated, the lengths
/// do not add up to the block, a record buffer's length is not a multiple
/// of its record size, or the return-type tag is invalid.
pub open spec fn parse_block(d: Seq<u8>) -> Option<ViewParts> {
    if d.len() < TOC_SIZE {
        None
    } else {
        let l0 = toc_entry(d, 0) as int;
        let l1 = toc_entry(d, 1) as int;
        let l2 = toc_entry(d, 2) as int;
        let l3 = toc_entry(d, 3) as int;
        let l4 = toc_entry(d, 4) as int;
        let l5 = toc_entry(d, 5) as int;
        let l6 = toc_entry(d, 6) as int;
        let l7 = toc_entry(d, 7) as int;
        let l8 = toc_entry(d, 8) as int;
        let o0 = TOC_SIZE as int;
        let o1 = o0 + l0;
        let o2 = o1 + l1;
        let o3 = o2 + l2;
        let o4 = o3 + l3;
        let o5 = o4 + l4;
        let o6 = o5 + l5;
        let o7 = o6 + l6;
        let o8 = o7 + l7;
        if o8 + l8 == d.len() && l2 == 4 && l1 % (FUNCARG_SIZE as int) == 0 && l4 % (
        PAIR_SIZE as int) == 0 && l5 % (PAIR_SIZE as int) == 0 && l8 % (INSTR_SIZE as int) == 0
            && type_of_tag(spec_u32_from_le_bytes(d.subrange(o2, o2 + 4))) is Some {
            Some(
                ViewParts {
                    func_name: d.subrange(o0, o1),
                    func_args: d.subrange(o1, o2),
                    func_ret_ty: type_of_tag(spec_u32_from_le_bytes(d.subrange(o2, o2 + 4)))->0,
                    var_store: d.subrange(o3, o4),
                    arg_idxes_store: d.subrange(o4, o5),
                    labels_idxes_store: d.subrange(o5, o6),
                    labels_store: d.subrange(o6, o7),
                    funcs_store: d.subrange(o7, o8),
                    instrs: d.subrange(o8, d.len() as int),
                },
            )
        } else {
            None
        }
    }
}

/// Reads one 32-bit little-endian integer at a byte offset.
fn read_u32_at(data: &[u8], off: usize) -> (x: u32)
    requires
        off + 4 <= data@.len(),
    ensures
        x == spec_u32_from_le_bytes(data@.subrange(off as int, off as int + 4)),
{
    let n = data.len();
    let s = slice_subrange(data, off, off + 4);
    u32_from_le_bytes(s)
}

/// Reads the table of contents from the prefix of a block;
/// `CorruptBinary` when fewer bytes than a table of contents are left.
pub fn read_toc(data: &[u8]) -> (r: Result<Toc, FlatError>)
    ensures
        r is Ok <==> data@.len() >= TOC_SIZE,
        r matches Ok(t) ==> {
            &&& t.func_name == toc_entry(data@, 0)
            &&& t.func_args == toc_entry(data@, 1)
            &&& t.func_ret_ty == toc_entry(data@, 2)
            &&& t.var_store == toc_entry(data@, 3)
            &&& t.arg_idxes_store == toc_entry(data@, 4)
            &&& t.labels_idxes_store == toc_entry(data@, 5)
            &&& t.labels_store == toc_entry(data@, 6)
            &&& t.funcs_store == toc_entry(data@, 7)
            &&& t.instrs == toc_entry(data@, 8)
        },
        r matches Err(e) ==> e == FlatError::CorruptBinary,
{
    if data.len() < TOC_SIZE {
        return Err(FlatError::CorruptBinary);
    }
    Ok(
        Toc {
            func_name: read_u32_at(data, 0),
            func_args: read_u32_at(data, 4),
            func_ret_ty: read_u32_at(data, 8),
            var_store: read_u32_at(data, 12),
            arg_idxes_store: read_u32_at(data, 16),
            labels_idxes_store: read_u32_at(data, 20),
            labels_store: read_u32_at(data, 24),
            funcs_store: read_u32_at(data, 28),
            instrs: read_u32_at(data, 32),
        },
    )
}

/// Carves one function block into a borrowed view, strictly following the
/// table of contents: offset arithmetic and slicing only, no copy.
/// Succeeds exactly when the block parses.
pub fn get_instr_view<'a>(data: &'a [u8]) -> (r: Result<InstrView<'a>, FlatError>)
    ensures
        r is Ok <==> parse_block(data@) is Some,
        r matches Ok(v) ==> Some(view_parts_of(v)) == parse_block(data@),
        r matches Err(e) ==> e == FlatError::CorruptBinary,
{
    let toc = match read_toc(data) {
        Ok(t) => t,
        Err(e) => {
            return Err(e);
        },
    };
    let total: u64 = TOC_SIZE as u64 + toc.func_name as u64 + toc.func_args as u64
        + toc.func_ret_ty as u64 + toc.var_store as u64 + toc.arg_idxes_store as u64
        + toc.labels_idxes_store as u64 + toc.labels_store as u64 + toc.funcs_store as u64
        + toc.instrs as u64;
    if total != data.len() as u64 {
        return Err(FlatError::CorruptBinary);
    }
    if toc.func_ret_ty != 4 {
        return Err(FlatError::CorruptBinary);
    }
    if toc.func_args % (FUNCARG_SIZE as u32) != 0 {
        return Err(FlatError::CorruptBinary);
    }
    if toc.arg_idxes_store % (PAIR_SIZE as u32) != 0 {
        return Err(FlatError::CorruptBinary);
    }
    if toc.labels_idxes_store % (PAIR_SIZE as u32) != 0 {
        return Err(FlatError::CorruptBinary);
    }
    if toc.instrs % (INSTR_SIZE as u32) != 0 {
        return Err(FlatError::CorruptBinary);
    }
    let o0: usize = TOC_SIZE;
    let o1: usize = o0 + toc.func_name as usize;
    let o2: usize = o1 + toc.func_args as usize;
    let o3: usize = o2 + 4;
    let o4: usize = o3 + toc.var_store as usize;
    let o5: usize = o4 + toc.arg_idxes_store as usize;
    let o6: usize = o5 + toc.labels_idxes_store as usize;
    let o7: usize = o6 + toc.labels_store as usize;
    let o8: usize = o7 + toc.funcs_store as usize;
    let ret_tag = read_u32_at(data, o2);
    let func_ret_ty = if ret_tag == 0 {
        Type::Int
    } else if ret_tag == 1 {
        Type::Bool
    } else if ret_tag == 2 {
        Type::Null
    } else {
        return Err(FlatError::CorruptBinary);
    };
    Ok(
        InstrView {
            func_name: slice_subrange(data, o0, o1),
            func_args: slice_subrange(data, o1, o2),
            func_ret_ty,
            var_store: slice_subrange(data, o3, o4),
            arg_idxes_store: slice_subrange(data, o4, o5),
            labels_idxes_store: slice_subrange(data, o5, o6),
            labels_store: slice_subrange(data, o6, o7),
            funcs_store: slice_subrange(data, o7, o8),
            instrs: slice_subrange(data, o8, data.len()),
        },
    )
}

/// The serialized blocks of a list of stores, concatenated in order.
pub open spec fn blocks_bytes(ss: Seq<InstrStore>) -> Seq<u8>
    decreases ss.len(),
{
    if ss.len() == 0 {
        Seq::empty()
    } else {
        block_bytes(ss[0]) + blocks_bytes(ss.drop_first())
    }
}

/// The file header's slots from `k` on: each used slot holds its block's
/// byte length, unused slots hold zero.
pub open spec fn header_slots_bytes(ss: Seq<InstrStore>, k: int) -> Seq<u8>
    decreases HEADER_SLOTS - k,
{
    if k < 0 || k >= HEADER_SLOTS {
        Seq::empty()
    } else {
        let l: u32 = if k < ss.len() {
            block_len(ss[k]) as u32
        } else {
            0
        };
        spec_u32_to_le_bytes(l) + header_slots_bytes(ss, k + 1)
    }
}

/// The whole persisted region: the fixed-capacity header, then every
/// function block in order.
pub open spec fn program_bytes(ss: Seq<InstrStore>) -> Seq<u8> {
    header_slots_bytes(ss, 0) + blocks_bytes(ss)
}

/// Checks at run time that a store's serialized block fits one header
/// slot.
pub fn check_fits_block(s: &InstrStore) -> (r: bool)
    requires
        crate::model::store_wf(*s),
    ensures
        r == store_fits_block(*s),
{
    if s.instrs_and_labels.len() as u64 > u32::MAX as u64 {
        return false;
    }
    proof {
        assert(s.instrs_and_labels@.len() <= u32::MAX);
    }
    let fa = s.func_args.len() as u64 * 12;
    let ai = s.args_idxes_store.len() as u64 * 8;
    let li = s.labels_idxes_store.len() as u64 * 8;
    let ins = s.instrs_and_labels.len() as u64 * 52;
    if fa > u32::MAX as u64 || ai > u32::MAX as u64 || li > u32::MAX as u64 || ins
        > u32::MAX as u64 {
        return false;
    }
    let total: u64 = TOC_SIZE as u64 + s.func_name.len() as u64 + fa + 4 + s.var_store.len() as u64
        + ai + li + s.labels_store.len() as u64 + s.funcs_store.len() as u64 + ins;
    total <= u32::MAX as u64
}

/// Serializes a list of stores into one byte region: the header records
/// each block's total length (zero marking an unused slot), then the
/// blocks follow in order. Fails with `CorruptBinary` when there are more
/// functions than header slots or a block outgrows its 32-bit length
/// field.
#[verifier::loop_isolation(false)]
pub fn encode_program(stores: &Vec<InstrStore>) -> (r: Result<Vec<u8>, FlatError>)
    requires
        forall|k: int| 0 <= k < stores@.len() ==> crate::model::store_wf(#[trigger] stores@[k]),
    ensures
        r is Ok <==> stores@.len() <= HEADER_SLOTS && (forall|k: int|
            0 <= k < stores@.len() ==> store_fits_block(#[trigger] stores@[k])),
        r matches Ok(bytes) ==> bytes@ == program_bytes(stores@),
        r matches Err(e) ==> e == FlatError::CorruptBinary,
{
    if stores.len() > HEADER_SLOTS {
        return Err(FlatError::CorruptBinary);
    }
    let mut k: usize = 0;
    while k < stores.len()
        invariant
            k <= stores@.len(),
            forall|j: int| 0 <= j < k ==> store_fits_block(#[trigger] stores@[j]),
        decreases stores@.len() - k,
    {
        if !check_fits_block(&stores[k]) {
            return Err(FlatError::CorruptBinary);
        }
        k += 1;
    }
    let mut bytes: Vec<u8> = Vec::new();
    let mut h: usize = 0;
    while h < HEADER_SLOTS
        invariant
            h <= HEADER_SLOTS,
            bytes@ + header_slots_bytes(stores@, h as int) == header_slots_bytes(stores@, 0),
        decreases HEADER_SLOTS - h,
    {
        let l: u32 = if h < stores.len() {
            proof {
                crate::memfile::lemma_block_bytes_len(stores@[h as int]);
            }
            let s = &stores[h];
            (36 + s.func_name.len() as u64 + s.func_args.len() as u64 * 12 + 4
                + s.var_store.len() as u64 + s.args_idxes_store.len() as u64 * 8
                + s.labels_idxes_store.len() as u64 * 8 + s.labels_store.len() as u64
                + s.funcs_store.len() as u64 + s.instrs_and_labels.len() as u64 * 52) as u32
        } else {
            0
        };
        let ghost before = bytes@;
        write_u32(&mut bytes, l);
        proof {
            assert(before + (spec_u32_to_le_bytes(l) + header_slots_bytes(stores@, h + 1))
                =~= bytes@ + header_slots_bytes(stores@, h + 1));
        }
        h += 1;
    }
    proof {
        assert(bytes@ + header_slots_bytes(stores@, HEADER_SLOTS as int) =~= bytes@);
        assert(bytes@ == header_slots_bytes(stores@, 0));
    }
    let ghost header = bytes@;
    let mut k2: usize = 0;
    while k2 < stores.len()
        invariant
            k2 <= stores@.len(),
            forall|j: int| 0 <= j < stores@.len() ==> store_fits_block(#[trigger] stores@[j]),
            forall|j: int| 0 <= j < stores@.len() ==> crate::model::store_wf(
                #[trigger] stores@[j],
            ),
            bytes@ == header + blocks_bytes(stores@.take(k2 as int)),
        decreases stores@.len() - k2,
    {
        let ghost before = bytes@;
        dump_to_buffer(&stores[k2], &mut bytes);
        proof {
            lemma_blocks_bytes_take_step(stores@, k2 as int);
            assert(bytes@ =~= header + blocks_bytes(stores@.take(k2 + 1 as int)));
        }
        k2 += 1;
    }
    proof {
        assert(stores@.take(stores@.len() as int) =~= stores@);
    }
    Ok(bytes)
}

/// Appending one store to a prefix appends that store's block bytes.
pub proof fn lemma_blocks_bytes_take_step(ss: Seq<InstrStore>, i: int)
    requires
        0 <= i < ss.len(),
    ensures
        blocks_bytes(ss.take(i + 1)) == blocks_bytes(ss.take(i)) + block_bytes(ss[i]),
    decreases i,
{
    if i == 0 {
        assert(ss.take(1).drop_first() =~= ss.take(0));
        assert(ss.take(1)[0] == ss[0]);
        assert(blocks_bytes(ss.take(1)) =~= blocks_bytes(ss.take(0)) + block_bytes(ss[0]));
    } else {
        lemma_blocks_bytes_take_step(ss.drop_first(), i - 1);
        assert(ss.take(i + 1).drop_first() =~= ss.drop_first().take(i));
        assert(ss.take(i).drop_first() =~= ss.drop_first().take(i - 1));
        assert(ss.take(i + 1)[0] == ss[0]);
        assert(ss.take(i)[0] == ss[0]);
        assert(ss.drop_first()[i - 1] == ss[i]);
        assert(blocks_bytes(ss.take(i + 1)) =~= blocks_bytes(ss.take(i)) + block_bytes(ss[i]));
    }
}

/// The header length of a persisted region, and the views that its slots
/// carve out from `off` onward; `None` when a block is truncated or does
/// not parse.
pub open spec fn parse_slots(d: Seq<u8>, k: int, off: int) -> Option<Seq<ViewParts>>
    decreases HEADER_SLOTS - k,
{
    if k < 0 || k >= HEADER_SLOTS {
        Some(Seq::empty())
    } else {
        let l = toc_entry(d, k) as int;
        if l == 0 {
            parse_slots(d, k + 1, off)
        } else if off < 0 || off + l > d.len() {
            None
        } else {
            match parse_block(d.subrange(off, off + l)) {
                Some(parts) => match parse_slots(d, k + 1, off + l) {
                    Some(rest) => Some(seq![parts] + rest),
                    None => None,
                },
                None => None,
            }
        }
    }
}

/// Reads a whole persisted region: the fixed-size header, then one view
/// per used slot, located purely by prefix sums of the recorded lengths.
pub open spec fn parse_program(d: Seq<u8>) -> Option<Seq<ViewParts>> {
    if d.len() < HEADER_SIZE {
        None
    } else {
        parse_slots(d, 0, HEADER_SIZE as int)
    }
}

/// The views a parsed region denotes.
pub open spec fn views_parts(views: Seq<InstrView>) -> Seq<ViewParts> {
    Seq::new(views.len(), |i: int| view_parts_of(views[i]))
}

/// Reconstructs every function view of a persisted region, by offset
/// arithmetic only. Succeeds exactly when the region parses.
#[verifier::loop_isolation(false)]
pub fn load_program<'a>(data: &'a [u8]) -> (r: Result<Vec<InstrView<'a>>, FlatError>)
    ensures
        r is Ok <==> parse_program(data@) is Some,
        r matches Ok(views) ==> Some(views_parts(views@)) == parse_program(data@),
        r matches Err(e) ==> e == FlatError::CorruptBinary,
{
    let n = data.len();
    if n < HEADER_SIZE {
        return Err(FlatError::CorruptBinary);
    }
    let mut views: Vec<InstrView<'a>> = Vec::new();
    let mut off: usize = HEADER_SIZE;
    let mut k: usize = 0;
    while k < HEADER_SLOTS
        invariant
            k <= HEADER_SLOTS,
            HEADER_SIZE <= off <= n,
            n == data@.len(),
            match parse_slots(data@, k as int, off as int) {
                Some(rest) => parse_slots(data@, 0, HEADER_SIZE as int) == Some(
                    views_parts(views@) + rest,
                ),
                None => parse_slots(data@, 0, HEADER_SIZE as int) is None,
            },
        decreases HEADER_SLOTS - k,
    {
        let l = read_u32_at(data, 4 * k);
        if l != 0 {
            if (l as u64) > (n as u64) - (off as u64) {
                return Err(FlatError::CorruptBinary);
            }
            let block = slice_subrange(data, off, off + l as usize);
            let ghost views_before = views@;
            match get_instr_view(block) {
                Ok(v) => {
                    views.push(v);
                    proof {
                        assert(views_parts(views@) =~= views_parts(views_before).push(
                            view_parts_of(v),
                        ));
                        assert(views_parts(views_before) + (seq![view_parts_of(v)]
                            + parse_slots(data@, k + 1, off + l as int)->0) =~= views_parts(
                            views@,
                        ) + parse_slots(data@, k + 1, off + l as int)->0);
                    }
                },
                Err(e) => {
                    return Err(e);
                },
            }
            off = off + l as usize;
        }
        k += 1;
    }
    proof {
        assert(views_parts(views@) + Seq::<ViewParts>::empty() =~= views_parts(views@));
    }
    Ok(views)
}

/// The header is four bytes per slot from `k` on.
pub proof fn lemma_header_slots_len(ss: Seq<InstrStore>, k: int)
    requires
        0 <= k <= HEADER_SLOTS,
    ensures
        header_slots_bytes(ss, k).len() == 4 * (HEADER_SLOTS - k),
    decreases HEADER_SLOTS - k,
{
    lemma_auto_spec_u32_to_from_le_bytes();
    if k < HEADER_SLOTS {
        lemma_header_slots_len(ss, k + 1);
    }
}

/// The `k`-th slot of the header holds its block's length, or zero when
/// the slot is unused.
pub proof fn lemma_header_entry(ss: Seq<InstrStore>, j: int, k: int)
    requires
        0 <= j <= k < HEADER_SLOTS,
    ensures
        header_slots_bytes(ss, j).subrange(4 * (k - j), 4 * (k - j) + 4) == spec_u32_to_le_bytes(
            (if k < ss.len() {
                block_len(ss[k]) as u32
            } else {
                0u32
            }),
        ),
    decreases k - j,
{
    lemma_auto_spec_u32_to_from_le_bytes();
    lemma_header_slots_len(ss, j);
    lemma_header_slots_len(ss, j + 1);
    if j == k {
        assert(header_slots_bytes(ss, j).subrange(0, 4) =~= spec_u32_to_le_bytes(
            (if k < ss.len() {
                block_len(ss[k]) as u32
            } else {
                0u32
            }),
        ));
    } else {
        lemma_header_entry(ss, j + 1, k);
        assert(header_slots_bytes(ss, j).subrange(4 * (k - j), 4 * (k - j) + 4)
            =~= header_slots_bytes(ss, j + 1).subrange(4 * (k - j - 1), 4 * (k - j - 1) + 4));
    }
}

/// A prefix of the block list serializes to a prefix of the whole list's
/// bytes.
pub proof fn lemma_blocks_bytes_take_prefix(ss: Seq<InstrStore>, k: int)
    requires
        0 <= k <= ss.len(),
    ensures
        blocks_bytes(ss.take(k)).is_prefix_of(blocks_bytes(ss)),
    decreases ss.len() - k,
{
    if k == ss.len() {
        assert(ss.take(k) =~= ss);
    } else {
        lemma_blocks_bytes_take_step(ss, k);
        lemma_blocks_bytes_take_prefix(ss, k + 1);
        assert(blocks_bytes(ss.take(k)).is_prefix_of(blocks_bytes(ss.take(k + 1))));
    }
}

/// Byte offset of block `k` inside the persisted region.
pub open spec fn block_off(ss: Seq<InstrStore>, k: int) -> int {
    HEADER_SIZE + blocks_bytes(ss.take(k)).len()
}

/// The views that a list of stores should read back as: the parsed block
/// of each store in order.
pub open spec fn stores_parts(ss: Seq<InstrStore>, k: int) -> Seq<ViewParts> {
    Seq::new((ss.len() - k) as nat, |i: int| parse_block(block_bytes(ss[k + i]))->0)
}

/// Every slot at or past the store list parses to nothing more.
proof fn lemma_parse_slots_tail(ss: Seq<InstrStore>, d: Seq<u8>, k: int, off: int)
    requires
        d == program_bytes(ss),
        ss.len() <= k <= HEADER_SLOTS,
        ss.len() <= HEADER_SLOTS,
    ensures
        parse_slots(d, k, off) == Some(Seq::<ViewParts>::empty()),
    decreases HEADER_SLOTS - k,
{
    if k < HEADER_SLOTS {
        lemma_header_slots_len(ss, 0);
        lemma_header_entry(ss, 0, k);
        lemma_subrange_in_prefix(
            header_slots_bytes(ss, 0),
            d,
            4 * k,
            4 * k + 4,
        );
        assert(header_slots_bytes(ss, 0).is_prefix_of(d)) by {
            assert(header_slots_bytes(ss, 0) =~= d.subrange(
                0,
                header_slots_bytes(ss, 0).len() as int,
            ));
        }
        lemma_auto_spec_u32_to_from_le_bytes();
        assert(toc_entry(d, k) == 0);
        lemma_parse_slots_tail(ss, d, k + 1, off);
    }
}

/// From slot `k` on, the persisted region parses to exactly the remaining
/// stores' blocks.
#[verifier::rlimit(100)]
#[verifier::spinoff_prover]
proof fn lemma_parse_slots_from(ss: Seq<InstrStore>, d: Seq<u8>, k: int)
    requires
        d == program_bytes(ss),
        ss.len() <= HEADER_SLOTS,
        0 <= k <= ss.len(),
        forall|j: int|
            0 <= j < ss.len() ==> crate::model::store_wf(#[trigger] ss[j]) && store_fits_block(
                ss[j],
            ),
    ensures
        parse_slots(d, k, block_off(ss, k)) == Some(stores_parts(ss, k)),
    decreases ss.len() - k,
{
    lemma_auto_spec_u32_to_from_le_bytes();
    lemma_header_slots_len(ss, 0);
    assert(header_slots_bytes(ss, 0).is_prefix_of(d)) by {
        assert(header_slots_bytes(ss, 0) =~= d.subrange(
            0,
            header_slots_bytes(ss, 0).len() as int,
        ));
    }
    if k == ss.len() {
        lemma_parse_slots_tail(ss, d, k, block_off(ss, k));
        assert(stores_parts(ss, k) =~= Seq::<ViewParts>::empty());
    } else {
        // The slot's recorded length is this block's length.
        lemma_header_entry(ss, 0, k);
        lemma_subrange_in_prefix(header_slots_bytes(ss, 0), d, 4 * k, 4 * k + 4);
        lemma_block_bytes_len(ss[k]);
        assert(d.subrange(4 * k, 4 * k + 4) == header_slots_bytes(ss, 0).subrange(
            4 * k,
            4 * k + 4,
        ));
        assert(header_slots_bytes(ss, 0).subrange(4 * k, 4 * k + 4) == spec_u32_to_le_bytes(
            block_len(ss[k]) as u32,
        ));
        assert(toc_entry(d, k) == block_len(ss[k]) as u32);
        assert(block_len(ss[k]) >= TOC_SIZE);

        // The block's bytes sit at its offset.
        let off = block_off(ss, k);
        let l = block_len(ss[k]);
        lemma_blocks_bytes_take_step(ss, k);
        lemma_blocks_bytes_take_prefix(ss, k + 1);
        assert(blocks_bytes(ss.take(k + 1)).len() == blocks_bytes(ss.take(k)).len()
            + block_bytes(ss[k]).len());
        assert(off + l <= d.len()) by {
            assert(d.len() == HEADER_SIZE + blocks_bytes(ss).len());
            assert(blocks_bytes(ss.take(k + 1)).len() <= blocks_bytes(ss).len());
        }
        let bts = blocks_bytes(ss.take(k + 1));
        let pfx = blocks_bytes(ss.take(k)).len() as int;
        assert(bts == blocks_bytes(ss.take(k)) + block_bytes(ss[k]));
        assert(block_bytes(ss[k]) =~= bts.subrange(pfx, bts.len() as int));
        lemma_subrange_in_prefix(bts, blocks_bytes(ss), pfx, bts.len() as int);
        assert(d.subrange(off, off + l) =~= blocks_bytes(ss).subrange(
            pfx,
            pfx + l,
        ));
        assert(d.subrange(off, off + l) == block_bytes(ss[k]));
        lemma_persistence_round_trip(ss[k]);
        lemma_parse_slots_from(ss, d, k + 1);
        assert(block_off(ss, k + 1) == off + l);
        assert(seq![parse_block(block_bytes(ss[k]))->0] + stores_parts(ss, k + 1)
            =~= stores_parts(ss, k));
    }
}

/// Persistence round trip at the file level: the serialized region of a
/// list of well-formed stores parses, and each slot reads back as its
/// store's block. `encode_program` writes `program_bytes` and
/// `load_program` returns `parse_program`, so loading a serialized
/// program yields one view per store, with that store's buffers.
pub proof fn lemma_program_round_trip(ss: Seq<InstrStore>)
    requires
        ss.len() <= HEADER_SLOTS,
        forall|j: int|
            0 <= j < ss.len() ==> crate::model::store_wf(#[trigger] ss[j]) && store_fits_block(
                ss[j],
            ),
    ensures
        parse_program(program_bytes(ss)) matches Some(ps) && ps.len() == ss.len() && (forall|
            k: int,
        |
            0 <= k < ss.len() ==> ps[k] == parse_block(block_bytes(#[trigger] ss[k]))->0),
{
    let d = program_bytes(ss);
    lemma_header_slots_len(ss, 0);
    assert(d.len() >= HEADER_SIZE);
    assert(blocks_bytes(ss.take(0)) =~= Seq::<u8>::empty());
    lemma_parse_slots_from(ss, d, 0);
    assert(block_off(ss, 0) == HEADER_SIZE as int);
}

/// A subrange taken inside a prefix reads the same bytes from the longer
/// sequence.
proof fn lemma_subrange_in_prefix(s1: Seq<u8>, s2: Seq<u8>, a: int, b: int)
    requires
        s1.is_prefix_of(s2),
        0 <= a <= b <= s1.len(),
    ensures
        s2.subrange(a, b) == s1.subrange(a, b),
{
    assert(s2.subrange(a, b) =~= s1.subrange(a, b));
}

/// Persistence round trip: the serialized block of a well-formed store
/// parses, and the parse carves out exactly the store's buffers — byte for
/// byte. `dump_to_buffer` writes `block_bytes` and `get_instr_view`
/// returns `parse_block`, so reconstructing a serialized store yields a
/// view whose buffers equal the store's.
#[verifier::rlimit(100)]
pub proof fn lemma_persistence_round_trip(s: InstrStore)
    requires
        crate::model::store_wf(s),
        store_fits_block(s),
    ensures
        parse_block(block_bytes(s)) == Some(
            ViewParts {
                func_name: s.func_name@,
                func_args: funcargs_bytes(s.func_args@),
                func_ret_ty: match s.func_ret_ty {
                    Some(t) => t,
                    None => Type::Null,
                },
                var_store: s.var_store@,
                arg_idxes_store: pairs_bytes(s.args_idxes_store@),
                labels_idxes_store: pairs_bytes(s.labels_idxes_store@),
                labels_store: s.labels_store@,
                funcs_store: s.funcs_store@,
                instrs: instrs_bytes(s.instrs_and_labels@),
            },
        ),
{
    lemma_auto_spec_u32_to_from_le_bytes();
    lemma_funcargs_bytes_len(s.func_args@);
    lemma_pairs_bytes_len(s.args_idxes_store@);
    lemma_pairs_bytes_len(s.labels_idxes_store@);
    lemma_instrs_bytes_len(s.instrs_and_labels@);
    let t = toc_of(s);
    let d = block_bytes(s);
    let tb = toc_bytes(t);

    // The nine length fields read back as written.
    let t0 = spec_u32_to_le_bytes(t.func_name);
    let t1 = spec_u32_to_le_bytes(t.func_args);
    let t2 = spec_u32_to_le_bytes(t.func_ret_ty);
    let t3 = spec_u32_to_le_bytes(t.var_store);
    let t4 = spec_u32_to_le_bytes(t.arg_idxes_store);
    let t5 = spec_u32_to_le_bytes(t.labels_idxes_store);
    let t6 = spec_u32_to_le_bytes(t.labels_store);
    let t7 = spec_u32_to_le_bytes(t.funcs_store);
    let t8 = spec_u32_to_le_bytes(t.instrs);
    assert(tb.is_prefix_of(d)) by {
        assert(tb =~= d.subrange(0, tb.len() as int));
    }
    assert(tb.subrange(0, 4) =~= t0);
    assert(tb.subrange(4, 8) =~= t1);
    assert(tb.subrange(8, 12) =~= t2);
    assert(tb.subrange(12, 16) =~= t3);
    assert(tb.subrange(16, 20) =~= t4);
    assert(tb.subrange(20, 24) =~= t5);
    assert(tb.subrange(24, 28) =~= t6);
    assert(tb.subrange(28, 32) =~= t7);
    assert(tb.subrange(32, 36) =~= t8);
    lemma_subrange_in_prefix(tb, d, 0, 4);
    lemma_subrange_in_prefix(tb, d, 4, 8);
    lemma_subrange_in_prefix(tb, d, 8, 12);
    lemma_subrange_in_prefix(tb, d, 12, 16);
    lemma_subrange_in_prefix(tb, d, 16, 20);
    lemma_subrange_in_prefix(tb, d, 20, 24);
    lemma_subrange_in_prefix(tb, d, 24, 28);
    lemma_subrange_in_prefix(tb, d, 28, 32);
    lemma_subrange_in_prefix(tb, d, 32, 36);
    assert(toc_entry(d, 0) == t.func_name);
    assert(toc_entry(d, 1) == t.func_args);
    assert(toc_entry(d, 2) == t.func_ret_ty);
    assert(toc_entry(d, 3) == t.var_store);
    assert(toc_entry(d, 4) == t.arg_idxes_store);
    assert(toc_entry(d, 5) == t.labels_idxes_store);
    assert(toc_entry(d, 6) == t.labels_store);
    assert(toc_entry(d, 7) == t.funcs_store);
    assert(toc_entry(d, 8) == t.instrs);

    // The cumulative prefixes of the block, one per buffer boundary.
    let rt = spec_u32_to_le_bytes(opt_type_tag(s.func_ret_ty));
    let p1 = tb + s.func_name@;
    let p2 = p1 + funcargs_bytes(s.func_args@);
    let p3 = p2 + rt;
    let p4 = p3 + s.var_store@;
    let p5 = p4 + pairs_bytes(s.args_idxes_store@);
    let p6 = p5 + pairs_bytes(s.labels_idxes_store@);
    let p7 = p6 + s.labels_store@;
    let p8 = p7 + s.funcs_store@;
    assert(d == p8 + instrs_bytes(s.instrs_and_labels@));

    assert(s.func_name@ =~= p1.subrange(tb.len() as int, p1.len() as int));
    assert(funcargs_bytes(s.func_args@) =~= p2.subrange(p1.len() as int, p2.len() as int));
    assert(rt =~= p3.subrange(p2.len() as int, p3.len() as int));
    assert(s.var_store@ =~= p4.subrange(p3.len() as int, p4.len() as int));
    assert(pairs_bytes(s.args_idxes_store@) =~= p5.subrange(p4.len() as int, p5.len() as int));
    assert(pairs_bytes(s.labels_idxes_store@) =~= p6.subrange(p5.len() as int, p6.len() as int));
    assert(s.labels_store@ =~= p7.subrange(p6.len() as int, p7.len() as int));
    assert(s.funcs_store@ =~= p8.subrange(p7.len() as int, p8.len() as int));
    assert(instrs_bytes(s.instrs_and_labels@) =~= d.subrange(p8.len() as int, d.len() as int));

    assert(p1.is_prefix_of(d)) by {
        assert(p1 =~= d.subrange(0, p1.len() as int));
    }
    assert(p2.is_prefix_of(d)) by {
        assert(p2 =~= d.subrange(0, p2.len() as int));
    }
    assert(p3.is_prefix_of(d)) by {
        assert(p3 =~= d.subrange(0, p3.len() as int));
    }
    assert(p4.is_prefix_of(d)) by {
        assert(p4 =~= d.subrange(0, p4.len() as int));
    }
    assert(p5.is_prefix_of(d)) by {
        assert(p5 =~= d.subrange(0, p5.len() as int));
    }
    assert(p6.is_prefix_of(d)) by {
        assert(p6 =~= d.subrange(0, p6.len() as int));
    }
    assert(p7.is_prefix_of(d)) by {
        assert(p7 =~= d.subrange(0, p7.len() as int));
    }
    assert(p8.is_prefix_of(d)) by {
        assert(p8 =~= d.subrange(0, p8.len() as int));
    }

    lemma_subrange_in_prefix(p1, d, tb.len() as int, p1.len() as int);
    lemma_subrange_in_prefix(p2, d, p1.len() as int, p2.len() as int);
    lemma_subrange_in_prefix(p3, d, p2.len() as int, p3.len() as int);
    lemma_subrange_in_prefix(p4, d, p3.len() as int, p4.len() as int);
    lemma_subrange_in_prefix(p5, d, p4.len() as int, p5.len() as int);
    lemma_subrange_in_prefix(p6, d, p5.len() as int, p6.len() as int);
    lemma_subrange_in_prefix(p7, d, p6.len() as int, p7.len() as int);
    lemma_subrange_in_prefix(p8, d, p7.len() as int, p8.len() as int);

    // The return-type tag reads back as the type it encodes.
    assert(spec_u32_from_le_bytes(d.subrange(p2.len() as int, p2.len() as int + 4))
        == opt_type_tag(s.func_ret_ty));
}

} // verus!