//! Mathematical model shared by the encoder and the decoder: span validity,
//! well-formedness of a store, validity of an input tree, and the relation
//! that says when a flattened item represents a tree item.
use vstd::prelude::*;

use crate::types::{
    BrilValue, FlatError, Function, I32Pair, Instr, InstrOrLabel, InstrStore, Opcode, TreeInstr,
    TreeItem, Type, NUM_OPCODES,
};
use crate::types::opcode_of_text;

verus! {

/// A span is valid for a buffer of length `len` when it is inclusive-ordered
/// and ends inside the buffer. Every span the encoder produces satisfies
/// `second >= first`.
pub open spec fn span_ok(p: I32Pair, len: int) -> bool {
    &&& p.first <= p.second
    &&& (p.second as int) < len
}

/// The byte run addressed by an inclusive span.
pub open spec fn span_bytes(buf: Seq<u8>, p: I32Pair) -> Seq<u8> {
    buf.subrange(p.first as int, p.second as int + 1)
}

/// The buffers an item's spans are read against, abstracted from whichever
/// aggregate (owned store, borrowed view, or loop-local state) holds them.
pub struct StoreBufs {
    pub var_store: Seq<u8>,
    pub args_idxes: Seq<I32Pair>,
    pub labels_idxes: Seq<I32Pair>,
    pub labels_store: Seq<u8>,
    pub funcs_store: Seq<u8>,
}

impl StoreBufs {
    /// Every span-table entry addresses its name buffer.
    pub open spec fn tables_wf(self) -> bool {
        &&& forall|k: int|
            0 <= k < self.args_idxes.len() ==> span_ok(
                #[trigger] self.args_idxes[k],
                self.var_store.len() as int,
            )
        &&& forall|k: int|
            0 <= k < self.labels_idxes.len() ==> span_ok(
                #[trigger] self.labels_idxes[k],
                self.labels_store.len() as int,
            )
    }

    /// `other` extends every buffer of `self` without disturbing what is
    /// already there.
    pub open spec fn extends(self, other: StoreBufs) -> bool {
        &&& self.var_store.is_prefix_of(other.var_store)
        &&& self.args_idxes.is_prefix_of(other.args_idxes)
        &&& self.labels_idxes.is_prefix_of(other.labels_idxes)
        &&& self.labels_store.is_prefix_of(other.labels_store)
        &&& self.funcs_store.is_prefix_of(other.funcs_store)
    }
}

/// The buffers of an owned store.
pub open spec fn bufs_of(s: InstrStore) -> StoreBufs {
    StoreBufs {
        var_store: s.var_store@,
        args_idxes: s.args_idxes_store@,
        labels_idxes: s.labels_idxes_store@,
        labels_store: s.labels_store@,
        funcs_store: s.funcs_store@,
    }
}

/// Well-formedness of one item relative to a set of buffers: the opcode
/// index is in range, and every present span ends inside the buffer or span
/// table it addresses.
pub open spec fn item_wf(it: InstrOrLabel, b: StoreBufs) -> bool {
    match it {
        InstrOrLabel::Label(p) => span_ok(p, b.labels_store.len() as int),
        InstrOrLabel::Instr(i) => {
            &&& i.op < NUM_OPCODES as u32
            &&& (i.dest matches Some(p) ==> span_ok(p, b.var_store.len() as int))
            &&& (i.args matches Some(p) ==> span_ok(p, b.args_idxes.len() as int))
            &&& (i.labels matches Some(p) ==> span_ok(p, b.labels_idxes.len() as int))
            &&& (i.funcs matches Some(p) ==> span_ok(p, b.funcs_store.len() as int))
            &&& i.ty != Some(Type::Null)
            &&& i.value != Some(BrilValue::Null)
        },
    }
}

/// Well-formedness of a whole store: every span-table entry addresses its
/// name buffer, every parameter name addresses the variable buffer, every
/// item is well-formed, and every buffer is small enough that its indexes
/// fit the fixed 32-bit width.
pub open spec fn store_wf(s: InstrStore) -> bool {
    &&& s.func_name@.len() <= u32::MAX
    &&& s.func_args@.len() <= u32::MAX
    &&& s.var_store@.len() <= u32::MAX
    &&& s.labels_store@.len() <= u32::MAX
    &&& s.funcs_store@.len() <= u32::MAX
    &&& s.args_idxes_store@.len() <= u32::MAX
    &&& s.labels_idxes_store@.len() <= u32::MAX
    &&& bufs_of(s).tables_wf()
    &&& forall|k: int|
        0 <= k < s.func_args@.len() ==> span_ok(
            (#[trigger] s.func_args@[k]).arg_name_idxes,
            s.var_store@.len() as int,
        )
    &&& forall|k: int|
        0 <= k < s.instrs_and_labels@.len() ==> item_wf(
            #[trigger] s.instrs_and_labels@[k],
            bufs_of(s),
        )
    &&& s.func_ret_ty != Some(Type::Null)
}

/// The entries `p.first ..= p.second` of a span table address exactly the
/// name list `names` inside the name buffer `buf`, in order.
pub open spec fn names_match(
    table: Seq<I32Pair>,
    p: I32Pair,
    names: Seq<Seq<u8>>,
    buf: Seq<u8>,
) -> bool {
    &&& names.len() == p.second - p.first + 1
    &&& forall|k: int|
        0 <= k < names.len() ==> span_bytes(buf, table[p.first + k]) == #[trigger] names[k]
}

/// The flattened item `it`, read against the buffers of store `s`,
/// represents the tree item `t`.
pub open spec fn item_matches(b: StoreBufs, it: InstrOrLabel, t: TreeItem) -> bool {
    match it {
        InstrOrLabel::Label(p) => t matches TreeItem::Label(name) && span_bytes(
            b.labels_store,
            p,
        ) == name@,
        InstrOrLabel::Instr(i) => t matches TreeItem::Instr(ti) && {
            &&& opcode_of_text(ti.op@) == crate::types::op_of_index(i.op)
            &&& match (i.dest, ti.dest) {
                (Some(p), Some(d)) => span_bytes(b.var_store, p) == d@,
                (None, None) => true,
                _ => false,
            }
            &&& i.ty == ti.ty
            &&& i.value == ti.value
            &&& match (i.args, ti.args) {
                (Some(p), Some(names)) => names_match(
                    b.args_idxes,
                    p,
                    names.deep_view(),
                    b.var_store,
                ),
                (None, None) => true,
                _ => false,
            }
            &&& match (i.labels, ti.labels) {
                (Some(p), Some(names)) => names_match(
                    b.labels_idxes,
                    p,
                    names.deep_view(),
                    b.labels_store,
                ),
                (None, None) => true,
                _ => false,
            }
            &&& match (i.funcs, ti.funcs) {
                (Some(p), Some(fs)) => fs.len() == 1 && span_bytes(b.funcs_store, p) == fs[0]@,
                (None, None) => true,
                _ => false,
            }
        },
    }
}

/// The store `s` is the flattened form of the whole function `f`: name,
/// parameters, return type, and every item in source order.
pub open spec fn store_matches_function(s: InstrStore, f: Function) -> bool {
    &&& s.func_name@ == f.name@
    &&& s.func_args@.len() == f.args@.len()
    &&& forall|k: int|
        0 <= k < f.args@.len() ==> {
            &&& span_bytes(s.var_store@, (#[trigger] s.func_args@[k]).arg_name_idxes)
                == f.args@[k].name@
            &&& s.func_args@[k].arg_type == f.args@[k].ty
        }
    &&& s.func_ret_ty == f.ret_ty
    &&& s.instrs_and_labels@.len() == f.instrs@.len()
    &&& forall|k: int|
        0 <= k < f.instrs@.len() ==> item_matches(
            bufs_of(s),
            s.instrs_and_labels@[k],
            #[trigger] f.instrs@[k],
        )
}

/// All names of a list are nonempty and the list itself is nonempty. Empty
/// runs cannot be addressed by an inclusive span.
pub open spec fn names_list_ok(names: Seq<Seq<u8>>) -> bool {
    &&& names.len() >= 1
    &&& forall|k: int| 0 <= k < names.len() ==> (#[trigger] names[k]).len() >= 1
}

/// Structural validity of one tree instruction, opcode aside: no empty name,
/// no empty list, no explicit absence marker.
pub open spec fn instr_shape_ok(ti: TreeInstr) -> bool {
    &&& (ti.dest matches Some(d) ==> d@.len() >= 1)
    &&& ti.ty != Some(Type::Null)
    &&& ti.value != Some(BrilValue::Null)
    &&& (ti.args matches Some(names) ==> names_list_ok(names.deep_view()))
    &&& (ti.labels matches Some(names) ==> names_list_ok(names.deep_view()))
    &&& (ti.funcs matches Some(fs) ==> forall|k: int|
        0 <= k < fs@.len() ==> (#[trigger] fs@[k])@.len() >= 1)
}

/// Arity of one tree instruction: `jmp` takes exactly one target label,
/// `br` exactly two, and a present `funcs` list holds exactly one name.
pub open spec fn instr_arity_ok(op: Opcode, ti: TreeInstr) -> bool {
    &&& (op == Opcode::Jmp ==> (ti.labels matches Some(ls) && ls@.len() == 1))
    &&& (op == Opcode::Br ==> (ti.labels matches Some(ls) && ls@.len() == 2))
    &&& (ti.funcs matches Some(fs) ==> fs@.len() == 1)
}

/// The first error of one tree instruction, checked in a fixed order:
/// the opcode must resolve, then the shape must be sound, then the arities
/// must agree.
pub open spec fn instr_check(ti: TreeInstr) -> Option<FlatError> {
    match opcode_of_text(ti.op@) {
        None => Some(FlatError::InvalidOpcode),
        Some(op) => if !instr_shape_ok(ti) {
            Some(FlatError::ParseShape)
        } else if !instr_arity_ok(op, ti) {
            Some(FlatError::ArityMismatch)
        } else {
            None
        },
    }
}

/// The error of one tree item: a label marker needs a nonempty name; an
/// instruction is checked by `instr_check`.
pub open spec fn item_check(t: TreeItem) -> Option<FlatError> {
    match t {
        TreeItem::Label(name) => if name@.len() == 0 {
            Some(FlatError::ParseShape)
        } else {
            None
        },
        TreeItem::Instr(ti) => instr_check(ti),
    }
}

/// The first error among a sequence of tree items, in source order.
pub open spec fn items_check(items: Seq<TreeItem>) -> Option<FlatError>
    decreases items.len(),
{
    if items.len() == 0 {
        None
    } else if item_check(items[0]) is Some {
        item_check(items[0])
    } else {
        items_check(items.drop_first())
    }
}

/// Total byte length of a list of names.
pub open spec fn names_bytes(names: Seq<Seq<u8>>) -> int
    decreases names.len(),
{
    if names.len() == 0 {
        0
    } else {
        names[0].len() + names_bytes(names.drop_first())
    }
}

/// How much one tree item adds to each growable buffer of the store:
/// bytes of variable names, entries of the argument span table, bytes of
/// label names, entries of the label span table, and bytes of function
/// names.
pub struct SizeTally {
    pub var_bytes: int,
    pub arg_spans: int,
    pub label_bytes: int,
    pub label_spans: int,
    pub func_bytes: int,
}

impl SizeTally {
    /// The zero tally.
    pub open spec fn zero() -> SizeTally {
        SizeTally { var_bytes: 0, arg_spans: 0, label_bytes: 0, label_spans: 0, func_bytes: 0 }
    }

    /// Componentwise sum.
    pub open spec fn add(self, other: SizeTally) -> SizeTally {
        SizeTally {
            var_bytes: self.var_bytes + other.var_bytes,
            arg_spans: self.arg_spans + other.arg_spans,
            label_bytes: self.label_bytes + other.label_bytes,
            label_spans: self.label_spans + other.label_spans,
            func_bytes: self.func_bytes + other.func_bytes,
        }
    }

    /// Every component is nonnegative.
    pub open spec fn nonneg(self) -> bool {
        &&& self.var_bytes >= 0
        &&& self.arg_spans >= 0
        &&& self.label_bytes >= 0
        &&& self.label_spans >= 0
        &&& self.func_bytes >= 0
    }

    /// Componentwise bound by the fixed 32-bit index width.
    pub open spec fn fits_u32(self) -> bool {
        &&& self.var_bytes <= u32::MAX
        &&& self.arg_spans <= u32::MAX
        &&& self.label_bytes <= u32::MAX
        &&& self.label_spans <= u32::MAX
        &&& self.func_bytes <= u32::MAX
    }
}

/// The tally of one tree item.
pub open spec fn item_tally(t: TreeItem) -> SizeTally {
    match t {
        TreeItem::Label(name) => SizeTally {
            var_bytes: 0,
            arg_spans: 0,
            label_bytes: name@.len() as int,
            label_spans: 0,
            func_bytes: 0,
        },
        TreeItem::Instr(ti) => SizeTally {
            var_bytes: (match ti.args {
                Some(names) => names_bytes(names.deep_view()),
                None => 0,
            }) + (match ti.dest {
                Some(d) => d@.len() as int,
                None => 0,
            }),
            arg_spans: (match ti.args {
                Some(names) => names@.len() as int,
                None => 0,
            }),
            label_bytes: (match ti.labels {
                Some(names) => names_bytes(names.deep_view()),
                None => 0,
            }),
            label_spans: (match ti.labels {
                Some(names) => names@.len() as int,
                None => 0,
            }),
            func_bytes: (match ti.funcs {
                Some(fs) => names_bytes(fs.deep_view()),
                None => 0,
            }),
        },
    }
}

/// The tally of a sequence of tree items, in order.
pub open spec fn items_tally(items: Seq<TreeItem>) -> SizeTally
    decreases items.len(),
{
    if items.len() == 0 {
        SizeTally::zero()
    } else {
        item_tally(items[0]).add(items_tally(items.drop_first()))
    }
}

/// Total byte length of the declared parameter names.
pub open spec fn params_bytes(params: Seq<crate::types::FuncParam>) -> int
    decreases params.len(),
{
    if params.len() == 0 {
        0
    } else {
        params[0].name@.len() + params_bytes(params.drop_first())
    }
}

/// The whole function's growth fits the fixed 32-bit index width. Parameter
/// names share the variable-name buffer with instruction names.
pub open spec fn function_fits(f: Function) -> bool {
    let t = items_tally(f.instrs@);
    &&& f.name@.len() <= u32::MAX
    &&& params_bytes(f.args@) + t.var_bytes <= u32::MAX
    &&& t.arg_spans <= u32::MAX
    &&& t.label_bytes <= u32::MAX
    &&& t.label_spans <= u32::MAX
    &&& t.func_bytes <= u32::MAX
}

/// Structural validity of the declared parameters and return type.
pub open spec fn params_ok(f: Function) -> bool {
    &&& forall|k: int|
        0 <= k < f.args@.len() ==> {
            &&& (#[trigger] f.args@[k]).name@.len() >= 1
            &&& f.args@[k].ty != Type::Null
        }
    &&& f.ret_ty != Some(Type::Null)
}

/// The first error of a whole function, checked in a fixed order: the
/// function name, then the parameter list, then each item in source order,
/// then the 32-bit size budget.
pub open spec fn function_check(f: Function) -> Option<FlatError> {
    if f.name@.len() == 0 {
        Some(FlatError::ParseShape)
    } else if !params_ok(f) {
        Some(FlatError::ParseShape)
    } else if items_check(f.instrs@) is Some {
        items_check(f.instrs@)
    } else if !function_fits(f) {
        Some(FlatError::ParseShape)
    } else {
        None
    }
}

/// A valid input tree: one on which the encoder succeeds.
pub open spec fn function_ok(f: Function) -> bool {
    function_check(f) is None
}

/// Item tallies are componentwise nonnegative.
pub proof fn lemma_names_bytes_nonneg(names: Seq<Seq<u8>>)
    ensures
        names_bytes(names) >= 0,
    decreases names.len(),
{
    if names.len() > 0 {
        lemma_names_bytes_nonneg(names.drop_first());
    }
}

/// The tally of one item is componentwise nonnegative.
pub proof fn lemma_item_tally_nonneg(t: TreeItem)
    ensures
        item_tally(t).nonneg(),
{
    match t {
        TreeItem::Label(_) => {},
        TreeItem::Instr(ti) => {
            if let Some(names) = ti.args {
                lemma_names_bytes_nonneg(names.deep_view());
            }
            if let Some(names) = ti.labels {
                lemma_names_bytes_nonneg(names.deep_view());
            }
            if let Some(fs) = ti.funcs {
                lemma_names_bytes_nonneg(fs.deep_view());
            }
        },
    }
}

/// The tally of an item sequence is componentwise nonnegative.
pub proof fn lemma_items_tally_nonneg(items: Seq<TreeItem>)
    ensures
        items_tally(items).nonneg(),
    decreases items.len(),
{
    if items.len() > 0 {
        lemma_item_tally_nonneg(items[0]);
        lemma_items_tally_nonneg(items.drop_first());
    }
}

/// Appending one item to a prefix adds that item's tally.
pub proof fn lemma_items_tally_take_step(items: Seq<TreeItem>, i: int)
    requires
        0 <= i < items.len(),
    ensures
        items_tally(items.take(i + 1)) == items_tally(items.take(i)).add(item_tally(items[i])),
    decreases i,
{
    if i == 0 {
        assert(items.take(1).drop_first() =~= items.take(0));
        assert(items.take(1)[0] == items[0]);
        assert(items_tally(items.take(0)) == SizeTally::zero());
    } else {
        lemma_items_tally_take_step(items.drop_first(), i - 1);
        assert(items.take(i + 1).drop_first() =~= items.drop_first().take(i));
        assert(items.take(i).drop_first() =~= items.drop_first().take(i - 1));
        assert(items.take(i + 1)[0] == items[0]);
        assert(items.take(i)[0] == items[0]);
        assert(items.drop_first()[i - 1] == items[i]);
    }
}

/// A prefix's tally never exceeds the whole sequence's tally.
pub proof fn lemma_items_tally_take_le(items: Seq<TreeItem>, i: int)
    requires
        0 <= i <= items.len(),
    ensures
        items_tally(items.take(i)).var_bytes <= items_tally(items).var_bytes,
        items_tally(items.take(i)).arg_spans <= items_tally(items).arg_spans,
        items_tally(items.take(i)).label_bytes <= items_tally(items).label_bytes,
        items_tally(items.take(i)).label_spans <= items_tally(items).label_spans,
        items_tally(items.take(i)).func_bytes <= items_tally(items).func_bytes,
    decreases items.len() - i,
{
    if i == items.len() {
        assert(items.take(i) =~= items);
    } else {
        lemma_items_tally_take_step(items, i);
        lemma_item_tally_nonneg(items[i]);
        lemma_items_tally_take_le(items, i + 1);
    }
}

/// A span read against a longer buffer that extends the shorter one at the
/// end yields the same bytes.
pub proof fn lemma_span_bytes_prefix(buf1: Seq<u8>, buf2: Seq<u8>, p: I32Pair)
    requires
        buf1.is_prefix_of(buf2),
        span_ok(p, buf1.len() as int),
    ensures
        span_bytes(buf2, p) == span_bytes(buf1, p),
        span_ok(p, buf2.len() as int),
{
    assert(span_bytes(buf2, p) =~= span_bytes(buf1, p));
}

/// A name list read through a span table stays the same when the table and
/// the name buffer both grow at the end.
pub proof fn lemma_names_match_prefix(
    t1: Seq<I32Pair>,
    t2: Seq<I32Pair>,
    p: I32Pair,
    names: Seq<Seq<u8>>,
    b1: Seq<u8>,
    b2: Seq<u8>,
)
    requires
        names_match(t1, p, names, b1),
        t1.is_prefix_of(t2),
        b1.is_prefix_of(b2),
        (p.second as int) < t1.len(),
        p.first <= p.second,
        forall|k: int| p.first <= k <= p.second ==> span_ok(#[trigger] t1[k], b1.len() as int),
    ensures
        names_match(t2, p, names, b2),
{
    assert forall|k: int| 0 <= k < names.len() implies span_bytes(b2, t2[p.first + k])
        == #[trigger] names[k] by {
        assert(t2[p.first + k] == t1[p.first + k]);
        lemma_span_bytes_prefix(b1, b2, t1[p.first + k]);
    }
}

/// An item that is well-formed and decodes to a tree item keeps both
/// properties when every buffer grows at the end.
pub proof fn lemma_item_matches_stable(b1: StoreBufs, b2: StoreBufs, it: InstrOrLabel, t: TreeItem)
    requires
        item_wf(it, b1),
        item_matches(b1, it, t),
        b1.extends(b2),
        b1.tables_wf(),
    ensures
        item_wf(it, b2),
        item_matches(b2, it, t),
{
    match it {
        InstrOrLabel::Label(p) => {
            lemma_span_bytes_prefix(b1.labels_store, b2.labels_store, p);
        },
        InstrOrLabel::Instr(i) => {
            let ti = t->Instr_0;
            if let Some(p) = i.dest {
                lemma_span_bytes_prefix(b1.var_store, b2.var_store, p);
            }
            if let Some(p) = i.funcs {
                lemma_span_bytes_prefix(b1.funcs_store, b2.funcs_store, p);
            }
            if let Some(p) = i.args {
                lemma_names_match_prefix(
                    b1.args_idxes,
                    b2.args_idxes,
                    p,
                    ti.args->0.deep_view(),
                    b1.var_store,
                    b2.var_store,
                );
            }
            if let Some(p) = i.labels {
                lemma_names_match_prefix(
                    b1.labels_idxes,
                    b2.labels_idxes,
                    p,
                    ti.labels->0.deep_view(),
                    b1.labels_store,
                    b2.labels_store,
                );
            }
        },
    }
}

/// Appending one name to a prefix adds that name's length.
pub proof fn lemma_names_bytes_take_step(names: Seq<Seq<u8>>, i: int)
    requires
        0 <= i < names.len(),
    ensures
        names_bytes(names.take(i + 1)) == names_bytes(names.take(i)) + names[i].len(),
    decreases i,
{
    if i == 0 {
        assert(names.take(1).drop_first() =~= names.take(0));
        assert(names.take(1)[0] == names[0]);
    } else {
        lemma_names_bytes_take_step(names.drop_first(), i - 1);
        assert(names.take(i + 1).drop_first() =~= names.drop_first().take(i));
        assert(names.take(i).drop_first() =~= names.drop_first().take(i - 1));
        assert(names.take(i + 1)[0] == names[0]);
        assert(names.take(i)[0] == names[0]);
        assert(names.drop_first()[i - 1] == names[i]);
    }
}

/// A prefix of a name list never holds more bytes than the whole list.
pub proof fn lemma_names_bytes_take_le(names: Seq<Seq<u8>>, i: int)
    requires
        0 <= i <= names.len(),
    ensures
        names_bytes(names.take(i)) <= names_bytes(names),
    decreases names.len() - i,
{
    if i == names.len() {
        assert(names.take(i) =~= names);
    } else {
        lemma_names_bytes_take_step(names, i);
        lemma_names_bytes_take_le(names, i + 1);
    }
}

/// Appending one parameter to a prefix adds that parameter's name length.
pub proof fn lemma_params_bytes_take_step(params: Seq<crate::types::FuncParam>, i: int)
    requires
        0 <= i < params.len(),
    ensures
        params_bytes(params.take(i + 1)) == params_bytes(params.take(i)) + params[i].name@.len(),
    decreases i,
{
    if i == 0 {
        assert(params.take(1).drop_first() =~= params.take(0));
        assert(params.take(1)[0] == params[0]);
    } else {
        lemma_params_bytes_take_step(params.drop_first(), i - 1);
        assert(params.take(i + 1).drop_first() =~= params.drop_first().take(i));
        assert(params.take(i).drop_first() =~= params.drop_first().take(i - 1));
        assert(params.take(i + 1)[0] == params[0]);
        assert(params.take(i)[0] == params[0]);
        assert(params.drop_first()[i - 1] == params[i]);
    }
}

/// A prefix of a parameter list never holds more name bytes than the whole
/// list, and the whole is nonnegative.
pub proof fn lemma_params_bytes_take_le(params: Seq<crate::types::FuncParam>, i: int)
    requires
        0 <= i <= params.len(),
    ensures
        params_bytes(params.take(i)) <= params_bytes(params),
        params_bytes(params.take(i)) >= 0,
    decreases params.len() - i,
{
    if i == params.len() {
        assert(params.take(i) =~= params);
        lemma_params_bytes_nonneg(params.take(i));
    } else {
        lemma_params_bytes_take_step(params, i);
        lemma_params_bytes_take_le(params, i + 1);
        lemma_params_bytes_nonneg(params.take(i));
    }
}

/// Parameter name byte totals are nonnegative.
pub proof fn lemma_params_bytes_nonneg(params: Seq<crate::types::FuncParam>)
    ensures
        params_bytes(params) >= 0,
    decreases params.len(),
{
    if params.len() > 0 {
        lemma_params_bytes_nonneg(params.drop_first());
    }
}

/// When the items before `i` are clean and item `i` raises `e`, the whole
/// sequence's first error is `e`.
pub proof fn lemma_items_check_first(items: Seq<TreeItem>, i: int)
    requires
        0 <= i < items.len(),
        forall|k: int| 0 <= k < i ==> item_check(#[trigger] items[k]) is None,
        item_check(items[i]) is Some,
    ensures
        items_check(items) == item_check(items[i]),
    decreases i,
{
    if i == 0 {
    } else {
        assert(item_check(items[0]) is None);
        lemma_items_check_first(items.drop_first(), i - 1);
        assert(forall|k: int|
            0 <= k < i - 1 ==> items.drop_first()[k] == #[trigger] items[k + 1]);
        assert(items.drop_first()[i - 1] == items[i]);
    }
}

/// Structural equality of two tree instructions, compared at the level of
/// views: same opcode text, same names byte for byte, same inline type and
/// value.
pub open spec fn tree_instr_equiv(a: TreeInstr, b: TreeInstr) -> bool {
    &&& a.op@ == b.op@
    &&& match (a.dest, b.dest) {
        (Some(x), Some(y)) => x@ == y@,
        (None, None) => true,
        _ => false,
    }
    &&& a.ty == b.ty
    &&& a.value == b.value
    &&& match (a.args, b.args) {
        (Some(x), Some(y)) => x.deep_view() == y.deep_view(),
        (None, None) => true,
        _ => false,
    }
    &&& match (a.labels, b.labels) {
        (Some(x), Some(y)) => x.deep_view() == y.deep_view(),
        (None, None) => true,
        _ => false,
    }
    &&& match (a.funcs, b.funcs) {
        (Some(x), Some(y)) => x.deep_view() == y.deep_view(),
        (None, None) => true,
        _ => false,
    }
}

/// Structural equality of two tree items.
pub open spec fn tree_item_equiv(a: TreeItem, b: TreeItem) -> bool {
    match (a, b) {
        (TreeItem::Label(x), TreeItem::Label(y)) => x@ == y@,
        (TreeItem::Instr(x), TreeItem::Instr(y)) => tree_instr_equiv(x, y),
        _ => false,
    }
}

/// Structural equality of two whole function trees.
pub open spec fn function_equiv(a: Function, b: Function) -> bool {
    &&& a.name@ == b.name@
    &&& a.args@.len() == b.args@.len()
    &&& forall|k: int|
        0 <= k < a.args@.len() ==> (#[trigger] a.args@[k]).name@ == b.args@[k].name@
            && a.args@[k].ty == b.args@[k].ty
    &&& a.ret_ty == b.ret_ty
    &&& a.instrs@.len() == b.instrs@.len()
    &&& forall|k: int|
        0 <= k < a.instrs@.len() ==> tree_item_equiv(#[trigger] a.instrs@[k], b.instrs@[k])
}

/// Two name lists read through the same table range out of the same buffer
/// are equal.
pub proof fn lemma_names_match_unique(
    table: Seq<I32Pair>,
    p: I32Pair,
    n1: Seq<Seq<u8>>,
    n2: Seq<Seq<u8>>,
    buf: Seq<u8>,
)
    requires
        names_match(table, p, n1, buf),
        names_match(table, p, n2, buf),
    ensures
        n1 == n2,
{
    assert forall|k: int| 0 <= k < n1.len() implies n1[k] == n2[k] by {
        assert(n1[k] == span_bytes(buf, table[p.first + k]));
        assert(n2[k] == span_bytes(buf, table[p.first + k]));
    }
    assert(n1 =~= n2);
}

/// The matching relation determines the tree item: two tree items that one
/// flattened item (with an in-range opcode) represents are structurally
/// equal.
pub proof fn lemma_item_matches_unique(
    b: StoreBufs,
    it: InstrOrLabel,
    t1: TreeItem,
    t2: TreeItem,
)
    requires
        item_matches(b, it, t1),
        item_matches(b, it, t2),
        it matches InstrOrLabel::Instr(i) ==> i.op < NUM_OPCODES as u32,
    ensures
        tree_item_equiv(t1, t2),
{
    match it {
        InstrOrLabel::Label(_) => {},
        InstrOrLabel::Instr(i) => {
            let x = t1->Instr_0;
            let y = t2->Instr_0;
            let op = crate::types::op_of_index(i.op)->0;
            crate::types::lemma_opcode_text_injective(x.op@, op);
            crate::types::lemma_opcode_text_injective(y.op@, op);
            if let (Some(p), Some(n1x)) = (i.args, x.args) {
                lemma_names_match_unique(
                    b.args_idxes,
                    p,
                    n1x.deep_view(),
                    y.args->0.deep_view(),
                    b.var_store,
                );
            }
            if let (Some(p), Some(n1x)) = (i.labels, x.labels) {
                lemma_names_match_unique(
                    b.labels_idxes,
                    p,
                    n1x.deep_view(),
                    y.labels->0.deep_view(),
                    b.labels_store,
                );
            }
            if let (Some(p), Some(fx)) = (i.funcs, x.funcs) {
                let fy = y.funcs->0;
                assert(fx.deep_view()[0] == fx@[0]@);
                assert(fy.deep_view()[0] == fy@[0]@);
                assert(fx.deep_view() =~= fy.deep_view());
            }
        },
    }
}

/// `items_check` returning no error means no item has one, and the converse.
pub proof fn lemma_items_check_none(items: Seq<TreeItem>)
    ensures
        items_check(items) is None <==> (forall|k: int|
            0 <= k < items.len() ==> item_check(#[trigger] items[k]) is None),
    decreases items.len(),
{
    if items.len() > 0 {
        lemma_items_check_none(items.drop_first());
        assert(forall|k: int|
            1 <= k < items.len() ==> items.drop_first()[k - 1] == #[trigger] items[k]);
        if items_check(items) is None {
            assert forall|k: int| 0 <= k < items.len() implies item_check(
                #[trigger] items[k],
            ) is None by {
                if k > 0 {
                    assert(items.drop_first()[k - 1] == items[k]);
                }
            }
        }
    }
}

} // verus!
