//! The encoder: flattens one function's tree-structured instruction list
//! into an `InstrStore` (fixed-size records plus append-only name buffers
//! and span tables), in a single pass that preserves source order.
use vstd::prelude::*;

use crate::model::{
    function_check, function_fits, function_ok, instr_arity_ok, instr_check, instr_shape_ok,
    item_check, item_matches, item_tally, item_wf, lemma_item_matches_stable, items_check, items_tally, lemma_item_tally_nonneg,
    lemma_items_check_first, lemma_items_check_none, lemma_items_tally_nonneg,
    lemma_items_tally_take_le, lemma_items_tally_take_step, lemma_names_bytes_nonneg,
    lemma_names_bytes_take_le, lemma_names_bytes_take_step, lemma_names_match_prefix,
    lemma_params_bytes_nonneg, lemma_params_bytes_take_le, lemma_params_bytes_take_step,
    lemma_span_bytes_prefix, names_bytes, names_list_ok, names_match, params_bytes, params_ok,
    span_bytes, span_ok, store_matches_function, store_wf, StoreBufs,
};
use crate::types::{
    opcode_of_text, BrilValue, FlatError, FuncArg, FuncParam, Function, I32Pair, Instr,
    InstrOrLabel, InstrStore, Opcode, TreeInstr, TreeItem, Type,
};

verus! {

/// Builds the buffer bundle out of the encoder's working vectors.
pub open spec fn bufs_from(
    var_store: Seq<u8>,
    args_idxes: Seq<I32Pair>,
    labels_idxes: Seq<I32Pair>,
    labels_store: Seq<u8>,
    funcs_store: Seq<u8>,
) -> StoreBufs {
    StoreBufs { var_store, args_idxes, labels_idxes, labels_store, funcs_store }
}

/// Appends all of `data` to `buffer`.
fn append_bytes(buffer: &mut Vec<u8>, data: &Vec<u8>)
    ensures
        final(buffer)@ == old(buffer)@ + data@,
{
    let mut j: usize = 0;
    while j < data.len()
        invariant
            j <= data@.len(),
            buffer@ == old(buffer)@ + data@.take(j as int),
        decreases data@.len() - j,
    {
        buffer.push(data[j]);
        proof {
            assert(data@.take(j + 1 as int) =~= data@.take(j as int).push(data@[j as int]));
        }
        j += 1;
    }
    proof {
        assert(data@.take(data@.len() as int) =~= data@);
    }
}

/// Appends one name to a name buffer and returns the inclusive span that
/// addresses it.
fn append_name(buffer: &mut Vec<u8>, name: &Vec<u8>) -> (p: I32Pair)
    requires
        name@.len() >= 1,
        old(buffer)@.len() + name@.len() <= u32::MAX,
    ensures
        final(buffer)@ == old(buffer)@ + name@,
        p.first == old(buffer)@.len(),
        p.second == final(buffer)@.len() - 1,
        span_ok(p, final(buffer)@.len() as int),
        span_bytes(final(buffer)@, p) == name@,
{
    let start = buffer.len();
    append_bytes(buffer, name);
    let p = I32Pair { first: start as u32, second: (buffer.len() - 1) as u32 };
    proof {
        assert(span_bytes(buffer@, p) =~= name@);
    }
    p
}

/// Flattens one instruction's list of names (its `args` or its `labels`):
/// appends each name's bytes to `buffer`, appends that contiguous run of
/// spans to the span table `global_idxes_vec`, and returns the inclusive
/// range the run occupies in the table.
#[verifier::loop_isolation(false)]
pub fn flatten_instr_array_fields(
    names: &Vec<Vec<u8>>,
    global_idxes_vec: &mut Vec<I32Pair>,
    buffer: &mut Vec<u8>,
) -> (p: I32Pair)
    requires
        names_list_ok(names.deep_view()),
        old(global_idxes_vec)@.len() + names@.len() <= u32::MAX,
        old(buffer)@.len() + names_bytes(names.deep_view()) <= u32::MAX,
    ensures
        old(buffer)@.is_prefix_of(final(buffer)@),
        old(global_idxes_vec)@.is_prefix_of(final(global_idxes_vec)@),
        final(buffer)@.len() == old(buffer)@.len() + names_bytes(names.deep_view()),
        final(global_idxes_vec)@.len() == old(global_idxes_vec)@.len() + names@.len(),
        p.first == old(global_idxes_vec)@.len(),
        p.second == final(global_idxes_vec)@.len() - 1,
        span_ok(p, final(global_idxes_vec)@.len() as int),
        names_match(final(global_idxes_vec)@, p, names.deep_view(), final(buffer)@),
        forall|k: int|
            old(global_idxes_vec)@.len() <= k < final(global_idxes_vec)@.len() ==> span_ok(
                #[trigger] final(global_idxes_vec)@[k],
                final(buffer)@.len() as int,
            ),
{
    let table_start = global_idxes_vec.len();
    let mut j: usize = 0;
    while j < names.len()
        invariant
            j <= names@.len(),
            old(buffer)@.is_prefix_of(buffer@),
            old(global_idxes_vec)@.is_prefix_of(global_idxes_vec@),
            buffer@.len() == old(buffer)@.len() + names_bytes(names.deep_view().take(j as int)),
            global_idxes_vec@.len() == table_start + j,
            forall|k: int|
                0 <= k < j ==> span_bytes(
                    buffer@,
                    #[trigger] global_idxes_vec@[table_start + k],
                ) == names.deep_view()[k],
            forall|k: int|
                table_start <= k < global_idxes_vec@.len() ==> span_ok(
                    #[trigger] global_idxes_vec@[k],
                    buffer@.len() as int,
                ),
        decreases names@.len() - j,
    {
        proof {
            lemma_names_bytes_take_step(names.deep_view(), j as int);
            lemma_names_bytes_take_le(names.deep_view(), j + 1 as int);
            assert(names.deep_view()[j as int] == names@[j as int]@);
            assert(names.deep_view()[j as int].len() >= 1);
        }
        let ghost buf_before = buffer@;
        let sp = append_name(buffer, &names[j]);
        proof {
            assert forall|k: int| 0 <= k < j implies span_bytes(
                buffer@,
                #[trigger] global_idxes_vec@[table_start + k],
            ) == names.deep_view()[k] by {
                lemma_span_bytes_prefix(buf_before, buffer@, global_idxes_vec@[table_start + k]);
            }
        }
        global_idxes_vec.push(sp);
        j += 1;
    }
    proof {
        assert(names.deep_view().take(names@.len() as int) =~= names.deep_view());
    }
    let p = I32Pair {
        first: table_start as u32,
        second: (global_idxes_vec.len() - 1) as u32,
    };
    p
}

/// Checks one name list: nonempty, and no empty name.
fn names_list_ok_exec(names: &Vec<Vec<u8>>) -> (r: bool)
    ensures
        r == names_list_ok(names.deep_view()),
{
    if names.len() == 0 {
        return false;
    }
    let mut j: usize = 0;
    while j < names.len()
        invariant
            j <= names@.len(),
            names@.len() >= 1,
            forall|k: int| 0 <= k < j ==> names.deep_view()[k].len() >= 1,
        decreases names@.len() - j,
    {
        if names[j].len() == 0 {
            proof {
                assert(names.deep_view()[j as int].len() == 0);
            }
            return false;
        }
        proof {
            assert(names.deep_view()[j as int] == names@[j as int]@);
        }
        j += 1;
    }
    true
}

/// Checks the shape of one tree instruction: no empty name, no empty list,
/// no explicit absence marker.
#[verifier::loop_isolation(false)]
fn instr_shape_ok_exec(ti: &TreeInstr) -> (r: bool)
    ensures
        r == instr_shape_ok(*ti),
{
    if let Some(d) = &ti.dest {
        if d.len() == 0 {
            return false;
        }
    }
    if let Some(t) = &ti.ty {
        if matches!(t, Type::Null) {
            return false;
        }
    }
    if let Some(v) = &ti.value {
        if matches!(v, BrilValue::Null) {
            return false;
        }
    }
    if let Some(names) = &ti.args {
        if !names_list_ok_exec(names) {
            return false;
        }
    }
    if let Some(names) = &ti.labels {
        if !names_list_ok_exec(names) {
            return false;
        }
    }
    if let Some(fs) = &ti.funcs {
        let mut j: usize = 0;
        while j < fs.len()
            invariant
                j <= fs@.len(),
                ti.funcs == Some(*fs),
                instr_shape_ok_but_funcs(*ti),
                forall|k: int| 0 <= k < j ==> (#[trigger] fs@[k])@.len() >= 1,
        decreases fs@.len() - j,
        {
            if fs[j].len() == 0 {
                proof {
                    assert((fs@[j as int])@.len() == 0);
                }
                return false;
            }
            proof {
                assert((fs@[j as int])@.len() >= 1);
            }
            j += 1;
        }
    }
    true
}

/// The shape conditions of `instr_shape_ok` that do not concern `funcs`.
pub open spec fn instr_shape_ok_but_funcs(ti: TreeInstr) -> bool {
    &&& (ti.dest matches Some(d) ==> d@.len() >= 1)
    &&& ti.ty != Some(Type::Null)
    &&& ti.value != Some(BrilValue::Null)
    &&& (ti.args matches Some(names) ==> names_list_ok(names.deep_view()))
    &&& (ti.labels matches Some(names) ==> names_list_ok(names.deep_view()))
}

/// Checks the arities of one tree instruction against its opcode.
fn instr_arity_ok_exec(op: Opcode, ti: &TreeInstr) -> (r: bool)
    ensures
        r == instr_arity_ok(op, *ti),
{
    if matches!(op, Opcode::Jmp) {
        match &ti.labels {
            Some(ls) => if ls.len() != 1 {
                return false;
            },
            None => {
                return false;
            },
        }
    }
    if matches!(op, Opcode::Br) {
        match &ti.labels {
            Some(ls) => if ls.len() != 2 {
                return false;
            },
            None => {
                return false;
            },
        }
    }
    if let Some(fs) = &ti.funcs {
        if fs.len() != 1 {
            return false;
        }
    }
    true
}

/// Finds the first error of one tree item, if any.
fn check_item(t: &TreeItem) -> (r: Option<FlatError>)
    ensures
        r == item_check(*t),
{
    match t {
        TreeItem::Label(name) => {
            if name.len() == 0 {
                Some(FlatError::ParseShape)
            } else {
                None
            }
        },
        TreeItem::Instr(ti) => {
            match Opcode::opcode_from_text(ti.op.as_str()) {
                None => Some(FlatError::InvalidOpcode),
                Some(op) => {
                    if !instr_shape_ok_exec(ti) {
                        Some(FlatError::ParseShape)
                    } else if !instr_arity_ok_exec(op, ti) {
                        Some(FlatError::ArityMismatch)
                    } else {
                        None
                    }
                },
            }
        },
    }
}

/// Sums the byte lengths of a name list, giving up as soon as the running
/// total leaves the 32-bit budget.
#[verifier::loop_isolation(false)]
fn names_total_capped(names: &Vec<Vec<u8>>) -> (r: Option<u64>)
    ensures
        r matches Some(v) ==> v == names_bytes(names.deep_view()) && v <= u32::MAX as u64,
        r is None ==> names_bytes(names.deep_view()) > u32::MAX,
{
    let mut acc: u64 = 0;
    let mut j: usize = 0;
    while j < names.len()
        invariant
            j <= names@.len(),
            acc == names_bytes(names.deep_view().take(j as int)),
            acc <= u32::MAX as u64,
        decreases names@.len() - j,
    {
        let len = names[j].len();
        proof {
            lemma_names_bytes_take_step(names.deep_view(), j as int);
            assert(names.deep_view()[j as int] == names@[j as int]@);
        }
        if len as u64 > u32::MAX as u64 - acc {
            proof {
                lemma_names_bytes_take_le(names.deep_view(), j + 1 as int);
            }
            return None;
        }
        acc = acc + len as u64;
        j += 1;
    }
    proof {
        assert(names.deep_view().take(names@.len() as int) =~= names.deep_view());
    }
    Some(acc)
}

/// Sums the byte lengths of the declared parameter names under the same
/// 32-bit budget.
#[verifier::loop_isolation(false)]
fn params_total_capped(params: &Vec<FuncParam>) -> (r: Option<u64>)
    ensures
        r matches Some(v) ==> v == params_bytes(params@) && v <= u32::MAX as u64,
        r is None ==> params_bytes(params@) > u32::MAX,
{
    let mut acc: u64 = 0;
    let mut j: usize = 0;
    while j < params.len()
        invariant
            j <= params@.len(),
            acc == params_bytes(params@.take(j as int)),
            acc <= u32::MAX as u64,
        decreases params@.len() - j,
    {
        let len = params[j].name.len();
        proof {
            lemma_params_bytes_take_step(params@, j as int);
        }
        if len as u64 > u32::MAX as u64 - acc {
            proof {
                lemma_params_bytes_take_le(params@, j + 1 as int);
                assert(params_bytes(params@.take(j + 1 as int)) <= params_bytes(params@));
            }
            return None;
        }
        acc = acc + len as u64;
        j += 1;
    }
    proof {
        assert(params@.take(params@.len() as int) =~= params@);
    }
    Some(acc)
}

/// Checks that flattening the whole function stays inside the fixed 32-bit
/// index width of every buffer.
#[verifier::loop_isolation(false)]
fn check_fits(f: &Function) -> (r: bool)
    ensures
        r == function_fits(*f),
{
    proof {
        lemma_items_tally_nonneg(f.instrs@);
        lemma_params_bytes_nonneg(f.args@);
    }
    if f.name.len() > u32::MAX as usize {
        return false;
    }
    let mut var_b: u64;
    match params_total_capped(&f.args) {
        None => {
            return false;
        },
        Some(v) => {
            var_b = v;
        },
    }
    let mut arg_s: u64 = 0;
    let mut label_b: u64 = 0;
    let mut label_s: u64 = 0;
    let mut func_b: u64 = 0;
    let ghost tree = f.instrs@;
    let mut i: usize = 0;
    while i < f.instrs.len()
        invariant
            i <= tree.len(),
            var_b == params_bytes(f.args@) + items_tally(tree.take(i as int)).var_bytes,
            arg_s == items_tally(tree.take(i as int)).arg_spans,
            label_b == items_tally(tree.take(i as int)).label_bytes,
            label_s == items_tally(tree.take(i as int)).label_spans,
            func_b == items_tally(tree.take(i as int)).func_bytes,
            var_b <= u32::MAX as u64,
            arg_s <= u32::MAX as u64,
            label_b <= u32::MAX as u64,
            label_s <= u32::MAX as u64,
            func_b <= u32::MAX as u64,
        decreases tree.len() - i,
    {
        proof {
            lemma_items_tally_take_step(tree, i as int);
            lemma_items_tally_take_le(tree, i + 1 as int);
            lemma_item_tally_nonneg(tree[i as int]);
            lemma_items_tally_nonneg(tree.take(i as int));
        }
        match &f.instrs[i] {
            TreeItem::Label(name) => {
                let len = name.len();
                if len as u64 > u32::MAX as u64 - label_b {
                    return false;
                }
                label_b = label_b + len as u64;
            },
            TreeItem::Instr(ti) => {
                if let Some(names) = &ti.args {
                    match names_total_capped(names) {
                        None => {
                            return false;
                        },
                        Some(v) => {
                            if v > u32::MAX as u64 - var_b {
                                return false;
                            }
                            var_b = var_b + v;
                        },
                    }
                    let cnt = names.len();
                    if cnt as u64 > u32::MAX as u64 - arg_s {
                        return false;
                    }
                    arg_s = arg_s + cnt as u64;
                }
                if let Some(d) = &ti.dest {
                    let len = d.len();
                    if len as u64 > u32::MAX as u64 - var_b {
                        return false;
                    }
                    var_b = var_b + len as u64;
                }
                if let Some(names) = &ti.labels {
                    match names_total_capped(names) {
                        None => {
                            return false;
                        },
                        Some(v) => {
                            if v > u32::MAX as u64 - label_b {
                                return false;
                            }
                            label_b = label_b + v;
                        },
                    }
                    let cnt = names.len();
                    if cnt as u64 > u32::MAX as u64 - label_s {
                        return false;
                    }
                    label_s = label_s + cnt as u64;
                }
                if let Some(fs) = &ti.funcs {
                    match names_total_capped(fs) {
                        None => {
                            return false;
                        },
                        Some(v) => {
                            if v > u32::MAX as u64 - func_b {
                                return false;
                            }
                            func_b = func_b + v;
                        },
                    }
                }
            },
        }
        i += 1;
    }
    proof {
        assert(tree.take(tree.len() as int) =~= tree);
    }
    true
}

/// Finds the first error of a whole function, in the fixed order the
/// encoder uses: the function name, the parameter list, each item in source
/// order, then the 32-bit size budget.
#[verifier::loop_isolation(false)]
pub fn check_function(f: &Function) -> (r: Option<FlatError>)
    ensures
        r == function_check(*f),
{
    if f.name.len() == 0 {
        return Some(FlatError::ParseShape);
    }
    let mut k: usize = 0;
    while k < f.args.len()
        invariant
            k <= f.args@.len(),
            forall|j: int|
                0 <= j < k ==> (#[trigger] f.args@[j]).name@.len() >= 1 && f.args@[j].ty
                    != Type::Null,
        decreases f.args@.len() - k,
    {
        if f.args[k].name.len() == 0 {
            return Some(FlatError::ParseShape);
        }
        if matches!(f.args[k].ty, Type::Null) {
            return Some(FlatError::ParseShape);
        }
        k += 1;
    }
    if let Some(t) = &f.ret_ty {
        if matches!(t, Type::Null) {
            return Some(FlatError::ParseShape);
        }
    }
    let mut i: usize = 0;
    while i < f.instrs.len()
        invariant
            i <= f.instrs@.len(),
            params_ok(*f),
            forall|j: int| 0 <= j < i ==> item_check(#[trigger] f.instrs@[j]) is None,
        decreases f.instrs@.len() - i,
    {
        if let Some(e) = check_item(&f.instrs[i]) {
            proof {
                lemma_items_check_first(f.instrs@, i as int);
            }
            return Some(e);
        }
        i += 1;
    }
    proof {
        lemma_items_check_none(f.instrs@);
    }
    if !check_fits(f) {
        return Some(FlatError::ParseShape);
    }
    None
}

/// When every parameter name is nonempty, there are no more parameters than
/// name bytes.
proof fn lemma_params_count_le_bytes(params: Seq<FuncParam>)
    requires
        forall|k: int| 0 <= k < params.len() ==> (#[trigger] params[k]).name@.len() >= 1,
    ensures
        params.len() <= params_bytes(params),
    decreases params.len(),
{
    if params.len() > 0 {
        assert(params[0].name@.len() >= 1);
        assert(forall|k: int|
            0 <= k < params.drop_first().len() ==> (#[trigger] params.drop_first()[k]).name@.len()
                >= 1);
        lemma_params_count_le_bytes(params.drop_first());
    }
}

/// Flattens one tree item against the encoder's working buffers: appends
/// whatever names and spans the item needs, and returns the flattened item.
fn encode_item(
    t: &TreeItem,
    var_store: &mut Vec<u8>,
    args_idxes_store: &mut Vec<I32Pair>,
    labels_idxes_store: &mut Vec<I32Pair>,
    labels_store: &mut Vec<u8>,
    funcs_store: &mut Vec<u8>,
) -> (it: InstrOrLabel)
    requires
        item_check(*t) is None,
        old(var_store)@.len() + item_tally(*t).var_bytes <= u32::MAX,
        old(args_idxes_store)@.len() + item_tally(*t).arg_spans <= u32::MAX,
        old(labels_store)@.len() + item_tally(*t).label_bytes <= u32::MAX,
        old(labels_idxes_store)@.len() + item_tally(*t).label_spans <= u32::MAX,
        old(funcs_store)@.len() + item_tally(*t).func_bytes <= u32::MAX,
    ensures
        (bufs_from(
            old(var_store)@,
            old(args_idxes_store)@,
            old(labels_idxes_store)@,
            old(labels_store)@,
            old(funcs_store)@,
        ).extends(
            bufs_from(
                final(var_store)@,
                final(args_idxes_store)@,
                final(labels_idxes_store)@,
                final(labels_store)@,
                final(funcs_store)@,
            ),
        )),
        final(var_store)@.len() == old(var_store)@.len() + item_tally(*t).var_bytes,
        final(args_idxes_store)@.len() == old(args_idxes_store)@.len() + item_tally(*t).arg_spans,
        final(labels_store)@.len() == old(labels_store)@.len() + item_tally(*t).label_bytes,
        final(labels_idxes_store)@.len() == old(labels_idxes_store)@.len() + item_tally(
            *t,
        ).label_spans,
        final(funcs_store)@.len() == old(funcs_store)@.len() + item_tally(*t).func_bytes,
        forall|k: int|
            old(args_idxes_store)@.len() <= k < final(args_idxes_store)@.len() ==> span_ok(
                #[trigger] final(args_idxes_store)@[k],
                final(var_store)@.len() as int,
            ),
        forall|k: int|
            old(labels_idxes_store)@.len() <= k < final(labels_idxes_store)@.len() ==> span_ok(
                #[trigger] final(labels_idxes_store)@[k],
                final(labels_store)@.len() as int,
            ),
        item_wf(
            it,
            (bufs_from(
                final(var_store)@,
                final(args_idxes_store)@,
                final(labels_idxes_store)@,
                final(labels_store)@,
                final(funcs_store)@,
            )),
        ),
        item_matches(
            (bufs_from(
                final(var_store)@,
                final(args_idxes_store)@,
                final(labels_idxes_store)@,
                final(labels_store)@,
                final(funcs_store)@,
            )),
            it,
            *t,
        ),
{
    match t {
        TreeItem::Label(name) => {
            let p = append_name(labels_store, name);
            InstrOrLabel::Label(p)
        },
        TreeItem::Instr(ti) => {
            let op = match Opcode::opcode_from_text(ti.op.as_str()) {
                Some(op) => op,
                None => {
                    proof {
                        assert(false);
                    }
                    Opcode::Nop
                },
            };
            let op_idx = op.get_index() as u32;

            // Argument names first, exactly as they reach the buffers.
            let mut args_span: Option<I32Pair> = None;
            if let Some(names) = &ti.args {
                proof {
                    lemma_names_bytes_nonneg(names.deep_view());
                }
                let p = flatten_instr_array_fields(names, args_idxes_store, var_store);
                args_span = Some(p);
            }
            let ghost var1 = var_store@;

            // Then the destination name.
            let mut dest_span: Option<I32Pair> = None;
            if let Some(d) = &ti.dest {
                let p = append_name(var_store, d);
                dest_span = Some(p);
            }
            proof {
                // The argument spans keep addressing their names after the
                // destination grew the variable buffer.
                if let (Some(p), Some(names)) = (args_span, &ti.args) {
                    lemma_names_match_prefix(
                        args_idxes_store@,
                        args_idxes_store@,
                        p,
                        names.deep_view(),
                        var1,
                        var_store@,
                    );
                }
            }

            // Target labels, via the label span table.
            let mut labels_span: Option<I32Pair> = None;
            if let Some(names) = &ti.labels {
                proof {
                    lemma_names_bytes_nonneg(names.deep_view());
                }
                let p = flatten_instr_array_fields(names, labels_idxes_store, labels_store);
                labels_span = Some(p);
            }

            // At most one called function, addressed directly.
            let mut funcs_span: Option<I32Pair> = None;
            if let Some(fs) = &ti.funcs {
                proof {
                    assert(fs.deep_view().len() == 1);
                    assert(names_bytes(fs.deep_view()) == fs.deep_view()[0].len() + names_bytes(
                        fs.deep_view().drop_first(),
                    ));
                    assert(fs.deep_view().drop_first().len() == 0);
                    assert(fs.deep_view()[0] == fs@[0]@);
                }
                let p = append_name(funcs_store, &fs[0]);
                funcs_span = Some(p);
            }

            let record = Instr {
                op: op_idx,
                dest: dest_span,
                ty: ti.ty,
                value: ti.value,
                args: args_span,
                labels: labels_span,
                funcs: funcs_span,
            };
            InstrOrLabel::Instr(record)
        },
    }
}

/// A prefix shares every index with the longer sequence.
proof fn lemma_prefix_index<T>(a: Seq<T>, b: Seq<T>, k: int)
    requires
        a.is_prefix_of(b),
        0 <= k < a.len(),
    ensures
        a[k] == b[k],
{
    assert(a[k] == b.subrange(0, a.len() as int)[k]);
}

/// Flattens a whole valid function into its store.
#[verifier::loop_isolation(false)]
fn encode_function(f: &Function) -> (s: InstrStore)
    requires
        function_check(*f) is None,
    ensures
        store_wf(s),
        store_matches_function(s, *f),
{
    proof {
        lemma_items_check_none(f.instrs@);
        lemma_items_tally_nonneg(f.instrs@);
        lemma_params_bytes_nonneg(f.args@);
    }
    let mut func_name: Vec<u8> = Vec::new();
    append_bytes(&mut func_name, &f.name);

    let mut var_store: Vec<u8> = Vec::new();
    let mut func_args: Vec<FuncArg> = Vec::new();
    let mut k: usize = 0;
    while k < f.args.len()
        invariant
            k <= f.args@.len(),
            var_store@.len() == params_bytes(f.args@.take(k as int)),
            var_store@.len() <= params_bytes(f.args@),
            func_args@.len() == k,
            forall|j: int|
                0 <= j < k ==> {
                    &&& span_ok(
                        (#[trigger] func_args@[j]).arg_name_idxes,
                        var_store@.len() as int,
                    )
                    &&& span_bytes(var_store@, func_args@[j].arg_name_idxes) == f.args@[j].name@
                    &&& func_args@[j].arg_type == f.args@[j].ty
                },
        decreases f.args@.len() - k,
    {
        proof {
            lemma_params_bytes_take_step(f.args@, k as int);
            lemma_params_bytes_take_le(f.args@, k + 1 as int);
        }
        let ghost var_before = var_store@;
        let p = append_name(&mut var_store, &f.args[k].name);
        proof {
            assert forall|j: int| 0 <= j < k implies span_bytes(
                var_store@,
                (#[trigger] func_args@[j]).arg_name_idxes,
            ) == f.args@[j].name@ by {
                lemma_span_bytes_prefix(var_before, var_store@, func_args@[j].arg_name_idxes);
            }
        }
        func_args.push(FuncArg { arg_name_idxes: p, arg_type: f.args[k].ty });
        k += 1;
    }
    proof {
        assert(f.args@.take(f.args@.len() as int) =~= f.args@);
    }

    let mut args_idxes_store: Vec<I32Pair> = Vec::new();
    let mut labels_idxes_store: Vec<I32Pair> = Vec::new();
    let mut labels_store: Vec<u8> = Vec::new();
    let mut funcs_store: Vec<u8> = Vec::new();
    let mut items: Vec<InstrOrLabel> = Vec::new();

    let ghost tree = f.instrs@;
    let mut i: usize = 0;
    while i < f.instrs.len()
        invariant
            i <= tree.len(),
            items@.len() == i,
            var_store@.len() == params_bytes(f.args@) + items_tally(
                tree.take(i as int),
            ).var_bytes,
            args_idxes_store@.len() == items_tally(tree.take(i as int)).arg_spans,
            labels_store@.len() == items_tally(tree.take(i as int)).label_bytes,
            labels_idxes_store@.len() == items_tally(tree.take(i as int)).label_spans,
            funcs_store@.len() == items_tally(tree.take(i as int)).func_bytes,
            (bufs_from(
                var_store@,
                args_idxes_store@,
                labels_idxes_store@,
                labels_store@,
                funcs_store@,
            ).tables_wf()),
            forall|j: int|
                0 <= j < i ==> item_wf(
                    #[trigger] items@[j],
                    (bufs_from(
                        var_store@,
                        args_idxes_store@,
                        labels_idxes_store@,
                        labels_store@,
                        funcs_store@,
                    )),
                ),
            forall|j: int|
                0 <= j < i ==> item_matches(
                    (bufs_from(
                        var_store@,
                        args_idxes_store@,
                        labels_idxes_store@,
                        labels_store@,
                        funcs_store@,
                    )),
                    #[trigger] items@[j],
                    tree[j],
                ),
            func_args@.len() == f.args@.len(),
            forall|j: int|
                0 <= j < f.args@.len() ==> {
                    &&& span_ok(
                        (#[trigger] func_args@[j]).arg_name_idxes,
                        var_store@.len() as int,
                    )
                    &&& span_bytes(var_store@, func_args@[j].arg_name_idxes) == f.args@[j].name@
                    &&& func_args@[j].arg_type == f.args@[j].ty
                },
        decreases tree.len() - i,
    {
        proof {
            lemma_items_tally_take_step(tree, i as int);
            lemma_items_tally_take_le(tree, i + 1 as int);
            lemma_item_tally_nonneg(tree[i as int]);
            lemma_items_tally_nonneg(tree.take(i as int));
        }
        let ghost b_before = bufs_from(
            var_store@,
            args_idxes_store@,
            labels_idxes_store@,
            labels_store@,
            funcs_store@,
        );
        let it = encode_item(
            &f.instrs[i],
            &mut var_store,
            &mut args_idxes_store,
            &mut labels_idxes_store,
            &mut labels_store,
            &mut funcs_store,
        );
        proof {
            let b_after = bufs_from(
                var_store@,
                args_idxes_store@,
                labels_idxes_store@,
                labels_store@,
                funcs_store@,
            );
            assert(b_after.tables_wf()) by {
                assert forall|j: int| 0 <= j < b_after.args_idxes.len() implies span_ok(
                    #[trigger] b_after.args_idxes[j],
                    b_after.var_store.len() as int,
                ) by {
                    if j < b_before.args_idxes.len() {
                        lemma_prefix_index(b_before.args_idxes, b_after.args_idxes, j);
                    }
                }
                assert forall|j: int| 0 <= j < b_after.labels_idxes.len() implies span_ok(
                    #[trigger] b_after.labels_idxes[j],
                    b_after.labels_store.len() as int,
                ) by {
                    if j < b_before.labels_idxes.len() {
                        lemma_prefix_index(b_before.labels_idxes, b_after.labels_idxes, j);
                    }
                }
            }
            assert forall|j: int| 0 <= j < i implies item_wf(#[trigger] items@[j], b_after)
                && item_matches(b_after, items@[j], tree[j]) by {
                lemma_item_matches_stable(b_before, b_after, items@[j], tree[j]);
            }
            assert forall|j: int| 0 <= j < f.args@.len() implies span_bytes(
                var_store@,
                (#[trigger] func_args@[j]).arg_name_idxes,
            ) == f.args@[j].name@ by {
                lemma_span_bytes_prefix(
                    b_before.var_store,
                    b_after.var_store,
                    func_args@[j].arg_name_idxes,
                );
            }
        }
        items.push(it);
        i += 1;
    }
    proof {
        assert(tree.take(tree.len() as int) =~= tree);
        lemma_params_count_le_bytes(f.args@);
    }
    InstrStore {
        func_name,
        func_args,
        func_ret_ty: f.ret_ty,
        var_store,
        args_idxes_store,
        labels_idxes_store,
        labels_store,
        funcs_store,
        instrs_and_labels: items,
    }
}

/// The encoder's entry point: checks a function tree and flattens it into a
/// store. Succeeds exactly on valid inputs; on an invalid input it returns
/// the first error of the fixed checking order.
pub fn create_instrs(func: &Function) -> (r: Result<InstrStore, FlatError>)
    ensures
        r matches Ok(s) ==> store_wf(s) && store_matches_function(s, *func),
        r is Ok <==> function_ok(*func),
        r matches Err(e) ==> function_check(*func) == Some(e),
{
    match check_function(func) {
        Some(e) => Err(e),
        None => Ok(encode_function(func)),
    }
}

/// Span well-formedness: every span a well-formed store holds — in its span
/// tables, its parameter list and its items — satisfies `second >= first`.
/// The encoder only produces well-formed stores, so this holds of every span
/// it writes.
pub proof fn lemma_encoder_spans_wf(s: InstrStore)
    requires
        store_wf(s),
    ensures
        forall|k: int|
            0 <= k < s.args_idxes_store@.len() ==> (#[trigger] s.args_idxes_store@[k]).second
                >= s.args_idxes_store@[k].first,
        forall|k: int|
            0 <= k < s.labels_idxes_store@.len() ==> (#[trigger] s.labels_idxes_store@[k]).second
                >= s.labels_idxes_store@[k].first,
        forall|k: int|
            0 <= k < s.func_args@.len() ==> (#[trigger] s.func_args@[k]).arg_name_idxes.second
                >= s.func_args@[k].arg_name_idxes.first,
        forall|k: int|
            0 <= k < s.instrs_and_labels@.len() ==> item_spans_wf(#[trigger] s.instrs_and_labels@[k]),
{
    let b = crate::model::bufs_of(s);
    assert forall|k: int| 0 <= k < s.args_idxes_store@.len() implies (
    #[trigger] s.args_idxes_store@[k]).second >= s.args_idxes_store@[k].first by {
        assert(span_ok(b.args_idxes[k], b.var_store.len() as int));
    }
    assert forall|k: int| 0 <= k < s.labels_idxes_store@.len() implies (
    #[trigger] s.labels_idxes_store@[k]).second >= s.labels_idxes_store@[k].first by {
        assert(span_ok(b.labels_idxes[k], b.labels_store.len() as int));
    }
    assert forall|k: int| 0 <= k < s.instrs_and_labels@.len() implies item_spans_wf(
        #[trigger] s.instrs_and_labels@[k],
    ) by {
        assert(item_wf(s.instrs_and_labels@[k], b));
    }
}

/// Every present span of one item is inclusive-ordered (`second >= first`).
pub open spec fn item_spans_wf(it: InstrOrLabel) -> bool {
    match it {
        InstrOrLabel::Label(p) => p.second >= p.first,
        InstrOrLabel::Instr(i) => {
            &&& (i.dest matches Some(p) ==> p.second >= p.first)
            &&& (i.args matches Some(p) ==> p.second >= p.first)
            &&& (i.labels matches Some(p) ==> p.second >= p.first)
            &&& (i.funcs matches Some(p) ==> p.second >= p.first)
        },
    }
}

} // verus!
