//! The decoder: projects a flattened store back into tree-structured form,
//! reading every name back out of the buffers through its spans. Used for
//! conformance checks and external consumption.
use vstd::prelude::*;

use crate::model::{
    bufs_of, item_matches, names_match, span_bytes, span_ok, store_matches_function, store_wf,
    StoreBufs,
};
use crate::types::{
    op_of_index, opcode_of_text, opcode_text, FlatError, FuncParam, Function, I32Pair, Instr,
    InstrOrLabel, InstrStore, Opcode, TreeInstr, TreeItem, NUM_OPCODES,
};

verus! {

/// One item can be read back out of the buffers: its opcode index is in
/// range and every span it references (directly, or through a span table)
/// stays inside its buffer.
pub open spec fn item_decodable(it: InstrOrLabel, b: StoreBufs) -> bool {
    match it {
        InstrOrLabel::Label(p) => span_ok(p, b.labels_store.len() as int),
        InstrOrLabel::Instr(i) => {
            &&& i.op < NUM_OPCODES as u32
            &&& (i.dest matches Some(p) ==> span_ok(p, b.var_store.len() as int))
            &&& (i.args matches Some(p) ==> span_ok(p, b.args_idxes.len() as int) && forall|
                k: int,
            |
                p.first <= k <= p.second ==> span_ok(
                    #[trigger] b.args_idxes[k],
                    b.var_store.len() as int,
                ))
            &&& (i.labels matches Some(p) ==> span_ok(p, b.labels_idxes.len() as int) && forall|
                k: int,
            |
                p.first <= k <= p.second ==> span_ok(
                    #[trigger] b.labels_idxes[k],
                    b.labels_store.len() as int,
                ))
            &&& (i.funcs matches Some(p) ==> span_ok(p, b.funcs_store.len() as int))
        },
    }
}

/// A whole store can be read back into tree form: every item is decodable
/// and every parameter name span stays inside the variable buffer.
pub open spec fn store_decodable(s: InstrStore) -> bool {
    &&& forall|k: int|
        0 <= k < s.instrs_and_labels@.len() ==> item_decodable(
            #[trigger] s.instrs_and_labels@[k],
            bufs_of(s),
        )
    &&& forall|k: int|
        0 <= k < s.func_args@.len() ==> span_ok(
            (#[trigger] s.func_args@[k]).arg_name_idxes,
            s.var_store@.len() as int,
        )
}

/// A well-formed store (as the encoder produces) can always be read back.
pub proof fn lemma_wf_store_decodable(s: InstrStore)
    requires
        store_wf(s),
    ensures
        store_decodable(s),
{
    assert forall|k: int| 0 <= k < s.instrs_and_labels@.len() implies item_decodable(
        #[trigger] s.instrs_and_labels@[k],
        bufs_of(s),
    ) by {
        assert(crate::model::item_wf(s.instrs_and_labels@[k], bufs_of(s)));
    }
}

/// Copies the byte run addressed by `p` out of `buf`; `CorruptBinary` when
/// the span leaves the buffer.
fn read_span(buf: &Vec<u8>, p: I32Pair) -> (r: Result<Vec<u8>, FlatError>)
    ensures
        r matches Ok(v) ==> span_ok(p, buf@.len() as int) && v@ == span_bytes(buf@, p) && v@.len()
            >= 1,
        r is Ok <==> span_ok(p, buf@.len() as int),
        r matches Err(e) ==> e == FlatError::CorruptBinary,
{
    if p.first > p.second || (p.second as usize) >= buf.len() {
        return Err(FlatError::CorruptBinary);
    }
    let blen = buf.len();
    let mut v: Vec<u8> = Vec::new();
    let mut j: usize = p.first as usize;
    let end: usize = p.second as usize;
    while j <= end
        invariant
            p.first <= j <= end + 1,
            end == p.second as int,
            end < blen,
            blen == buf@.len(),
            span_ok(p, buf@.len() as int),
            v@ == buf@.subrange(p.first as int, j as int),
        decreases end + 1 - j,
    {
        v.push(buf[j]);
        proof {
            assert(buf@.subrange(p.first as int, j + 1 as int) =~= buf@.subrange(
                p.first as int,
                j as int,
            ).push(buf@[j as int]));
        }
        j += 1;
    }
    Ok(v)
}

/// Reads the list of names addressed by the table entries `p.first ..=
/// p.second`; `CorruptBinary` when the range leaves the table or any entry
/// leaves the name buffer.
#[verifier::loop_isolation(false)]
fn read_names(table: &Vec<I32Pair>, p: I32Pair, buf: &Vec<u8>) -> (r: Result<
    Vec<Vec<u8>>,
    FlatError,
>)
    ensures
        r matches Ok(names) ==> {
            &&& span_ok(p, table@.len() as int)
            &&& names_match(table@, p, names.deep_view(), buf@)
            &&& names@.len() == p.second - p.first + 1
            &&& forall|k: int|
                p.first <= k <= p.second ==> span_ok(#[trigger] table@[k], buf@.len() as int)
        },
        r is Ok <==> span_ok(p, table@.len() as int) && (forall|k: int|
            p.first <= k <= p.second ==> span_ok(#[trigger] table@[k], buf@.len() as int)),
        r matches Err(e) ==> e == FlatError::CorruptBinary,
{
    if p.first > p.second || (p.second as usize) >= table.len() {
        return Err(FlatError::CorruptBinary);
    }
    let mut names: Vec<Vec<u8>> = Vec::new();
    let mut j: usize = p.first as usize;
    let end: usize = p.second as usize;
    while j <= end
        invariant
            p.first <= j <= end + 1,
            names@.len() == j - p.first,
            forall|k: int|
                p.first <= k < j ==> span_ok(#[trigger] table@[k], buf@.len() as int),
            forall|k: int|
                0 <= k < names@.len() ==> span_bytes(buf@, table@[p.first + k])
                    == #[trigger] names.deep_view()[k],
        decreases end + 1 - j,
    {
        match read_span(buf, table[j]) {
            Ok(name) => {
                let ghost old_deep = names.deep_view();
                let ghost nv = name@;
                names.push(name);
                proof {
                    assert forall|k: int| 0 <= k < names@.len() implies span_bytes(
                        buf@,
                        table@[p.first + k],
                    ) == #[trigger] names.deep_view()[k] by {
                        assert(names.deep_view()[k] == names@[k]@);
                        if k < names@.len() - 1 {
                            assert(names.deep_view()[k] == old_deep[k]);
                        } else {
                            assert(names@[k]@ == nv);
                        }
                    }
                }
            },
            Err(e) => {
                return Err(e);
            },
        }
        j += 1;
    }
    Ok(names)
}

/// Reads one flattened item back into tree form.
#[verifier::loop_isolation(false)]
fn decode_item(s: &InstrStore, it: &InstrOrLabel) -> (r: Result<TreeItem, FlatError>)
    ensures
        r matches Ok(t) ==> item_matches(bufs_of(*s), *it, t),
        r is Ok <==> item_decodable(*it, bufs_of(*s)),
        r matches Err(e) ==> e == FlatError::CorruptBinary,
{
    match it {
        InstrOrLabel::Label(p) => {
            let name = read_span(&s.labels_store, *p)?;
            Ok(TreeItem::Label(name))
        },
        InstrOrLabel::Instr(i) => {
            if i.op >= NUM_OPCODES as u32 {
                return Err(FlatError::CorruptBinary);
            }
            let op_str = Opcode::op_idx_to_op_str(i.op as usize);
            proof {
                crate::types::lemma_opcode_text_round_trip();
            }
            let mut dest: Option<Vec<u8>> = None;
            if let Some(p) = &i.dest {
                dest = Some(read_span(&s.var_store, *p)?);
            }
            let mut args: Option<Vec<Vec<u8>>> = None;
            if let Some(p) = &i.args {
                args = Some(read_names(&s.args_idxes_store, *p, &s.var_store)?);
            }
            let mut labels: Option<Vec<Vec<u8>>> = None;
            if let Some(p) = &i.labels {
                labels = Some(read_names(&s.labels_idxes_store, *p, &s.labels_store)?);
            }
            let mut funcs: Option<Vec<Vec<u8>>> = None;
            if let Some(p) = &i.funcs {
                let name = read_span(&s.funcs_store, *p)?;
                let mut fs: Vec<Vec<u8>> = Vec::new();
                fs.push(name);
                funcs = Some(fs);
            }
            Ok(
                TreeItem::Instr(
                    TreeInstr { op: op_str, dest, ty: i.ty, value: i.value, args, labels, funcs },
                ),
            )
        },
    }
}

/// Projects a flattened store back into its tree form, in source order.
/// Succeeds exactly when every span of the store stays inside its buffer;
/// a well-formed store therefore always reads back.
#[verifier::loop_isolation(false)]
pub fn unflatten_instrs(instr_store: &InstrStore) -> (r: Result<Function, FlatError>)
    ensures
        r matches Ok(out) ==> store_matches_function(*instr_store, out),
        r is Ok <==> store_decodable(*instr_store),
        r matches Err(e) ==> e == FlatError::CorruptBinary,
        store_wf(*instr_store) ==> r is Ok,
{
    proof {
        if store_wf(*instr_store) {
            lemma_wf_store_decodable(*instr_store);
        }
    }
    let mut name: Vec<u8> = Vec::new();
    let mut j: usize = 0;
    while j < instr_store.func_name.len()
        invariant
            j <= instr_store.func_name@.len(),
            name@ == instr_store.func_name@.take(j as int),
        decreases instr_store.func_name@.len() - j,
    {
        name.push(instr_store.func_name[j]);
        proof {
            assert(instr_store.func_name@.take(j + 1 as int) =~= instr_store.func_name@.take(
                j as int,
            ).push(instr_store.func_name@[j as int]));
        }
        j += 1;
    }
    proof {
        assert(instr_store.func_name@.take(instr_store.func_name@.len() as int)
            =~= instr_store.func_name@);
    }

    let mut params: Vec<FuncParam> = Vec::new();
    let mut k: usize = 0;
    while k < instr_store.func_args.len()
        invariant
            k <= instr_store.func_args@.len(),
            params@.len() == k,
            forall|j: int|
                0 <= j < k ==> {
                    &&& span_ok(
                        (#[trigger] instr_store.func_args@[j]).arg_name_idxes,
                        instr_store.var_store@.len() as int,
                    )
                    &&& params@[j].name@ == span_bytes(
                        instr_store.var_store@,
                        instr_store.func_args@[j].arg_name_idxes,
                    )
                    &&& params@[j].ty == instr_store.func_args@[j].arg_type
                },
        decreases instr_store.func_args@.len() - k,
    {
        let fa = &instr_store.func_args[k];
        let pname = match read_span(&instr_store.var_store, fa.arg_name_idxes) {
            Ok(v) => v,
            Err(e) => {
                return Err(e);
            },
        };
        params.push(FuncParam { name: pname, ty: fa.arg_type });
        k += 1;
    }

    let mut items: Vec<TreeItem> = Vec::new();
    let mut i: usize = 0;
    while i < instr_store.instrs_and_labels.len()
        invariant
            i <= instr_store.instrs_and_labels@.len(),
            items@.len() == i,
            forall|j: int|
                0 <= j < i ==> item_matches(
                    bufs_of(*instr_store),
                    instr_store.instrs_and_labels@[j],
                    #[trigger] items@[j],
                ) && item_decodable(instr_store.instrs_and_labels@[j], bufs_of(*instr_store)),
        decreases instr_store.instrs_and_labels@.len() - i,
    {
        match decode_item(instr_store, &instr_store.instrs_and_labels[i]) {
            Ok(t) => {
                items.push(t);
            },
            Err(e) => {
                return Err(e);
            },
        }
        i += 1;
    }
    proof {
        assert forall|k: int| 0 <= k < instr_store.instrs_and_labels@.len() implies item_decodable(
            #[trigger] instr_store.instrs_and_labels@[k],
            bufs_of(*instr_store),
        ) by {
            let t = items@[k];
            assert(item_matches(bufs_of(*instr_store), instr_store.instrs_and_labels@[k], t));
        }
    }
    Ok(Function { name, args: params, ret_ty: instr_store.func_ret_ty, instrs: items })
}

/// Round trip: any two function trees that one well-formed store represents
/// are structurally equal. `create_instrs` guarantees that the store it
/// builds represents its input tree, and `unflatten_instrs` guarantees that
/// the store represents its output tree; together with this lemma,
/// unflattening a flattened tree gives back a tree structurally equal to
/// the input.
pub proof fn lemma_flatten_unflatten_round_trip(s: InstrStore, f: Function, out: Function)
    requires
        store_wf(s),
        store_matches_function(s, f),
        store_matches_function(s, out),
    ensures
        crate::model::function_equiv(f, out),
{
    assert forall|k: int| 0 <= k < f.args@.len() implies (#[trigger] f.args@[k]).name@
        == out.args@[k].name@ && f.args@[k].ty == out.args@[k].ty by {
        assert(span_bytes(s.var_store@, s.func_args@[k].arg_name_idxes) == f.args@[k].name@);
        assert(span_bytes(s.var_store@, s.func_args@[k].arg_name_idxes) == out.args@[k].name@);
    }
    assert forall|k: int| 0 <= k < f.instrs@.len() implies crate::model::tree_item_equiv(
        #[trigger] f.instrs@[k],
        out.instrs@[k],
    ) by {
        assert(crate::model::item_wf(s.instrs_and_labels@[k], bufs_of(s)));
        crate::model::lemma_item_matches_unique(
            bufs_of(s),
            s.instrs_and_labels@[k],
            f.instrs@[k],
            out.instrs@[k],
        );
    }
}

} // verus!