use flat_bril::flatten::{check_function, create_instrs};
use flat_bril::interp::{interp_instr_view, interp_program, Environment, InterpOutcome};
use flat_bril::memfile::{dump_to_buffer, encode_program, get_instr_view, load_program, read_toc};
use flat_bril::types::{
    BrilValue, FlatError, Function, InstrOrLabel, Opcode, TreeInstr, TreeItem, Type,
};
use flat_bril::unflatten::unflatten_instrs;

fn b(s: &str) -> Vec<u8> {
    s.as_bytes().to_vec()
}

#[allow(clippy::too_many_arguments)]
fn instr(
    op: &str,
    dest: Option<&str>,
    ty: Option<Type>,
    value: Option<BrilValue>,
    args: Option<Vec<&str>>,
    labels: Option<Vec<&str>>,
    funcs: Option<Vec<&str>>,
) -> TreeItem {
    TreeItem::Instr(TreeInstr {
        op: op.to_string(),
        dest: dest.map(b),
        ty,
        value,
        args: args.map(|v| v.iter().map(|x| b(x)).collect()),
        labels: labels.map(|v| v.iter().map(|x| b(x)).collect()),
        funcs: funcs.map(|v| v.iter().map(|x| b(x)).collect()),
    })
}

fn label(name: &str) -> TreeItem {
    TreeItem::Label(b(name))
}

fn func(name: &str, instrs: Vec<TreeItem>) -> Function {
    Function { name: b(name), args: Vec::new(), ret_ty: None, instrs }
}

fn run(functions: Vec<Function>, args: Vec<BrilValue>) -> (InterpOutcome, Vec<String>) {
    let mut stores = Vec::new();
    for f in &functions {
        stores.push(create_instrs(f).expect("encoding failed"));
    }
    let bytes = encode_program(&stores).expect("program encoding failed");
    let views = load_program(&bytes).expect("program loading failed");
    let mut out: Vec<Vec<u8>> = Vec::new();
    let r = interp_program(&views, 0, &args, 1_000_000, &mut out);
    let lines = out
        .into_iter()
        .map(|l| String::from_utf8(l).expect("non-utf8 output"))
        .collect();
    (r, lines)
}

fn all_opcodes() -> Vec<Opcode> {
    vec![
        Opcode::Add,
        Opcode::Mul,
        Opcode::Sub,
        Opcode::Div,
        Opcode::Eq,
        Opcode::Lt,
        Opcode::Gt,
        Opcode::Le,
        Opcode::Ge,
        Opcode::Not,
        Opcode::And,
        Opcode::Or,
        Opcode::Jmp,
        Opcode::Br,
        Opcode::Call,
        Opcode::Ret,
        Opcode::Id,
        Opcode::Print,
        Opcode::Nop,
        Opcode::Const,
    ]
}

/// Checks that for all opcodes, the `op_idx_to_op_str` method
/// is implemented correctly.
#[test]
fn test_op_idx_to_op_str() {
    for opcode in all_opcodes() {
        let idx = opcode.get_index();
        let op_str = Opcode::op_idx_to_op_str(idx);
        assert_eq!(opcode.as_str(), op_str);
    }
}

/// Opcode bijection: reading a mnemonic back yields the opcode it was
/// printed from.
#[test]
fn test_opcode_text_round_trip() {
    for opcode in all_opcodes() {
        assert_eq!(Opcode::opcode_from_text(opcode.as_str()), Some(opcode));
    }
    assert_eq!(Opcode::opcode_from_text("frobnicate"), None);
    assert_eq!(Opcode::opcode_from_text(""), None);
    assert_eq!(Opcode::opcode_from_text("ad"), None);
}

/// The index maps invert each other too.
#[test]
fn test_opcode_index_round_trip() {
    for opcode in all_opcodes() {
        let idx = opcode.get_index();
        assert_eq!(Opcode::u32_to_opcode(idx as u32), opcode);
        let (start, end) = opcode.get_buffer_start_end_indexes();
        assert!(end >= start);
        assert_eq!(
            &flat_bril::types::OPCODE_BUFFER[start..=end],
            opcode.as_str()
        );
    }
}

/// Round trip: unflattening a flattened function tree gives the tree back.
#[test]
fn test_flatten_unflatten_round_trip() {
    let f = Function {
        name: b("main"),
        args: vec![],
        ret_ty: None,
        instrs: vec![
            instr("const", Some("x"), Some(Type::Int), Some(BrilValue::IntVal(4)), None, None, None),
            instr("const", Some("y"), Some(Type::Int), Some(BrilValue::IntVal(2)), None, None, None),
            instr("add", Some("z"), Some(Type::Int), None, Some(vec!["x", "y"]), None, None),
            label("loop"),
            instr("print", None, None, None, Some(vec!["z"]), None, None),
            instr("br", None, None, None, Some(vec!["c"]), Some(vec!["loop", "done"]), None),
            label("done"),
            instr("call", Some("r"), Some(Type::Int), None, Some(vec!["z"]), None, Some(vec!["helper"])),
            instr("ret", None, None, None, Some(vec!["r"]), None, None),
        ],
    };
    let store = create_instrs(&f).expect("encoding failed");
    let back = unflatten_instrs(&store).expect("decoding failed");
    assert_eq!(back, f);
}

/// Round trip with declared parameters and a return type.
#[test]
fn test_round_trip_with_params() {
    let f = Function {
        name: b("helper"),
        args: vec![
            flat_bril::types::FuncParam { name: b("a"), ty: Type::Int },
            flat_bril::types::FuncParam { name: b("flag"), ty: Type::Bool },
        ],
        ret_ty: Some(Type::Int),
        instrs: vec![instr("ret", None, None, None, Some(vec!["a"]), None, None)],
    };
    let store = create_instrs(&f).expect("encoding failed");
    let back = unflatten_instrs(&store).expect("decoding failed");
    assert_eq!(back, f);
}

/// Span well-formedness: every span the encoder produces satisfies
/// `end >= start`.
#[test]
fn test_encoder_spans_well_formed() {
    let f = Function {
        name: b("main"),
        args: vec![],
        ret_ty: None,
        instrs: vec![
            instr("const", Some("x"), Some(Type::Int), Some(BrilValue::IntVal(1)), None, None, None),
            instr("id", Some("y"), Some(Type::Int), None, Some(vec!["x"]), None, None),
            label("l"),
            instr("jmp", None, None, None, None, Some(vec!["l"]), None),
        ],
    };
    let store = create_instrs(&f).expect("encoding failed");
    for p in &store.args_idxes_store {
        assert!(p.second >= p.first, "{} >= {} is false", p.second, p.first);
    }
    for p in &store.labels_idxes_store {
        assert!(p.second >= p.first, "{} >= {} is false", p.second, p.first);
    }
    for it in &store.instrs_and_labels {
        match it {
            InstrOrLabel::Label(p) => {
                assert!(p.second >= p.first);
            }
            InstrOrLabel::Instr(i) => {
                for p in [&i.dest, &i.args, &i.labels, &i.funcs].into_iter().flatten() {
                    assert!(p.second >= p.first, "{} >= {} is false", p.second, p.first);
                }
            }
        }
    }
}

/// Persistence round trip: reconstructing a serialized store yields a view
/// whose buffers equal the store's, byte for byte.
#[test]
fn test_persistence_round_trip() {
    let f = Function {
        name: b("main"),
        args: vec![flat_bril::types::FuncParam { name: b("n"), ty: Type::Int }],
        ret_ty: Some(Type::Bool),
        instrs: vec![
            instr("const", Some("x"), Some(Type::Bool), Some(BrilValue::BoolVal(true)), None, None, None),
            instr("and", Some("y"), Some(Type::Bool), None, Some(vec!["x", "x"]), None, None),
            label("end"),
            instr("ret", None, None, None, Some(vec!["y"]), None, None),
        ],
    };
    let store = create_instrs(&f).expect("encoding failed");
    let mut bytes: Vec<u8> = Vec::new();
    dump_to_buffer(&store, &mut bytes);
    let view = get_instr_view(&bytes).expect("view reconstruction failed");
    assert_eq!(view.func_name, store.func_name.as_slice());
    assert_eq!(view.var_store, store.var_store.as_slice());
    assert_eq!(view.labels_store, store.labels_store.as_slice());
    assert_eq!(view.funcs_store, store.funcs_store.as_slice());
    assert_eq!(view.func_ret_ty, Type::Bool);
    assert_eq!(view.arg_idxes_store.len(), 8 * store.args_idxes_store.len());
    assert_eq!(view.labels_idxes_store.len(), 8 * store.labels_idxes_store.len());
    assert_eq!(view.instrs.len(), 52 * store.instrs_and_labels.len());
    assert_eq!(view.func_args.len(), 12 * store.func_args.len());

    let toc = read_toc(&bytes).expect("toc read failed");
    let total = toc.func_name
        + toc.func_args
        + toc.func_ret_ty
        + toc.var_store
        + toc.arg_idxes_store
        + toc.labels_idxes_store
        + toc.labels_store
        + toc.funcs_store
        + toc.instrs;
    assert_eq!(total as usize + 36, bytes.len());
}

/// A truncated region is rejected as corrupt.
#[test]
fn test_truncated_block_is_corrupt() {
    let f = func(
        "main",
        vec![instr("const", Some("x"), Some(Type::Int), Some(BrilValue::IntVal(1)), None, None, None)],
    );
    let store = create_instrs(&f).expect("encoding failed");
    let mut bytes: Vec<u8> = Vec::new();
    dump_to_buffer(&store, &mut bytes);
    bytes.pop();
    assert_eq!(get_instr_view(&bytes).unwrap_err(), FlatError::CorruptBinary);
    assert_eq!(read_toc(&[0u8; 10]).unwrap_err(), FlatError::CorruptBinary);
    assert_eq!(load_program(&[0u8; 100]).unwrap_err(), FlatError::CorruptBinary);
}

/// A single view can be interpreted directly with a supplied environment.
#[test]
fn test_interp_instr_view() {
    let f = func(
        "solo",
        vec![
            instr("const", Some("x"), Some(Type::Int), Some(BrilValue::IntVal(0)), None, None, None),
            instr("print", None, None, None, Some(vec!["x"]), None, None),
        ],
    );
    let store = create_instrs(&f).expect("encoding failed");
    let mut bytes: Vec<u8> = Vec::new();
    dump_to_buffer(&store, &mut bytes);
    let view = get_instr_view(&bytes).expect("view reconstruction failed");
    let mut out: Vec<Vec<u8>> = Vec::new();
    let r = interp_instr_view(&view, Environment::new(), 1000, &mut out);
    assert_eq!(r, InterpOutcome::Finished(None));
    assert_eq!(out, vec![b"0".to_vec()]);
}

/// A store whose spans leave their buffers is rejected by the decoder.
#[test]
fn test_unflatten_rejects_corrupt_store() {
    let f = func(
        "main",
        vec![instr("const", Some("x"), Some(Type::Int), Some(BrilValue::IntVal(1)), None, None, None)],
    );
    let mut store = create_instrs(&f).expect("encoding failed");
    store.var_store.truncate(0);
    assert_eq!(unflatten_instrs(&store).unwrap_err(), FlatError::CorruptBinary);
}

/// The validator agrees with the encoder about which trees are accepted.
#[test]
fn test_check_function() {
    let good = func(
        "main",
        vec![instr("nop", None, None, None, None, None, None)],
    );
    assert_eq!(check_function(&good), None);
    assert!(create_instrs(&good).is_ok());

    let nameless = func("", vec![]);
    assert_eq!(check_function(&nameless), Some(FlatError::ParseShape));
    assert_eq!(create_instrs(&nameless).unwrap_err(), FlatError::ParseShape);

    let empty_args = func(
        "main",
        vec![instr("ret", None, None, None, Some(vec![]), None, None)],
    );
    assert_eq!(check_function(&empty_args), Some(FlatError::ParseShape));
}

/// Program-level round trip: several functions survive the header.
#[test]
fn test_program_round_trip() {
    let f1 = func(
        "main",
        vec![instr("nop", None, None, None, None, None, None)],
    );
    let f2 = func(
        "aux",
        vec![instr("const", Some("x"), Some(Type::Int), Some(BrilValue::IntVal(7)), None, None, None)],
    );
    let stores = vec![
        create_instrs(&f1).expect("encoding failed"),
        create_instrs(&f2).expect("encoding failed"),
    ];
    let bytes = encode_program(&stores).expect("program encoding failed");
    let views = load_program(&bytes).expect("program loading failed");
    assert_eq!(views.len(), 2);
    assert_eq!(views[0].func_name, stores[0].func_name.as_slice());
    assert_eq!(views[1].func_name, stores[1].func_name.as_slice());
    assert_eq!(views[1].var_store, stores[1].var_store.as_slice());
}
