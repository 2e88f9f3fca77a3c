use flat_bril::flatten::create_instrs;
use flat_bril::interp::{interp_program, InterpOutcome};
use flat_bril::memfile::{encode_program, load_program};
use flat_bril::types::{BrilValue, FlatError, FuncParam, Function, TreeInstr, TreeItem, Type};

fn b(s: &str) -> Vec<u8> {
    s.as_bytes().to_vec()
}

#[allow(clippy::too_many_arguments)]
fn instr(
    op: &str,
    dest: Option<&str>,
    ty: Option<Type>,
    value: Option<BrilValue>,
    args: Option<Vec<&str>>,
    labels: Option<Vec<&str>>,
    funcs: Option<Vec<&str>>,
) -> TreeItem {
    TreeItem::Instr(TreeInstr {
        op: op.to_string(),
        dest: dest.map(b),
        ty,
        value,
        args: args.map(|v| v.iter().map(|x| b(x)).collect()),
        labels: labels.map(|v| v.iter().map(|x| b(x)).collect()),
        funcs: funcs.map(|v| v.iter().map(|x| b(x)).collect()),
    })
}

fn label(name: &str) -> TreeItem {
    TreeItem::Label(b(name))
}

fn func(name: &str, instrs: Vec<TreeItem>) -> Function {
    Function { name: b(name), args: Vec::new(), ret_ty: None, instrs }
}

fn run_with(
    functions: Vec<Function>,
    args: Vec<BrilValue>,
) -> (InterpOutcome, Vec<String>) {
    let mut stores = Vec::new();
    for f in &functions {
        stores.push(create_instrs(f).expect("encoding failed"));
    }
    let bytes = encode_program(&stores).expect("program encoding failed");
    let views = load_program(&bytes).expect("program loading failed");
    let mut out: Vec<Vec<u8>> = Vec::new();
    let r = interp_program(&views, 0, &args, 1_000_000, &mut out);
    let lines = out
        .into_iter()
        .map(|l| String::from_utf8(l).expect("non-utf8 output"))
        .collect();
    (r, lines)
}

fn run(functions: Vec<Function>) -> (InterpOutcome, Vec<String>) {
    run_with(functions, Vec::new())
}

/// `x = const 4; y = const 2; z = add x y; print z` prints `6`.
#[test]
fn test_scenario_add_and_print() {
    let (r, out) = run(vec![func(
        "main",
        vec![
            instr("const", Some("x"), Some(Type::Int), Some(BrilValue::IntVal(4)), None, None, None),
            instr("const", Some("y"), Some(Type::Int), Some(BrilValue::IntVal(2)), None, None, None),
            instr("add", Some("z"), Some(Type::Int), None, Some(vec!["x", "y"]), None, None),
            instr("print", None, None, None, Some(vec!["z"]), None, None),
        ],
    )]);
    assert_eq!(r, InterpOutcome::Finished(None));
    assert_eq!(out, vec!["6"]);
}

/// `b = const true; n = not b; print n` prints `false`.
#[test]
fn test_scenario_not_and_print() {
    let (r, out) = run(vec![func(
        "main",
        vec![
            instr("const", Some("b"), Some(Type::Bool), Some(BrilValue::BoolVal(true)), None, None, None),
            instr("not", Some("n"), Some(Type::Bool), None, Some(vec!["b"]), None, None),
            instr("print", None, None, None, Some(vec!["n"]), None, None),
        ],
    )]);
    assert_eq!(r, InterpOutcome::Finished(None));
    assert_eq!(out, vec!["false"]);
}

/// A taken true branch prints `1`; the false branch never runs.
#[test]
fn test_scenario_branch() {
    let (r, out) = run(vec![func(
        "main",
        vec![
            instr("const", Some("cond"), Some(Type::Bool), Some(BrilValue::BoolVal(true)), None, None, None),
            instr("const", Some("one"), Some(Type::Int), Some(BrilValue::IntVal(1)), None, None, None),
            instr("const", Some("zero"), Some(Type::Int), Some(BrilValue::IntVal(0)), None, None, None),
            instr("br", None, None, None, Some(vec!["cond"]), Some(vec!["then", "else"]), None),
            label("then"),
            instr("print", None, None, None, Some(vec!["one"]), None, None),
            instr("jmp", None, None, None, None, Some(vec!["end"]), None),
            label("else"),
            instr("print", None, None, None, Some(vec!["zero"]), None, None),
            label("end"),
        ],
    )]);
    assert_eq!(r, InterpOutcome::Finished(None));
    assert_eq!(out, vec!["1"]);
}

/// A jump to a label with no matching marker fails with `UnknownLabel`.
#[test]
fn test_scenario_unknown_label() {
    let (r, out) = run(vec![func(
        "main",
        vec![instr("jmp", None, None, None, None, Some(vec!["missing"]), None)],
    )]);
    assert_eq!(r, InterpOutcome::Error(FlatError::UnknownLabel));
    assert!(out.is_empty());
}

/// A `print` whose argument run has length two fails with `ArityMismatch`.
#[test]
fn test_scenario_print_arity() {
    let (r, _) = run(vec![func(
        "main",
        vec![
            instr("const", Some("x"), Some(Type::Int), Some(BrilValue::IntVal(1)), None, None, None),
            instr("const", Some("y"), Some(Type::Int), Some(BrilValue::IntVal(2)), None, None, None),
            instr("print", None, None, None, Some(vec!["x", "y"]), None, None),
        ],
    )]);
    assert_eq!(r, InterpOutcome::Error(FlatError::ArityMismatch));
}

/// Arithmetic wraps around: adding the two extreme representable values
/// yields the wrapped sum without failing, as does doubling the maximum.
#[test]
fn test_arithmetic_wraparound() {
    let (r, out) = run(vec![func(
        "main",
        vec![
            instr("const", Some("lo"), Some(Type::Int), Some(BrilValue::IntVal(i64::MIN)), None, None, None),
            instr("const", Some("hi"), Some(Type::Int), Some(BrilValue::IntVal(i64::MAX)), None, None, None),
            instr("add", Some("s"), Some(Type::Int), None, Some(vec!["lo", "hi"]), None, None),
            instr("print", None, None, None, Some(vec!["s"]), None, None),
            instr("add", Some("w"), Some(Type::Int), None, Some(vec!["hi", "hi"]), None, None),
            instr("print", None, None, None, Some(vec!["w"]), None, None),
        ],
    )]);
    assert_eq!(r, InterpOutcome::Finished(None));
    assert_eq!(out, vec![(-1i64).to_string(), (-2i64).to_string()]);
}

/// A call binds the callee's parameters, runs it to completion, and binds
/// the returned value under the caller's destination.
#[test]
fn test_call_and_ret() {
    let main = func(
        "main",
        vec![
            instr("const", Some("n"), Some(Type::Int), Some(BrilValue::IntVal(41)), None, None, None),
            instr("call", Some("r"), Some(Type::Int), None, Some(vec!["n"]), None, Some(vec!["inc"])),
            instr("print", None, None, None, Some(vec!["r"]), None, None),
        ],
    );
    let inc = Function {
        name: b("inc"),
        args: vec![FuncParam { name: b("a"), ty: Type::Int }],
        ret_ty: Some(Type::Int),
        instrs: vec![
            instr("const", Some("one"), Some(Type::Int), Some(BrilValue::IntVal(1)), None, None, None),
            instr("add", Some("s"), Some(Type::Int), None, Some(vec!["a", "one"]), None, None),
            instr("ret", None, None, None, Some(vec!["s"]), None, None),
        ],
    };
    let (r, out) = run(vec![main, inc]);
    assert_eq!(r, InterpOutcome::Finished(None));
    assert_eq!(out, vec!["42"]);
}

/// Entry arguments are bound to the declared parameters; a wrong count or
/// type fails before the machine starts.
#[test]
fn test_entry_arguments() {
    let main = Function {
        name: b("main"),
        args: vec![FuncParam { name: b("n"), ty: Type::Int }],
        ret_ty: None,
        instrs: vec![instr("print", None, None, None, Some(vec!["n"]), None, None)],
    };
    let (r, out) = run_with(vec![main.clone()], vec![BrilValue::IntVal(-17)]);
    assert_eq!(r, InterpOutcome::Finished(None));
    assert_eq!(out, vec!["-17"]);

    let (r, _) = run_with(vec![main.clone()], vec![]);
    assert_eq!(r, InterpOutcome::Error(FlatError::ArityMismatch));

    let (r, _) = run_with(vec![main], vec![BrilValue::BoolVal(true)]);
    assert_eq!(r, InterpOutcome::Error(FlatError::TypeMismatch));
}

/// Logic on integers and arithmetic on booleans are type errors; an unbound
/// name is reported as such; a `const` with no value is a `NullValue`.
#[test]
fn test_runtime_errors() {
    let (r, _) = run(vec![func(
        "main",
        vec![
            instr("const", Some("x"), Some(Type::Int), Some(BrilValue::IntVal(1)), None, None, None),
            instr("and", Some("y"), Some(Type::Bool), None, Some(vec!["x", "x"]), None, None),
        ],
    )]);
    assert_eq!(r, InterpOutcome::Error(FlatError::TypeMismatch));

    let (r, _) = run(vec![func(
        "main",
        vec![instr("print", None, None, None, Some(vec!["ghostvar"]), None, None)],
    )]);
    assert_eq!(r, InterpOutcome::Error(FlatError::UnboundVariable));

    let (r, _) = run(vec![func(
        "main",
        vec![instr("const", Some("x"), Some(Type::Int), None, None, None, None)],
    )]);
    assert_eq!(r, InterpOutcome::Error(FlatError::NullValue));
}

/// Encoder errors: an unknown mnemonic, an empty name, and a `jmp` with
/// two targets are each rejected with their own error.
#[test]
fn test_encoder_errors() {
    let bad_op = func(
        "main",
        vec![instr("frob", Some("x"), None, None, None, None, None)],
    );
    assert_eq!(create_instrs(&bad_op).unwrap_err(), FlatError::InvalidOpcode);

    let empty_dest = func(
        "main",
        vec![instr("const", Some(""), Some(Type::Int), Some(BrilValue::IntVal(1)), None, None, None)],
    );
    assert_eq!(create_instrs(&empty_dest).unwrap_err(), FlatError::ParseShape);

    let bad_jmp = func(
        "main",
        vec![
            label("a"),
            label("c"),
            instr("jmp", None, None, None, None, Some(vec!["a", "c"]), None),
        ],
    );
    assert_eq!(create_instrs(&bad_jmp).unwrap_err(), FlatError::ArityMismatch);

    let bad_call = func(
        "main",
        vec![instr("call", None, None, None, None, None, Some(vec!["f", "g"]))],
    );
    assert_eq!(create_instrs(&bad_call).unwrap_err(), FlatError::ArityMismatch);
}

/// Division truncates toward zero, wraps on the one overflowing pair, and
/// rejects a zero divisor.
#[test]
fn test_division() {
    let div_prog = |a: i64, bv: i64| {
        run(vec![func(
            "main",
            vec![
                instr("const", Some("a"), Some(Type::Int), Some(BrilValue::IntVal(a)), None, None, None),
                instr("const", Some("b"), Some(Type::Int), Some(BrilValue::IntVal(bv)), None, None, None),
                instr("div", Some("q"), Some(Type::Int), None, Some(vec!["a", "b"]), None, None),
                instr("print", None, None, None, Some(vec!["q"]), None, None),
            ],
        )])
    };
    assert_eq!(div_prog(7, 2), (InterpOutcome::Finished(None), vec!["3".to_string()]));
    assert_eq!(div_prog(-7, 2), (InterpOutcome::Finished(None), vec!["-3".to_string()]));
    assert_eq!(
        div_prog(i64::MIN, -1),
        (InterpOutcome::Finished(None), vec![i64::MIN.to_string()])
    );
    let (r, _) = div_prog(1, 0);
    assert_eq!(r, InterpOutcome::Error(FlatError::TypeMismatch));
}

/// A later binding of the same name shadows the earlier one.
#[test]
fn test_environment_shadowing() {
    let (r, out) = run(vec![func(
        "main",
        vec![
            instr("const", Some("x"), Some(Type::Int), Some(BrilValue::IntVal(1)), None, None, None),
            instr("const", Some("x"), Some(Type::Int), Some(BrilValue::IntVal(2)), None, None, None),
            instr("print", None, None, None, Some(vec!["x"]), None, None),
        ],
    )]);
    assert_eq!(r, InterpOutcome::Finished(None));
    assert_eq!(out, vec!["2"]);
}

/// A program that never terminates exhausts the step budget.
#[test]
fn test_infinite_loop_runs_out_of_steps() {
    let f = func(
        "main",
        vec![
            label("spin"),
            instr("jmp", None, None, None, None, Some(vec!["spin"]), None),
        ],
    );
    let store = create_instrs(&f).expect("encoding failed");
    let bytes = encode_program(&vec![store]).expect("program encoding failed");
    let views = load_program(&bytes).expect("program loading failed");
    let mut out: Vec<Vec<u8>> = Vec::new();
    let r = interp_program(&views, 0, &Vec::new(), 1000, &mut out);
    assert_eq!(r, InterpOutcome::OutOfSteps);
}

/// An explicit `ret` in the entry activation carries its value out.
#[test]
fn test_entry_return_value() {
    let (r, out) = run(vec![func(
        "main",
        vec![
            instr("const", Some("x"), Some(Type::Int), Some(BrilValue::IntVal(7)), None, None, None),
            instr("ret", None, None, None, Some(vec!["x"]), None, None),
            instr("print", None, None, None, Some(vec!["x"]), None, None),
        ],
    )]);
    assert_eq!(r, InterpOutcome::Finished(Some(BrilValue::IntVal(7))));
    assert!(out.is_empty());
}

/// A call without a destination discards the callee's value; a call with
/// one fails with `NullValue` when the callee returns nothing.
#[test]
fn test_call_destination_handling() {
    let noisy = func(
        "noisy",
        vec![
            instr("const", Some("m"), Some(Type::Int), Some(BrilValue::IntVal(9)), None, None, None),
            instr("print", None, None, None, Some(vec!["m"]), None, None),
        ],
    );
    let main_discard = func(
        "main",
        vec![instr("call", None, None, None, None, None, Some(vec!["noisy"]))],
    );
    let (r, out) = run(vec![main_discard, noisy.clone()]);
    assert_eq!(r, InterpOutcome::Finished(None));
    assert_eq!(out, vec!["9"]);

    let main_binds = func(
        "main",
        vec![instr("call", Some("r"), Some(Type::Int), None, None, None, Some(vec!["noisy"]))],
    );
    let (r, _) = run(vec![main_binds, noisy]);
    assert_eq!(r, InterpOutcome::Error(FlatError::NullValue));
}

/// Calling a function the program does not hold is an unbound name.
#[test]
fn test_call_unknown_function() {
    let (r, _) = run(vec![func(
        "main",
        vec![instr("call", None, None, None, None, None, Some(vec!["nowhere"]))],
    )]);
    assert_eq!(r, InterpOutcome::Error(FlatError::UnboundVariable));
}

/// Comparisons yield booleans; `id` passes any value through.
#[test]
fn test_comparisons_and_id() {
    let (r, out) = run(vec![func(
        "main",
        vec![
            instr("const", Some("x"), Some(Type::Int), Some(BrilValue::IntVal(3)), None, None, None),
            instr("const", Some("y"), Some(Type::Int), Some(BrilValue::IntVal(5)), None, None, None),
            instr("lt", Some("c"), Some(Type::Bool), None, Some(vec!["x", "y"]), None, None),
            instr("print", None, None, None, Some(vec!["c"]), None, None),
            instr("id", Some("z"), Some(Type::Int), None, Some(vec!["y"]), None, None),
            instr("print", None, None, None, Some(vec!["z"]), None, None),
            instr("ge", Some("g"), Some(Type::Bool), None, Some(vec!["x", "y"]), None, None),
            instr("print", None, None, None, Some(vec!["g"]), None, None),
        ],
    )]);
    assert_eq!(r, InterpOutcome::Finished(None));
    assert_eq!(out, vec!["true", "5", "false"]);
}
