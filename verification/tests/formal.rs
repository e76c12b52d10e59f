use gremlin::elf;
use gremlin::eval::{Execution, Outcome};
use gremlin::formal::{
    answer_inputs, answer_status, binary_verdict, bv, candidate, check_payload, check_sat_answer,
    model_payload, model_values, query, reference_verdict, symbolic_of, trim_chars, Answer, Status,
};
use gremlin::ir::Param;
use gremlin::lifter::{
    lift_code, static_elf, Assignment, BinaryModel, BinaryOp, Operand, Operation, UnaryOp,
};
use gremlin::sig::Signature;
use gremlin::source::parse;
use gremlin::types::{Type, Value};

#[test]
fn bit_vector_literals_keep_the_low_bits() {
    assert_eq!(bv(255, 8), "(_ bv255 8)");
    assert_eq!(bv(256, 8), "(_ bv0 8)");
    assert_eq!(bv(u64::MAX, 64), "(_ bv18446744073709551615 64)");
    assert_eq!(bv(5, 1), "(_ bv1 1)");
}

#[test]
fn candidate_terms_and_division_traps() {
    let f = parse("fn f(x:u8,y:u8)->u8 { return udiv(x,y); }").unwrap();
    let s = candidate(&f, "c").unwrap();
    assert!(s.definitions.starts_with("(define-fun c"));
    assert!(s.definitions.contains("(bvudiv x0 x1)"));
    assert_eq!(s.trap, "(ite (= x1 (_ bv0 8)) #b01 #b00)");
    assert_eq!(s.completed, format!("(= {} #b00)", s.trap));
    let g = parse("fn f(x:i8,y:i8)->i8 { return sdiv(x,y); }").unwrap();
    let t = candidate(&g, "r").unwrap();
    assert_eq!(
        t.trap,
        "(ite (= x1 (_ bv0 8)) #b01 (ite (and (= x0 (_ bv128 8)) (= x1 (_ bv255 8))) #b10 #b00))"
    );
    assert!(t.value.starts_with('r'));
}

#[test]
fn candidate_rejects_calls_and_control_flow() {
    let f = parse(
        "fn f(x:u32,y:u32)->u32 { let mut a:u32=x; while ult(a,y) { a=add(a,1u32); } return a; }",
    )
    .unwrap();
    assert_eq!(
        symbolic_of(&f, "c").err().unwrap(),
        "formal candidate subset requires one block and no calls"
    );
}

#[test]
fn rotations_and_shifts_take_the_amount_modulo_the_width() {
    let f = parse("fn f(x:u16,y:u16)->u16 { return rotl(x,y); }").unwrap();
    let s = candidate(&f, "c").unwrap();
    assert!(s.definitions.contains(
        "(bvor (bvshl x0 (bvurem x1 (_ bv16 16))) (bvlshr x0 (bvsub (_ bv16 16) (bvurem x1 (_ bv16 16)))))"
    ));
    assert_eq!(s.trap, "#b00");
}

#[test]
fn query_declares_arguments_and_compares_traps_and_values() {
    let f = parse("fn f(x:u8,y:u8)->u8 { return add(x,y); }").unwrap();
    let a = candidate(&f, "c").unwrap();
    let b = candidate(&f, "r").unwrap();
    let q = query(&f, &a, &b);
    assert!(q.starts_with("(set-logic QF_BV)\n(declare-fun x0 () (_ BitVec 8))\n(declare-fun x1 () (_ BitVec 8))\n"));
    assert!(q.ends_with(&format!(
        "(assert (or (not (= #b00 #b00)) (and {} {} (not (= {} {})))))\n",
        a.completed, b.completed, a.value, b.value
    )));
}

#[test]
fn solver_verdicts_are_read_exactly() {
    assert_eq!(check_sat_answer(" unsat\n", 2).unwrap(), Some(Answer::Unsat));
    assert_eq!(check_sat_answer("sat\n", 2).unwrap(), None);
    assert_eq!(check_sat_answer("sat", 0).unwrap(), Some(Answer::Sat(vec![])));
    assert!(matches!(
        check_sat_answer("unknown\n", 1).unwrap(),
        Some(Answer::Unknown(_))
    ));
    assert_eq!(
        check_sat_answer("(error)", 1).unwrap_err(),
        "unexpected solver response: (error)"
    );
    assert_eq!(trim_chars(&[' ', '\u{a0}', 'a', ' ', 'b', '\n']), vec!['a', ' ', 'b']);
}

#[test]
fn solver_models_are_read_in_argument_order() {
    assert_eq!(
        model_values("sat\n((x0 #x0a)\n (x1 #b101))", 2).unwrap(),
        vec![10, 5]
    );
    assert_eq!(
        model_values("sat ((x1 #x0a) (x0 #x01))", 2).unwrap_err(),
        "solver model argument order mismatch"
    );
    assert_eq!(
        model_values("sat ((x0 #d10))", 1).unwrap_err(),
        "unsupported solver value encoding"
    );
    assert_eq!(
        model_values("sat ((x0 #xzz))", 1).unwrap_err(),
        "invalid digit found in string"
    );
    assert_eq!(
        model_values("sat ((x0 #x))", 1).unwrap_err(),
        "cannot parse integer from empty string"
    );
    assert_eq!(
        model_values("sat ((x0 #x1ffffffffffffffff))", 1).unwrap_err(),
        "number too large to fit in target type"
    );
    assert_eq!(
        model_values("sat ((x0 #x1))", 2).unwrap_err(),
        "invalid solver model response: sat ((x0 #x1))"
    );
}

#[test]
fn solver_scripts_ask_for_a_verdict_then_the_values() {
    let p = check_payload(250, "(assert true)");
    assert_eq!(p, "(set-option :timeout 250)\n(assert true)\n(check-sat)\n");
    assert_eq!(model_payload(&p, 3), format!("{p}(get-value (x0 x1 x2))\n"));
}

#[test]
fn model_inputs_must_fit_their_arguments() {
    let ps = vec![
        Param { id: 0, ty: Type::U8 },
        Param { id: 1, ty: Type::I16 },
    ];
    assert_eq!(
        answer_inputs(&ps, &Answer::Sat(vec![255, 0xffff])).unwrap(),
        Some(vec![Value::new(Type::U8, 255), Value::new(Type::I16, 0xffff)])
    );
    assert_eq!(
        answer_inputs(&ps, &Answer::Sat(vec![256, 0])).unwrap_err(),
        "solver value exceeds input width"
    );
    assert_eq!(answer_inputs(&ps, &Answer::Unsat).unwrap(), None);
    assert_eq!(answer_status(&Answer::Unsat), Status::Equivalent);
    assert_eq!(answer_status(&Answer::Timeout), Status::Timeout);
}

#[test]
fn replays_decide_counterexamples() {
    let a = Execution {
        outcome: Outcome::Completed(Value::new(Type::U8, 1)),
        steps: 2,
    };
    let b = Execution {
        outcome: Outcome::Completed(Value::new(Type::U8, 2)),
        steps: 2,
    };
    assert_eq!(reference_verdict(&a, &b).unwrap(), Status::Counterexample);
    assert!(reference_verdict(&a, &a.clone()).is_err());
    let v = Value::new(Type::U8, 1);
    let w = Value::new(Type::U8, 2);
    assert!(binary_verdict(v, w, &a).unwrap_err().contains("disagrees"));
    assert!(binary_verdict(v, v, &a).unwrap_err().contains("does not replay"));
    assert_eq!(binary_verdict(w, w, &a).unwrap(), Status::Counterexample);
}

fn model(arguments: Vec<Type>, return_type: Type, instructions: Vec<Assignment>) -> BinaryModel {
    BinaryModel {
        binary_hash: String::new(),
        symbol: "target".into(),
        entry: 0,
        size: 0,
        code_hash: String::new(),
        lifter: String::new(),
        signature: Signature {
            arguments,
            return_type,
        },
        instructions,
    }
}

#[test]
fn register_models_run_with_sysv_arguments_and_32_bit_writes() {
    let m = model(
        vec![Type::U32, Type::U32],
        Type::U32,
        vec![
            Assignment {
                dst: 0,
                width: 32,
                operation: Operation::Move(Operand::Reg(4, 32)),
            },
            Assignment {
                dst: 0,
                width: 32,
                operation: Operation::Binary(BinaryOp::Add, Operand::Reg(0, 32), Operand::Reg(3, 32)),
            },
        ],
    );
    let r = m
        .execute(&[Value::new(Type::U32, 0xffff_ffff), Value::new(Type::U32, 2)])
        .unwrap();
    assert_eq!(r, Value::new(Type::U32, 1));
    assert!(m.execute(&[Value::new(Type::U8, 1)]).is_err());
    let s = m.symbolic().unwrap();
    assert_eq!(
        s.definitions,
        "(define-fun b0 () (_ BitVec 64) ((_ zero_extend 32) ((_ extract 31 0) ((_ zero_extend 32) x0))))\n\
         (define-fun b1 () (_ BitVec 64) ((_ zero_extend 32) (bvadd ((_ extract 31 0) b0) ((_ extract 31 0) ((_ zero_extend 32) x1)))))\n"
    );
    assert_eq!(s.value, "((_ extract 31 0) b1)");
    assert_eq!(s.completed, "true");
}

#[test]
fn signed_arguments_are_sign_extended() {
    let m = model(
        vec![Type::I8],
        Type::I64,
        vec![
            Assignment {
                dst: 0,
                width: 64,
                operation: Operation::Unary(UnaryOp::Neg, Operand::Reg(4, 64)),
            },
            Assignment {
                dst: 0,
                width: 64,
                operation: Operation::Lea(Some(0), Some(0), 2, 1),
            },
        ],
    );
    let r = m.execute(&[Value::new(Type::I8, 0xff)]).unwrap();
    assert_eq!(r, Value::new(Type::I64, 4));
    let missing = model(vec![], Type::U64, vec![]);
    assert_eq!(missing.execute(&[]).unwrap_err(), "undefined return register");
    assert_eq!(missing.symbolic().err().unwrap(), "return register is undefined");
}

#[test]
fn machine_code_lifts_to_register_assignments() {
    // mov eax, edi; add eax, esi; ret
    let is = lift_code(&[0x89, 0xf8, 0x01, 0xf0, 0xc3], 0x1000).unwrap();
    assert_eq!(
        is,
        vec![
            Assignment {
                dst: 0,
                width: 32,
                operation: Operation::Move(Operand::Reg(4, 32)),
            },
            Assignment {
                dst: 0,
                width: 32,
                operation: Operation::Binary(BinaryOp::Add, Operand::Reg(0, 32), Operand::Reg(3, 32)),
            },
        ]
    );
    // xor eax, eax; ret
    assert_eq!(
        lift_code(&[0x31, 0xc0, 0xc3], 0).unwrap(),
        vec![Assignment {
            dst: 0,
            width: 32,
            operation: Operation::Move(Operand::Imm(0)),
        }]
    );
    // push rbp; ret
    assert_eq!(
        lift_code(&[0x55, 0xc3], 0).unwrap_err(),
        "unsupported register RBP"
    );
    // shl eax, 1; ret
    assert_eq!(
        lift_code(&[0xd1, 0xe0, 0xc3], 0).unwrap_err(),
        "unsupported instruction Shl"
    );
    // ret; ret
    assert_eq!(
        lift_code(&[0xc3, 0xc3], 0).unwrap_err(),
        "only one final near return is supported"
    );
    // mov eax, edi (no return)
    assert_eq!(
        lift_code(&[0x89, 0xf8], 0).unwrap_err(),
        "function does not end in a supported return"
    );
    // address-size override
    assert_eq!(
        lift_code(&[0x67, 0x8d, 0x04, 0x37, 0xc3], 0).unwrap_err(),
        "address-size override unsupported"
    );
}

#[test]
fn elf_checks_reject_what_is_not_a_shared_object() {
    assert!(static_elf(&[0u8; 16]).is_err());
    let mut header = vec![0u8; 64];
    header[..6].copy_from_slice(&[0x7f, b'E', b'L', b'F', 2, 1]);
    header[16..20].copy_from_slice(&[3, 0, 62, 0]);
    assert_eq!(
        static_elf(&header).unwrap_err(),
        "unsupported ELF program header layout"
    );
    assert_eq!(
        elf::validate(&[0u8; 8], "f", 0, 1).unwrap_err(),
        "unsupported ELF header sizes"
    );
    header[54] = 56;
    header[58] = 64;
    assert_eq!(
        elf::validate(&header, "f", 0, 1).unwrap_err(),
        "unsupported ELF version/header"
    );
}
