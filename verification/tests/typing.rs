use minilang::parser::{parse_definitions, RawType};
use minilang::tokenizer::tokenize;
use minilang::typer::{
    parse_type_def, raw_type_to_type, type_definition, State, Type, TypeDefinition, TypeError, TypedValue,
    ValueSource,
};

fn check(code: &str) -> Result<(Vec<TypeDefinition>, Vec<(String, TypedValue)>), TypeError> {
    type_definition(parse_definitions(&tokenize(code).unwrap()).unwrap())
}

fn show(t: &Type) -> String {
    format!("{:?}", t)
}

fn unit_to(t: Type) -> Type {
    Type::Function(Box::new(Type::Unit), Box::new(t))
}

#[test]
fn constants_get_their_declared_types() {
    let (_, consts) = check("Let u: () = (); Let f: () -> () = |x| x; Let g: () = f(u); Let n: () = (|x| ())(5);").unwrap();
    let names: Vec<&str> = consts.iter().map(|c| c.0.as_str()).collect();
    assert_eq!(names, vec!["u", "f", "g", "n"]);
    assert_eq!(show(&consts[0].1.val_type), "Unit");
    assert_eq!(show(&consts[1].1.val_type), "Function(Unit, Unit)");
    assert_eq!(show(&consts[2].1.val_type), "Unit");
    assert_eq!(show(&consts[3].1.val_type), "Unit");
}

#[test]
fn numbers_have_type_int() {
    let (_, consts) = check("Let n: () = (|x| ())(5);").unwrap();
    match &consts[0].1.val_source {
        ValueSource::FunctionCall(func, arg) => {
            assert_eq!(show(&func.val_type), "Function(Int, Unit)");
            assert_eq!(show(&arg.val_type), "Int");
            assert!(matches!(arg.val_source, ValueSource::Number(ref x) if x == "5"));
        },
        _ => panic!("expected a call"),
    }
    // A written `Int` is a type name like any other, not the type of numbers.
    match check("Let n: Int = 5;") {
        Err(TypeError::Mismatch(goal, found)) => {
            assert_eq!(show(&goal), "TypeDef(\"Int\")");
            assert_eq!(show(&found), "Int");
        },
        other => panic!("unexpected {:?}", other),
    }
}

#[test]
fn calls_are_typed_through_their_parts() {
    let (_, consts) = check("Let u: () = (); Let f: () -> () = |x| x; Let g: () = f(u);").unwrap();
    match &consts[2].1.val_source {
        ValueSource::FunctionCall(func, arg) => {
            assert!(matches!(func.val_source, ValueSource::Constant(ref x) if x == "f"));
            assert_eq!(show(&func.val_type), "Function(Unit, Unit)");
            assert!(matches!(arg.val_source, ValueSource::Constant(ref x) if x == "u"));
            assert_eq!(show(&arg.val_type), "Unit");
        },
        _ => panic!("expected a call"),
    }
}

#[test]
fn unknowns_are_replaced_by_what_they_were_bound_to() {
    let (_, consts) = check("Let x: () = (|y| ())(());").unwrap();
    match &consts[0].1.val_source {
        ValueSource::FunctionCall(func, arg) => {
            // The function was typed against `U -> ()` and `U` was bound to `()` by the argument.
            assert_eq!(show(&func.val_type), "Function(Unit, Unit)");
            assert_eq!(show(&arg.val_type), "Unit");
        },
        _ => panic!("expected a call"),
    }
}

#[test]
fn a_function_argument_gets_a_function_type() {
    let (_, consts) = check("Let z: () = ( |x| x(()) ) ( |y|() );").unwrap();
    match &consts[0].1.val_source {
        ValueSource::FunctionCall(func, arg) => {
            assert_eq!(show(&func.val_type), "Function(Function(Unknown(1), Unknown(2)), Unit)");
            assert_eq!(show(&arg.val_type), "Function(Unknown(1), Unknown(2))");
        },
        _ => panic!("expected a call"),
    }
}

#[test]
fn type_definitions_are_converted() {
    let (types, consts) = check("Type T = A () | B () -> T;").unwrap();
    assert!(consts.is_empty());
    assert_eq!(types[0].name, "T");
    assert_eq!(types[0].variants[0].0, "A");
    assert_eq!(show(&types[0].variants[0].1), "Unit");
    assert_eq!(types[0].variants[1].0, "B");
    assert_eq!(show(&types[0].variants[1].1), "Function(Unit, TypeDef(\"T\"))");
}

#[test]
fn a_later_definition_of_a_name_wins() {
    match check("Let a: () = (); Let a: () -> () = |x| x; Let b: () = a;") {
        Err(TypeError::Mismatch(goal, found)) => {
            assert_eq!(show(&goal), "Unit");
            assert_eq!(show(&found), "Function(Unit, Unit)");
        },
        other => panic!("unexpected {:?}", other),
    }
}

#[test]
fn shadowed_names() {
    assert!(matches!(check("Let x: () -> () = |x| ();"), Err(TypeError::ShadowedName(ref n)) if n == "x"));
    assert!(matches!(check("Let f: () -> () -> () = |a| |a| ();"), Err(TypeError::ShadowedName(ref n)) if n == "a"));
    // A parameter goes out of scope after its body.
    assert!(check("Let f: () -> () = |a| a; Let g: () -> () = |a| a;").is_ok());
}

#[test]
fn unknown_names() {
    assert!(matches!(check("Let x: () = y;"), Err(TypeError::UnknownName(ref n)) if n == "y"));
    assert!(matches!(check("Let f: () -> () = |a| a; Let x: () = a;"), Err(TypeError::UnknownName(ref n)) if n == "a"));
}

#[test]
fn mismatches() {
    match check("Let x: () = 5;") {
        Err(TypeError::Mismatch(goal, found)) => {
            assert_eq!(show(&goal), "Unit");
            assert_eq!(show(&found), "Int");
        },
        other => panic!("unexpected {:?}", other),
    }
    match check("Type T = A (); Type U = B (); Let t: T = t; Let u: U = t;") {
        Err(TypeError::Mismatch(goal, found)) => {
            assert_eq!(show(&goal), "TypeDef(\"U\")");
            assert_eq!(show(&found), "TypeDef(\"T\")");
        },
        other => panic!("unexpected {:?}", other),
    }
}

#[test]
fn functions_where_no_function_is_expected() {
    assert!(matches!(check("Let x: () = |y| ();"), Err(TypeError::NotAFunctionType(Type::Unit))));
}

#[test]
fn unresolved_types() {
    // Nothing tells what `y` is.
    assert!(matches!(check("Let z: () = (|f| ())(|y| ());"), Err(TypeError::UnresolvedType)));
}

#[test]
fn match_is_not_typed() {
    assert!(matches!(
        check("Type O = A (); Let z: O -> () = |x| Match x { A y, };"),
        Err(TypeError::UnsupportedMatch)
    ));
}

#[test]
fn the_first_failing_constant_decides() {
    assert!(matches!(check("Let a: () = 5; Let b: () = c;"), Err(TypeError::Mismatch(..))));
    assert!(matches!(check("Let b: () = c; Let a: () = 5;"), Err(TypeError::UnknownName(..))));
}

#[test]
fn raw_types_convert_structurally() {
    let raw = RawType::Function(Box::new(RawType::TypeDef("T".to_string())), Box::new(RawType::Unit));
    assert_eq!(show(&raw_type_to_type(raw)), "Function(TypeDef(\"T\"), Unit)");
    let (types, _) = parse_definitions(&tokenize("Type T = A () -> () | B T;").unwrap()).unwrap();
    let td = parse_type_def(types.into_iter().next().unwrap());
    assert_eq!(td.name, "T");
    assert_eq!(td.variants.len(), 2);
    assert_eq!(show(&td.variants[0].1), "Function(Unit, Unit)");
    assert_eq!(show(&td.variants[1].1), "TypeDef(\"T\")");
}

#[test]
fn state_keeps_the_later_of_two_entries() {
    let s = State::new(vec![("a".to_string(), Type::Unit), ("b".to_string(), Type::Int), ("a".to_string(), Type::Int)]);
    assert_eq!(show(&s.get_type("a")), "Int");
    assert_eq!(show(&s.get_type("b")), "Int");
}

#[test]
fn temporary_names_come_and_go() {
    let mut s = State::new(vec![("a".to_string(), Type::Unit)]);
    let temp = s.add_temp_type(Type::Int, "x".to_string());
    assert_eq!(show(&s.get_type("x")), "Int");
    s.remove_temp_type(temp, "x");
    assert_eq!(show(&s.get_type("a")), "Unit");
    // The name can be brought into scope again.
    let temp = s.add_temp_type(Type::Unit, "x".to_string());
    assert_eq!(show(&s.get_type("x")), "Unit");
    s.remove_temp_type(temp, "x");
}

#[test]
fn unknowns_are_numbered_in_order() {
    let mut s = State::new(vec![]);
    assert_eq!(show(&s.add_unknown()), "Unknown(0)");
    assert_eq!(show(&s.add_unknown()), "Unknown(1)");
}

#[test]
fn matching_types_without_unknowns_is_equality() {
    let mut s = State::new(vec![]);
    let t1 = Type::Function(Box::new(Type::Unit), Box::new(Type::TypeDef("T".to_string())));
    let t2 = Type::Function(Box::new(Type::Unit), Box::new(Type::TypeDef("T".to_string())));
    let t3 = Type::Function(Box::new(Type::Unit), Box::new(Type::TypeDef("U".to_string())));
    assert_eq!(s.matches(&t1, &t2), Some(true));
    assert_eq!(s.matches(&t1, &t3), Some(false));
    assert_eq!(s.matches(&Type::Int, &Type::Unit), Some(false));
    assert_eq!(s.matches(&Type::Int, &Type::Int), Some(true));
    assert_eq!(s.matches(&t1, &Type::Unit), Some(false));
}

#[test]
fn matching_binds_unknowns() {
    let mut s = State::new(vec![]);
    let u0 = s.add_unknown();
    let u1 = s.add_unknown();
    // Two unbound unknowns: the later one is bound to the earlier one.
    assert_eq!(s.matches(&u0, &u1), Some(true));
    let mut t = u1.clone();
    s.instantiate_type(&mut t, 2);
    assert_eq!(show(&t), "Unknown(0)");
    // An unbound unknown is bound to the other side.
    assert_eq!(s.matches(&Type::Int, &u0), Some(true));
    let mut t = unit_to(u0.clone());
    s.instantiate_type(&mut t, 2);
    assert_eq!(show(&t), "Function(Unit, Int)");
    // A bound unknown is compared through its binding.
    assert_eq!(s.matches(&u0, &Type::Unit), Some(false));
    s.remove_unknown(0);
    assert_eq!(show(&s.add_unknown()), "Unknown(0)");
}

#[test]
fn a_cyclic_binding_is_followed_as_far_as_needed() {
    let mut s = State::new(vec![]);
    let u0 = s.add_unknown();
    // Nothing keeps an unknown from being bound to a type that holds it.
    assert_eq!(s.matches(&u0, &unit_to(u0.clone())), Some(true));
    // Following the binding once settles this comparison.
    assert_eq!(s.matches(&u0, &Type::Unit), Some(false));
    assert_eq!(s.matches(&Type::Int, &u0), Some(false));
}

#[test]
fn bindings_made_while_comparing_are_followed_to_the_end() {
    let mut s = State::new(vec![]);
    let u: Vec<Type> = (0..5).map(|_| s.add_unknown()).collect();
    let f = |a: Type, b: Type| Type::Function(Box::new(a), Box::new(b));
    let left = f(u[1].clone(), u[1].clone());
    let right = f(
        f(u[4].clone(), f(u[2].clone(), u[4].clone())),
        f(f(Type::Unit, Type::Unit), f(u[0].clone(), u[1].clone())),
    );
    assert_eq!(s.matches(&left, &right), Some(false));
    // A chain of bindings built during one comparison and followed in it.
    let mut s = State::new(vec![]);
    let u: Vec<Type> = (0..4).map(|_| s.add_unknown()).collect();
    let left = f(f(u[0].clone(), u[1].clone()), f(u[2].clone(), u[0].clone()));
    let right = f(f(u[1].clone(), u[2].clone()), f(u[3].clone(), Type::Int));
    assert_eq!(s.matches(&left, &right), Some(true));
    let mut t = u[1].clone();
    s.instantiate_type(&mut t, 4);
    assert_eq!(show(&t), "Unknown(0)");
    assert_eq!(s.matches(&u[3], &Type::Int), Some(true));
}

#[test]
fn instantiating_values() {
    let mut s = State::new(vec![]);
    let u0 = s.add_unknown();
    assert_eq!(s.matches(&u0, &Type::Unit), Some(true));
    let mut v = TypedValue {
        val_type: unit_to(u0.clone()),
        val_source: ValueSource::FunctionDefinition(
            "x".to_string(),
            Box::new(TypedValue { val_type: u0.clone(), val_source: ValueSource::Unit }),
        ),
    };
    s.instantiate_val(&mut v, 1);
    assert_eq!(show(&v.val_type), "Function(Unit, Unit)");
    match &v.val_source {
        ValueSource::FunctionDefinition(_, body) => assert_eq!(show(&body.val_type), "Unit"),
        _ => panic!("expected a function"),
    }
}

#[test]
fn parameter_annotations_are_not_used_by_inference() {
    // The parameter's type comes from the expected type, whatever is written.
    let (_, consts) = check("Let f: () -> () = |x: A| x;").unwrap();
    assert_eq!(show(&consts[0].1.val_type), "Function(Unit, Unit)");
    match &consts[0].1.val_source {
        ValueSource::FunctionDefinition(x, body) => {
            assert_eq!(x, "x");
            assert_eq!(show(&body.val_type), "Unit");
        },
        _ => panic!("expected a function"),
    }
}

fn chain(depth: usize, bottom: Type) -> Type {
    let mut t = bottom;
    for _ in 0..depth {
        t = unit_to(t);
    }
    t
}

#[test]
fn deeply_nested_types_are_compared_in_full() {
    let mut s = State::new(vec![]);
    assert_eq!(s.matches(&chain(1100, Type::Unit), &chain(1100, Type::Unit)), Some(true));
    assert_eq!(s.matches(&chain(1100, Type::Unit), &chain(1100, Type::Int)), Some(false));
    assert_eq!(s.matches(&chain(1100, Type::Unit), &chain(1101, Type::Unit)), Some(false));
}

#[test]
fn a_deep_declared_type_checks() {
    let mut code = String::from("Let f: ");
    for _ in 0..1100 {
        code.push_str("() -> ");
    }
    code.push_str("() = f;");
    let (_, consts) = check(&code).unwrap();
    assert_eq!(consts.len(), 1);
}

#[test]
fn matching_does_not_depend_on_order() {
    let mut s1 = State::new(vec![]);
    let mut s2 = State::new(vec![]);
    let a1 = s1.add_unknown();
    let a2 = s2.add_unknown();
    let t = Type::Function(Box::new(Type::Int), Box::new(Type::Unit));
    assert_eq!(s1.matches(&unit_to(a1.clone()), &unit_to(t.clone())), Some(true));
    assert_eq!(s2.matches(&unit_to(t.clone()), &unit_to(a2.clone())), Some(true));
    let mut r1 = a1.clone();
    let mut r2 = a2.clone();
    s1.instantiate_type(&mut r1, 1);
    s2.instantiate_type(&mut r2, 1);
    assert_eq!(show(&r1), show(&r2));
    assert_eq!(show(&r1), "Function(Int, Unit)");
    assert_eq!(s1.matches(&Type::Unit, &a1), Some(false));
    assert_eq!(s2.matches(&a2, &Type::Unit), Some(false));
}

#[test]
fn matching_against_a_known_type_finds_the_bindings() {
    let mut s = State::new(vec![]);
    let u0 = s.add_unknown();
    let known = Type::Function(Box::new(Type::Unit), Box::new(Type::Int));
    // One unknown cannot stand for two different types.
    let same = Type::Function(Box::new(u0.clone()), Box::new(u0.clone()));
    assert_eq!(s.matches(&same, &known), Some(false));
    let mut t = u0.clone();
    s.instantiate_type(&mut t, 1);
    assert_eq!(show(&t), "Unit");
    // Two unknowns can.
    let mut s = State::new(vec![]);
    let u0 = s.add_unknown();
    let u1 = s.add_unknown();
    let pair = Type::Function(Box::new(u0.clone()), Box::new(u1.clone()));
    assert_eq!(s.matches(&pair, &known), Some(true));
    let mut t = pair.clone();
    s.instantiate_type(&mut t, 2);
    assert_eq!(show(&t), "Function(Unit, Int)");
}

#[test]
fn typing_calls_hands_back_their_unknowns() {
    // Every call uses unknowns only while it is typed; the next constant
    // starts from the same numbering, so deep nesting of calls checks.
    let (_, consts) = check("Let f: () -> () = |x| x; Let a: () = f(f(f(()))); Let b: () = f(f(a));").unwrap();
    assert_eq!(show(&consts[1].1.val_type), "Unit");
    assert_eq!(show(&consts[2].1.val_type), "Unit");
    match &consts[2].1.val_source {
        ValueSource::FunctionCall(func, arg) => {
            assert_eq!(show(&func.val_type), "Function(Unit, Unit)");
            assert_eq!(show(&arg.val_type), "Unit");
        },
        _ => panic!("expected a call"),
    }
}
