use minilang::parser::{parse_definitions, ParseError, RawType, RawTypeDefinition, Value};
use minilang::tokenizer::tokenize;

fn parse(code: &str) -> Result<(Vec<RawTypeDefinition>, Vec<(String, Value, RawType)>), ParseError> {
    parse_definitions(&tokenize(code).unwrap())
}

fn is_unit(t: &RawType) -> bool {
    matches!(t, RawType::Unit)
}

fn is_named(t: &RawType, n: &str) -> bool {
    matches!(t, RawType::TypeDef(x) if x == n)
}

fn is_constant(v: &Value, n: &str) -> bool {
    matches!(v, Value::Constant(x) if x == n)
}

#[test]
fn empty_program() {
    let (types, consts) = parse("").unwrap();
    assert!(types.is_empty());
    assert!(consts.is_empty());
}

#[test]
fn arrows_group_to_the_right() {
    let (_, consts) = parse("Let f: () -> () -> A = f;").unwrap();
    match &consts[0].2 {
        RawType::Function(a, rest) => {
            assert!(is_unit(a));
            match &**rest {
                RawType::Function(b, c) => {
                    assert!(is_unit(b));
                    assert!(is_named(c, "A"));
                },
                _ => panic!("expected a function type"),
            }
        },
        _ => panic!("expected a function type"),
    }
}

#[test]
fn parentheses_group_arrows() {
    let (_, consts) = parse("Let f: (() -> A) -> B = f;").unwrap();
    match &consts[0].2 {
        RawType::Function(a, b) => {
            assert!(matches!(&**a, RawType::Function(x, y) if is_unit(x) && is_named(y, "A")));
            assert!(is_named(b, "B"));
        },
        _ => panic!("expected a function type"),
    }
}

#[test]
fn applications_group_to_the_left() {
    let (_, consts) = parse("Let v: () = f(a)(b);").unwrap();
    assert_eq!(consts[0].0, "v");
    match &consts[0].1 {
        Value::FunctionCall(g, b) => {
            assert!(is_constant(b, "b"));
            assert!(matches!(&**g, Value::FunctionCall(f, a) if is_constant(f, "f") && is_constant(a, "a")));
        },
        _ => panic!("expected a call"),
    }
}

#[test]
fn functions_with_and_without_annotation() {
    let (_, consts) = parse("Let f: () -> () = |x: ()| x; Let g: () -> () = |y| ();").unwrap();
    assert!(matches!(&consts[0].1, Value::FunctionDefinition(x, Some(t), body) if x == "x" && is_unit(t) && is_constant(body, "x")));
    assert!(matches!(&consts[1].1, Value::FunctionDefinition(y, None, body) if y == "y" && matches!(**body, Value::Unit)));
}

#[test]
fn a_function_body_takes_the_applications() {
    let (_, consts) = parse("Let f: () = |x| g(x);").unwrap();
    assert!(matches!(&consts[0].1, Value::FunctionDefinition(_, None, body) if matches!(&**body, Value::FunctionCall(..))));
}

#[test]
fn numbers_and_parentheses() {
    let (_, consts) = parse("Let n: () = ((5));").unwrap();
    assert!(matches!(&consts[0].1, Value::Number(x) if x == "5"));
}

#[test]
fn match_expressions() {
    let (_, consts) = parse("Let v: () = Match x { A y, B (), };").unwrap();
    match &consts[0].1 {
        Value::Match(scrutinee, arms) => {
            assert!(is_constant(scrutinee, "x"));
            assert_eq!(arms.len(), 2);
            assert_eq!(arms[0].0, "A");
            assert!(is_constant(&arms[0].1, "y"));
            assert_eq!(arms[1].0, "B");
            assert!(matches!(*arms[1].1, Value::Unit));
        },
        _ => panic!("expected a match"),
    }
}

#[test]
fn type_definitions() {
    let (types, consts) = parse("Type Option = Some () | None (); Type E = ; Type T = A B |;").unwrap();
    assert!(consts.is_empty());
    assert_eq!(types.len(), 3);
    assert_eq!(types[0].name, "Option");
    assert_eq!(types[0].variants.len(), 2);
    assert_eq!(types[0].variants[0].0, "Some");
    assert!(is_unit(&types[0].variants[0].1));
    assert_eq!(types[0].variants[1].0, "None");
    assert_eq!(types[1].name, "E");
    assert!(types[1].variants.is_empty());
    assert_eq!(types[2].variants.len(), 1);
    assert!(is_named(&types[2].variants[0].1, "B"));
}

#[test]
fn definitions_keep_their_order() {
    let (types, consts) = parse("Let a: () = (); Type T = X (); Let b: () = a; Type U = Y ();").unwrap();
    assert_eq!(types.iter().map(|t| t.name.as_str()).collect::<Vec<_>>(), vec!["T", "U"]);
    assert_eq!(consts.iter().map(|c| c.0.as_str()).collect::<Vec<_>>(), vec!["a", "b"]);
}

#[test]
fn running_out_of_tokens() {
    assert_eq!(parse("Let").err(), Some(ParseError::UnexpectedEnd));
    assert_eq!(parse("Let x: () = ()").err(), Some(ParseError::UnexpectedEnd));
    assert_eq!(parse("Type T = A ()").err(), Some(ParseError::UnexpectedEnd));
    assert_eq!(parse("Let f: () ->").err(), Some(ParseError::UnexpectedEnd));
}

#[test]
fn tokens_out_of_place() {
    assert_eq!(parse("Foo").err(), Some(ParseError::UnexpectedToken(0)));
    assert_eq!(parse("Let x () = ();").err(), Some(ParseError::UnexpectedToken(2)));
    assert_eq!(parse("Let x: () = () ()").err(), Some(ParseError::UnexpectedToken(9)));
    assert_eq!(parse("Let x: () = ;").err(), Some(ParseError::UnexpectedToken(6)));
    assert_eq!(parse("Let f: () -> = f;").err(), Some(ParseError::UnexpectedToken(7)));
    assert_eq!(parse("Let f: () = |x; ").err(), Some(ParseError::UnexpectedToken(8)));
    assert_eq!(parse("Type T = A () , B ();").err(), Some(ParseError::UnexpectedToken(6)));
    assert_eq!(parse("Let v: () = Match x { A y };").err(), Some(ParseError::UnexpectedToken(11)));
}

#[test]
fn programs_concatenate() {
    let a = "Let a: () = (); Type T = A () | B T;";
    let b = "Type U = C (); Let b: () -> () = |x| x(a);";
    let (ta, ca) = parse(a).unwrap();
    let (tb, cb) = parse(b).unwrap();
    let (t, c) = parse(&format!("{}\n{}", a, b)).unwrap();
    let joined_types = format!("{:?}{:?}", ta, tb).replace("][", ", ");
    let joined_consts = format!("{:?}{:?}", ca, cb).replace("][", ", ");
    assert_eq!(format!("{:?}", t), joined_types);
    assert_eq!(format!("{:?}", c), joined_consts);
}
