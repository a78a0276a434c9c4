use minilang::parser::parse_definitions;
use minilang::tokenizer::tokenize;
use minilang::typer::type_definition;

/// Tokenizes, parses and type-checks `code`; fails the test on any error.
fn test(code: &str, _input: &str) {
    let tokens = tokenize(code).unwrap();
    let def = parse_definitions(&tokens).unwrap();
    type_definition(def).unwrap();
}

#[test]
pub fn test4() {
    test(
        "
Let z: () = ( |x| x(()) ) ( |y|() );
",
        "",
    );
}

#[test]
pub fn test3() {
    test(
        "
Let z: () -> () -> () = |x||y|();
",
        "",
    );
}

#[test]
pub fn test1() {
    test(
        "
Type Option = Some () | None ();
Let x: () -> () = |y| ();
",
        "",
    );
}

#[test]
pub fn test2() {
    test(
        "
Type Option = Some () | None ();
Let x: () = (|y| ())(());
",
        "",
    );
}
