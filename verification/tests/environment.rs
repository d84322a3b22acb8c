use lox_rs_ast::environment::Environment;
use lox_rs_ast::tokens::TokenType;

fn number(value: f64) -> TokenType {
    TokenType::Number(value.to_bits())
}

#[test]
fn a_new_environment_has_one_empty_scope() {
    let environment = Environment::new(None);
    assert_eq!(environment.depth(), 1);
    assert_eq!(environment.get("x"), None);
}

#[test]
fn define_and_get() {
    let mut environment = Environment::new(None);
    environment.define("x".to_string(), number(1.0));
    environment.define("y".to_string(), TokenType::String("s".into()));
    assert_eq!(environment.get("x"), Some(number(1.0)));
    assert_eq!(environment.get("y"), Some(TokenType::String("s".into())));
    assert_eq!(environment.get("z"), None);
    environment.define("x".to_string(), TokenType::Nil);
    assert_eq!(environment.get("x"), Some(TokenType::Nil));
}

#[test]
fn an_inner_scope_shadows_and_is_left() {
    let mut environment = Environment::new(None);
    environment.define("x".to_string(), number(1.0));
    environment.enter_scope();
    assert_eq!(environment.depth(), 2);
    assert_eq!(environment.get("x"), Some(number(1.0)));
    environment.define("x".to_string(), number(2.0));
    environment.define("y".to_string(), number(3.0));
    assert_eq!(environment.get("x"), Some(number(2.0)));
    environment.exit_scope();
    assert_eq!(environment.depth(), 1);
    assert_eq!(environment.get("x"), Some(number(1.0)));
    assert_eq!(environment.get("y"), None);
}

#[test]
fn assign_changes_the_innermost_holder() {
    let mut environment = Environment::new(None);
    environment.define("x".to_string(), number(1.0));
    environment.define("y".to_string(), number(1.0));
    environment.enter_scope();
    environment.define("y".to_string(), number(2.0));
    assert_eq!(environment.assign("x", number(5.0)), Some(()));
    assert_eq!(environment.assign("y", number(6.0)), Some(()));
    assert_eq!(environment.get("x"), Some(number(5.0)));
    assert_eq!(environment.get("y"), Some(number(6.0)));
    environment.exit_scope();
    assert_eq!(environment.get("x"), Some(number(5.0)));
    assert_eq!(environment.get("y"), Some(number(1.0)));
}

#[test]
fn assign_creates_nothing() {
    let mut environment = Environment::new(None);
    assert_eq!(environment.assign("x", number(1.0)), None);
    assert_eq!(environment.get("x"), None);
    environment.enter_scope();
    assert_eq!(environment.assign("x", number(1.0)), None);
    assert_eq!(environment.get("x"), None);
}

#[test]
fn the_global_scope_is_never_left() {
    let mut environment = Environment::new(None);
    environment.define("x".to_string(), number(1.0));
    environment.exit_scope();
    assert_eq!(environment.depth(), 1);
    assert_eq!(environment.get("x"), Some(number(1.0)));
}

#[test]
fn an_environment_inside_another() {
    let mut outer = Environment::new(None);
    outer.define("x".to_string(), number(1.0));
    let mut inner = Environment::new(Some(Box::new(outer)));
    assert_eq!(inner.depth(), 2);
    assert_eq!(inner.get("x"), Some(number(1.0)));
    inner.define("x".to_string(), number(2.0));
    assert_eq!(inner.get("x"), Some(number(2.0)));
    inner.exit_scope();
    assert_eq!(inner.get("x"), Some(number(1.0)));
}
