use rox::environment::Environment;
use rox::value::RuntimeError;
use rox::value::Value;

#[test]
fn define_then_get() {
    let mut env = Environment::new();
    env.define_var("x".to_string(), Some(Value::Num(1)));
    assert_eq!(env.get_var(&"x".to_string()), Ok(Value::Num(1)));
}

#[test]
fn get_reports_the_right_failure() {
    let mut env = Environment::new();
    assert_eq!(
        env.get_var(&"x".to_string()),
        Err(RuntimeError::UndefinedVariable)
    );
    env.define_var("x".to_string(), None);
    assert_eq!(
        env.get_var(&"x".to_string()),
        Err(RuntimeError::UninitializedVariable)
    );
}

#[test]
fn assign_overwrites_the_nearest_binding() {
    let mut env = Environment::new();
    env.define_var("x".to_string(), Some(Value::Num(1)));
    env.begin_scope();
    assert_eq!(
        env.assign_var(&"x".to_string(), Value::Num(9)),
        Ok(Value::Num(9))
    );
    env.end_scope();
    assert_eq!(env.get_var(&"x".to_string()), Ok(Value::Num(9)));
}

#[test]
fn assign_to_unbound_name_fails() {
    let mut env = Environment::new();
    assert_eq!(
        env.assign_var(&"x".to_string(), Value::Num(1)),
        Err(RuntimeError::UndefinedVariable)
    );
}

#[test]
fn inner_scope_shadows_and_pops() {
    let mut env = Environment::new();
    env.define_var("x".to_string(), Some(Value::Num(1)));
    env.begin_scope();
    env.define_var("x".to_string(), Some(Value::Num(2)));
    assert_eq!(env.get_var(&"x".to_string()), Ok(Value::Num(2)));
    env.end_scope();
    assert_eq!(env.get_var(&"x".to_string()), Ok(Value::Num(1)));
}

#[test]
fn redefinition_replaces_silently() {
    let mut env = Environment::new();
    env.define_var("x".to_string(), Some(Value::Num(1)));
    env.define_var("x".to_string(), Some(Value::String("two".to_string())));
    assert_eq!(
        env.get_var(&"x".to_string()),
        Ok(Value::String("two".to_string()))
    );
}
