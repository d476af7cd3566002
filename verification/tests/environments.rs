use luna_model::environment::{ensure_name_valid, Environment};
use luna_model::errors::VariableCreationErr;
use luna_model::types::Vtype;

#[test]
fn variables_get_consecutive_indices() {
    let mut env = Environment::new_for(7);
    let x = env.add_variable("x", None).unwrap();
    let s = env.add_spin("s").unwrap();
    let n = env.add_integer("n_1").unwrap();
    assert_eq!((x.id, s.id, n.id), (0, 1, 2));
    assert_eq!(x.env_id, 7);
    assert_eq!(env.get_vtype(0), Vtype::Binary);
    assert_eq!(env.get_vtype(1), Vtype::Spin);
    assert_eq!(env.get_vtype(2), Vtype::Integer);
    assert_eq!(env.num_variables(), 3);
    assert_eq!(env.get("s").unwrap(), 1);
    assert!(env.get("t").is_err());
    assert_eq!(env.get_vref_by_name("n_1").unwrap().id, 2);
    let refs = env.get_vrefs_in_order();
    assert_eq!(refs.len(), 3);
    assert_eq!(refs[2].id, 2);
}

#[test]
fn duplicate_variable_names_are_refused() {
    let mut env = Environment::new_for(1);
    env.add_binary("x").unwrap();
    match env.add_real("x") {
        Err(VariableCreationErr::VariableExists(name)) => assert_eq!(name, "x"),
        _ => panic!("a second variable named x must be refused"),
    }
    assert_eq!(env.num_variables(), 1);
}

#[test]
fn variable_names_must_be_legal() {
    assert!(ensure_name_valid("a,b_2").is_ok());
    match ensure_name_valid("1x") {
        Err(VariableCreationErr::VarName(m)) => {
            assert_eq!(m, "Variable names must start with an alphabetic character.")
        }
        _ => panic!("a name starting with a digit must be refused"),
    }
    match ensure_name_valid("") {
        Err(VariableCreationErr::VarName(m)) => {
            assert_eq!(m, "Variable names must start with an alphabetic character.")
        }
        _ => panic!("an empty name must be refused"),
    }
    match ensure_name_valid("x-y") {
        Err(VariableCreationErr::VarName(m)) => assert_eq!(
            m,
            "Variable names must only contain alphanumeric characters or '_' or ','."
        ),
        _ => panic!("a name with a dash must be refused"),
    }
    let mut env = Environment::new_for(2);
    assert!(env.add_variable("é", None).is_err());
    assert_eq!(env.num_variables(), 0);
}

#[test]
fn variables_are_read_back_by_index() {
    let mut env = Environment::new_for(4);
    let a = env.add_binary("alpha").unwrap();
    let b = env.add_integer("beta").unwrap();
    assert_eq!(env.get_var(1).name, "beta");
    assert_eq!(env.get_var(1).vtype, Vtype::Integer);
    assert_eq!(env.get_var(0).name, "alpha");
    assert_eq!(a.name(&env), "alpha");
    assert_eq!(b.name(&env), "beta");
}
