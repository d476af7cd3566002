use luna_model::collection::{ConstraintCollection, ConstraintKey, Create};
use luna_model::constraint::{starts_with_failable, Constraint};
use luna_model::environment::Environment;
use luna_model::errors::GetConstraintErr;
use luna_model::expression::Expression;
use luna_model::types::Comparator;

fn lin(env: &Environment, v: u32, bias: i64, offset: i64) -> Expression {
    Expression::new_linear_and_offset(env, v, bias, offset)
}

#[test]
fn comparators_evaluate() {
    assert!(Comparator::Eq.evaluate(3, 3));
    assert!(!Comparator::Eq.evaluate(3, 4));
    assert!(Comparator::Le.evaluate(3, 4));
    assert!(!Comparator::Le.evaluate(5, 4));
    assert!(Comparator::Ge.evaluate(5, 4));
    assert!(!Comparator::Ge.evaluate(3, 4));
    assert_eq!(Comparator::Le.symbol(), "<=");
    assert_eq!(Comparator::Eq.symbol(), "==");
    assert_eq!(Comparator::Ge.symbol(), ">=");
}

#[test]
fn new_constraints_move_the_offset_to_the_right() {
    let mut env = Environment::new_for(3);
    let x = env.add_binary("x").unwrap();
    let c = Constraint::new(lin(&env, x.id, 2, 5), 7, Comparator::Le, Some("cap".to_string())).unwrap();
    assert_eq!(c.rhs, 2);
    assert_eq!(c.lhs.offset(), 0);
    assert_eq!(c.lhs.linear(x.id).unwrap(), 2);
    assert_eq!(c.name, "cap");
    assert!(!c.has_placeholder_name());
    let d = Constraint::new(lin(&env, x.id, 1, 0), 1, Comparator::Eq, None).unwrap();
    assert_eq!(d.name, "<NN>");
    assert!(d.has_placeholder_name());
    assert!(c.evaluate_sample(&vec![1]));
    assert!(!d.evaluate_sample(&vec![0]));
}

#[test]
fn constraint_names_are_checked() {
    assert!(Constraint::validate_name(&None).is_ok());
    assert!(Constraint::validate_name(&Some("budget".to_string())).is_ok());
    assert!(Constraint::validate_name(&Some("Ünits".to_string())).is_ok());
    let e = Constraint::validate_name(&Some("".to_string())).unwrap_err();
    assert_eq!(e.0, "constraint names cannot be empty strings");
    let e = Constraint::validate_name(&Some("1st".to_string())).unwrap_err();
    assert_eq!(e.0, "constraint names must start with an alphabetical character, is 1");
    let e = Constraint::validate_name(&Some("Infeasible".to_string())).unwrap_err();
    assert_eq!(e.0, "constraint names cannot start with one of 'inf, nan', is Infeasible");
    let e = Constraint::validate_name(&Some("nanny".to_string())).unwrap_err();
    assert_eq!(e.0, "constraint names cannot start with one of 'inf, nan', is nanny");
    assert!(starts_with_failable("NaN"));
    assert!(starts_with_failable("inf"));
    assert!(!starts_with_failable("in"));
    assert!(!starts_with_failable("x_inf"));
}

#[test]
fn renaming_constraints() {
    let mut env = Environment::new_for(3);
    let x = env.add_binary("x").unwrap();
    let mut c = Constraint::new(lin(&env, x.id, 1, 0), 1, Comparator::Eq, None).unwrap();
    assert!(c.set_name("infinity".to_string()).is_err());
    assert_eq!(c.name, "<NN>");
    c.set_name("ok".to_string()).unwrap();
    assert_eq!(c.name, "ok");
    c.set_name_for_idx(42);
    assert_eq!(c.name, "c42");
}

#[test]
fn collections_name_and_find_constraints() {
    let mut env = Environment::new_for(3);
    let x = env.add_binary("x").unwrap();
    let mut coll = ConstraintCollection::default();
    assert!(coll.is_empty());
    coll.add_assign(Constraint::new(lin(&env, x.id, 1, 0), 1, Comparator::Le, None).unwrap()).unwrap();
    coll.add_assign(Constraint::new(lin(&env, x.id, 2, 0), 2, Comparator::Ge, Some("b".to_string())).unwrap()).unwrap();
    coll.add_assign(Constraint::new(lin(&env, x.id, 3, 0), 3, Comparator::Le, None).unwrap()).unwrap();
    assert_eq!(coll.len(), 3);
    assert_eq!(coll.get_index(0).0, "c0");
    assert_eq!(coll.get_index(2).0, "c2");
    let dup = Constraint::new(lin(&env, x.id, 9, 0), 9, Comparator::Eq, Some("b".to_string())).unwrap();
    assert_eq!(coll.add_assign(dup).unwrap_err().0, "b");
    assert_eq!(coll.len(), 3);
    assert_eq!(coll.get_constraint(ConstraintKey::Str("b".to_string())).unwrap().rhs, 2);
    assert_eq!(coll.get_constraint(ConstraintKey::Int(2)).unwrap().rhs, 3);
    match coll.get_constraint(ConstraintKey::Int(5)) {
        Err(GetConstraintErr::IndexOutOfBoundsErr(e)) => {
            assert_eq!((e.index, e.len), (5, 3))
        }
        _ => panic!("position 5 is past the end"),
    }
    match coll.get_constraint(ConstraintKey::Str("zz".to_string())) {
        Err(GetConstraintErr::NoConstraintForKeyErr(k)) => assert_eq!(k, "zz"),
        _ => panic!("no constraint is named zz"),
    }
    assert_eq!(coll.ctypes(), vec![Comparator::Le, Comparator::Ge]);
    assert_eq!(ConstraintKey::Int(12).describe(), "12");
    assert_eq!(ConstraintKey::Str("q".to_string()).describe(), "q");
}

#[test]
fn collections_replace_and_remove_constraints() {
    let mut env = Environment::new_for(3);
    let x = env.add_binary("x").unwrap();
    let mut coll = ConstraintCollection::create();
    for k in 0..4 {
        coll.add_assign(Constraint::new(lin(&env, x.id, 1, 0), k, Comparator::Le, None).unwrap()).unwrap();
    }
    let replacement = Constraint::new(lin(&env, x.id, 1, 0), 10, Comparator::Eq, Some("new".to_string())).unwrap();
    coll.set_constraint(ConstraintKey::Int(1), replacement).unwrap();
    assert_eq!(coll.get_index(1).0, "c1");
    assert_eq!(coll.get_index(1).1.rhs, 10);
    let other = Constraint::new(lin(&env, x.id, 1, 0), 20, Comparator::Eq, None).unwrap();
    assert!(coll.set_constraint(ConstraintKey::Str("nope".to_string()), other).is_err());
    coll.remove_constraint(ConstraintKey::Int(0));
    assert_eq!(coll.len(), 3);
    assert_eq!(coll.get_index(0).0, "c1");
    assert_eq!(coll.get_index(1).0, "c2");
    assert_eq!(coll.get_index(2).0, "c3");
    coll.remove_constraint(ConstraintKey::Str("c2".to_string()));
    assert_eq!(coll.len(), 2);
    assert_eq!(coll.get_index(0).0, "c1");
    assert_eq!(coll.get_index(1).0, "c3");
    coll.remove_constraint(ConstraintKey::Int(7));
    coll.remove_constraint(ConstraintKey::Str("c9".to_string()));
    assert_eq!(coll.len(), 2);
}

#[test]
fn placeholder_names_follow_the_size() {
    let mut env = Environment::new_for(3);
    let x = env.add_binary("x").unwrap();
    let mut coll = ConstraintCollection::default();
    coll.add_assign(Constraint::new(lin(&env, x.id, 1, 0), 0, Comparator::Le, Some("c1".to_string())).unwrap()).unwrap();
    let clash = coll.add_assign(Constraint::new(lin(&env, x.id, 1, 0), 5, Comparator::Le, None).unwrap());
    assert_eq!(clash.unwrap_err().0, "c1");
    assert_eq!(coll.len(), 1);
    assert_eq!(coll.get_index(0).0, "c1");
    assert_eq!(coll.get_index(0).1.rhs, 0);
    coll.add_assign(Constraint::new(lin(&env, x.id, 1, 0), 6, Comparator::Le, Some("z".to_string())).unwrap()).unwrap();
    coll.add_assign(Constraint::new(lin(&env, x.id, 1, 0), 7, Comparator::Le, None).unwrap()).unwrap();
    assert_eq!(coll.len(), 3);
    assert_eq!(coll.get_index(2).0, "c2");
    assert_eq!(coll.get_index(2).1.rhs, 7);
}

#[test]
fn copied_collections_keep_names_and_order() {
    let mut env = Environment::new_for(3);
    let x = env.add_binary("x").unwrap();
    let mut coll = ConstraintCollection::default();
    coll.add_assign(Constraint::new(lin(&env, x.id, 1, 0), 4, Comparator::Le, Some("first".to_string())).unwrap()).unwrap();
    coll.add_assign(Constraint::new(lin(&env, x.id, 2, 0), 6, Comparator::Ge, None).unwrap()).unwrap();
    let copy = ConstraintCollection::new_from(&coll);
    assert_eq!(copy.len(), 2);
    assert_eq!(copy.get_index(0).0, "first");
    assert_eq!(copy.get_index(0).1.rhs, 4);
    assert_eq!(copy.get_index(1).0, "c1");
    assert_eq!(copy.get_index(1).1.comparator, Comparator::Ge);
    assert!(copy.eq(&coll));
}

#[test]
fn collections_from_lists_name_by_position() {
    let mut env = Environment::new_for(3);
    let x = env.add_binary("x").unwrap();
    let list = vec![
        Constraint::new(lin(&env, x.id, 1, 0), 1, Comparator::Le, None).unwrap(),
        Constraint::new(lin(&env, x.id, 1, 0), 2, Comparator::Ge, Some("b".to_string())).unwrap(),
        Constraint::new(lin(&env, x.id, 1, 0), 3, Comparator::Eq, None).unwrap(),
        Constraint::new(lin(&env, x.id, 1, 0), 4, Comparator::Le, Some("b".to_string())).unwrap(),
    ];
    let coll = ConstraintCollection::new_from_vec(list);
    assert_eq!(coll.len(), 3);
    assert_eq!(coll.get_index(0).0, "c0");
    assert_eq!(coll.get_index(1).0, "b");
    assert_eq!(coll.get_index(1).1.rhs, 4);
    assert_eq!(coll.get_index(1).1.comparator, Comparator::Le);
    assert_eq!(coll.get_index(2).0, "c2");
    assert_eq!(coll.get_index(2).1.rhs, 3);
}
