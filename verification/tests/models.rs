use luna_model::constraint::Constraint;
use luna_model::environment::Environment;
use luna_model::expression::Expression;
use luna_model::model::{ConstraintType, Model, Qubo};
use luna_model::operations::One;
use luna_model::types::{Comparator, Sense, Vtype};

fn sample_model() -> Model {
    let mut env = Environment::new_for(11);
    let x = env.add_binary("x").unwrap();
    let y = env.add_binary("y").unwrap();
    let n = env.add_integer("n").unwrap();
    let _unused = env.add_spin("s").unwrap();
    let mut m = Model::new_with_env(Some("knap".to_string()), None, env);
    let mut obj = Expression::empty(m.environment.id);
    obj.add_linear(&m.environment, x.id, 3);
    obj.add_quadratic(&m.environment, x.id, y.id, -2);
    m.objective = obj;
    let c0 = Constraint::new(Expression::new_linear(&m.environment, (x.id, 1), (y.id, 1)), 1, Comparator::Le, None).unwrap();
    let c1 = Constraint::new(Expression::new_linear_single(&m.environment, n.id, 2), 4, Comparator::Eq, Some("even".to_string())).unwrap();
    m.constraints.add_assign(c0).unwrap();
    m.constraints.add_assign(c1).unwrap();
    m
}

#[test]
fn new_models_are_empty() {
    let m = Model::new_with_env(None, None, Environment::new_for(2));
    assert_eq!(m.name, "unnamed");
    assert_eq!(m.sense, Sense::Min);
    assert!(m.sense.is_min());
    assert_eq!(m.num_variables(), 0);
    assert!(m.constraints.is_empty());
    let mut m2 = Model::new_with_env(Some("p".to_string()), Some(Sense::Max), Environment::new_for(3));
    assert_eq!(m2.sense.get_name(), "Max");
    m2.set_sense(Sense::Min);
    assert_eq!(m2.sense, Sense::Min);
}

#[test]
fn model_specs_describe_the_model() {
    let m = sample_model();
    assert_eq!(m.num_variables(), 3);
    let mut vt = m.vtypes();
    vt.sort_by_key(|t| format!("{t:?}"));
    assert_eq!(vt, vec![Vtype::Binary, Vtype::Integer]);
    let specs = m.get_specs();
    assert_eq!(specs.sense, Sense::Min);
    assert_eq!(specs.constraints, vec![ConstraintType::LessEqual, ConstraintType::Equality]);
    assert_eq!(specs.max_objective_degree, 2);
    assert_eq!(specs.max_constraint_degree, 1);
    assert_eq!(specs.num_variables, 3);
}

#[test]
fn samples_are_evaluated() {
    let m = sample_model();
    let r = m.evaluate_sample(&vec![1, 1, 2, 1]).unwrap();
    assert_eq!(r.objective, 1);
    assert_eq!(r.constraints, vec![false, true]);
    assert!(!r.feasible);
    let r2 = m.evaluate_sample(&vec![1, 0, 2, -1]).unwrap();
    assert!(m.evaluate_sample(&vec![1, 0, 2]).is_err());
    assert_eq!(r2.objective, 3);
    assert!(r2.feasible);
    let violated = m.violated_constraints(&vec![1, 1, 3, 1]);
    assert_eq!(violated.len(), 2);
    assert_eq!(violated.get_index(0).0, "c0");
    assert_eq!(violated.get_index(1).0, "even");
    assert!(m.violated_constraints(&vec![0, 0, 2, 1]).is_empty());
}

#[test]
fn substitution_in_models() {
    let mut m = sample_model();
    let x = m.environment.get_vref_by_name("x").unwrap();
    let y = m.environment.get_vref_by_name("y").unwrap();
    let repl = Expression::new_linear_and_offset(&m.environment, y.id, -1, 1);
    m.substitute(&x, &repl).unwrap();
    // The replacement does not use x, so x leaves the environment and y moves to index 0.
    assert!(m.environment.get_vref_by_name("x").is_err());
    assert_eq!(m.environment.num_variables(), 3);
    let y = m.environment.get_vref_by_name("y").unwrap();
    assert_eq!(y.id, 0);
    assert_eq!(m.environment.get("n").unwrap(), 1);
    assert_eq!(m.objective.linear(y.id).unwrap(), -3);
    assert_eq!(m.objective.offset(), 3);
    let c0 = m.constraints.get_index(0).1;
    assert_eq!(c0.lhs.offset(), 1);
    assert_eq!(c0.lhs.linear(y.id).unwrap(), 0);
    let c1 = m.constraints.get_index(1).1;
    assert_eq!(c1.lhs.linear(1).unwrap(), 2);
    let n = m.environment.get_vref_by_name("n").unwrap();
    let shifted = Expression::new_linear_and_offset(&m.environment, n.id, 1, 1);
    m.substitute(&n, &shifted).unwrap();
    assert_eq!(m.environment.num_variables(), 3);
    let c1 = m.constraints.get_index(1).1;
    assert_eq!(c1.lhs.linear(n.id).unwrap(), 2);
    assert_eq!(c1.lhs.offset(), 2);
    let other = Environment::new_for(99);
    let foreign = Expression::empty(other.id);
    assert!(m.substitute(&x, &foreign).is_err());
}

#[test]
fn models_from_dense_matrices() {
    let matrix = vec![1, 2, 0, -1, 3, 4, 5, 0, -2];
    let m = Model::new_from_dense(None, None, &matrix, 3, Some(7), None, Environment::new_for(40)).unwrap();
    assert_eq!(m.name, "unnamed");
    assert_eq!(m.environment.num_variables(), 3);
    assert_eq!(m.environment.get("x_2").unwrap(), 2);
    assert_eq!(m.objective.linear(0).unwrap(), 1);
    assert_eq!(m.objective.linear(1).unwrap(), 3);
    assert_eq!(m.objective.linear(2).unwrap(), -2);
    assert_eq!(m.objective.quadratic(0, 1).unwrap(), 1);
    assert_eq!(m.objective.quadratic(0, 2).unwrap(), 5);
    assert_eq!(m.objective.quadratic(1, 2).unwrap(), 4);
    assert_eq!(m.objective.offset(), 7);
    let r = m.evaluate_sample(&vec![1, 1, 1]).unwrap();
    assert_eq!(r.objective, 1 + 2 - 1 + 3 + 4 + 5 - 2 + 7);
}

#[test]
fn dense_models_of_spin_variables() {
    let matrix = vec![2, 1, 1, 3];
    let names = vec!["a".to_string(), "b".to_string()];
    let m = Model::new_from_dense(Some("ising".to_string()), Some(Vtype::Spin), &matrix, 2, None, Some(names), Environment::new_for(41)).unwrap();
    assert_eq!(m.name, "ising");
    assert_eq!(m.environment.get_vtype(1), Vtype::Spin);
    assert_eq!(m.objective.offset(), 5);
    assert_eq!(m.objective.quadratic(0, 1).unwrap(), 2);
    assert_eq!(m.objective.evaluate_sample(&vec![1, -1]), 3);
}

#[test]
fn dense_models_refuse_bad_names() {
    let matrix = vec![0, 0, 0, 0];
    let dup = vec!["a".to_string(), "a".to_string()];
    match Model::new_from_dense(None, None, &matrix, 2, None, Some(dup), Environment::new_for(42)) {
        Err(luna_model::errors::VariableCreationErr::VariableExists(n)) => assert_eq!(n, "a"),
        _ => panic!("a repeated name must be refused"),
    }
    let bad = vec!["a".to_string(), "9".to_string()];
    assert!(matches!(
        Model::new_from_dense(None, None, &matrix, 2, None, Some(bad), Environment::new_for(43)),
        Err(luna_model::errors::VariableCreationErr::VarName(_))
    ));
}

#[test]
fn deep_clones_get_a_new_environment() {
    let m = sample_model();
    let c = m.deep_clone(77);
    assert_eq!(c.environment.id, 77);
    assert_eq!(c.objective.env_id, 77);
    assert_eq!(c.environment.get("n").unwrap(), 2);
    assert_eq!(c.objective.items(), m.objective.items());
    assert_eq!(c.constraints.len(), 2);
    assert_eq!(c.constraints.get_index(1).0, "even");
    assert_eq!(c.constraints.get_index(1).1.lhs.env_id, 77);
    assert_eq!(c.name, m.name);
}

#[test]
fn models_from_qubos() {
    let q = Qubo {
        name: "q".to_string(),
        vtype: Vtype::Binary,
        matrix_flat: vec![1, 1, 1, 1],
        num_variables: 2,
        offset: -1,
        variable_names: vec!["u".to_string(), "w".to_string()],
    };
    let m = Model::from_qubo(q, Environment::new_for(50)).unwrap();
    assert_eq!(m.name, "q");
    assert_eq!(m.environment.get("w").unwrap(), 1);
    assert_eq!(m.objective.quadratic(0, 1).unwrap(), 2);
    assert_eq!(m.objective.evaluate_sample(&vec![1, 1]), 3);
}

#[test]
fn models_compare_by_content_and_environment() {
    let a = sample_model();
    let b = sample_model();
    assert!(a.eq(&b));
    let c = a.deep_clone(12);
    assert!(!a.eq(&c));
    let mut d = sample_model();
    d.constraints.remove_constraint(luna_model::collection::ConstraintKey::Int(0));
    assert!(!a.eq(&d));
    let c0 = a.constraints.get_index(0).1;
    let c1 = a.constraints.get_index(1).1;
    assert!(c0.eq(c0));
    assert!(!c0.eq(c1));
    assert!(a.constraints.eq(&b.constraints));
    assert!(!a.constraints.eq(&d.constraints));
}

#[test]
fn constraint_collections_report_types() {
    let m = sample_model();
    let mut vt = m.constraints.vtypes(&m.environment);
    vt.sort_by_key(|t| format!("{t:?}"));
    assert_eq!(vt, vec![Vtype::Binary, Vtype::Integer]);
    assert_eq!(Sense::Min.get_value(), "Minimize");
    assert_eq!(Sense::Max.get_value(), "Maximize");
    assert_eq!(Sense::Min.get_name(), "Min");
    assert_eq!(Sense::default(), Sense::Min);
}

#[test]
fn many_samples_are_evaluated_in_order() {
    let m = sample_model();
    let results = m.evaluate_samples(&vec![vec![1, 1, 2, 1], vec![1, 0, 2, -1]]).unwrap();
    assert!(m.evaluate_samples(&vec![vec![1, 1, 2, 1], vec![1, 0]]).is_err());
    assert_eq!(results.len(), 2);
    assert_eq!(results[0].objective, 1);
    assert!(!results[0].feasible);
    assert_eq!(results[1].objective, 3);
    assert!(results[1].feasible);
    assert_eq!(<i64 as One>::one(), 1);
    assert_eq!(<i8 as One>::one(), 1);
    assert_eq!(<u8 as One>::one(), 1);
}

#[test]
fn content_equality_ignores_environment_identity() {
    let m = sample_model();
    let copy = m.deep_clone(99);
    assert_ne!(copy.environment.id, m.environment.id);
    assert!(!m.eq(&copy));
    assert!(m.is_equal_contents(&copy));
    assert!(m.environment.is_equal_contents(&copy.environment));
    assert!(m.objective.is_equal_contents(&copy.objective));
    assert!(m.constraints.is_equal_contents(&copy.constraints));
    let (_, c) = m.constraints.get_index(1);
    let (_, d) = copy.constraints.get_index(1);
    assert!(c.is_equal_contents(d));
    let (_, other) = m.constraints.get_index(0);
    assert!(!c.is_equal_contents(other));
    let mut renamed = m.deep_clone(98);
    renamed.name = "other".to_string();
    assert!(!m.is_equal_contents(&renamed));
    let mut flipped = m.deep_clone(97);
    flipped.set_sense(Sense::Max);
    assert!(!m.is_equal_contents(&flipped));
    let mut env = Environment::new_for(5);
    env.add_binary("x").unwrap();
    let mut env2 = Environment::new_for(6);
    env2.add_spin("x").unwrap();
    assert!(!env.is_equal_contents(&env2));
}

#[test]
fn removing_a_variable_renumbers_the_rest() {
    let mut env = Environment::new_for(12);
    let a = env.add_integer("a").unwrap();
    let b = env.add_binary("b").unwrap();
    let c = env.add_spin("c").unwrap();
    let mut e = Expression::simple(env.id, 4);
    e.add_linear(&env, a.id, 2);
    e.add_quadratic(&env, a.id, c.id, 5);
    let r = e.renumbered_without(&env, b.id);
    env.remove(&b);
    assert_eq!(env.num_variables(), 2);
    assert!(env.get("b").is_err());
    assert_eq!(env.get("c").unwrap(), 1);
    assert_eq!(env.get_vtype(1), Vtype::Spin);
    assert_eq!(r.offset(), 4);
    assert_eq!(r.linear(0).unwrap(), 2);
    assert_eq!(r.quadratic(0, 1).unwrap(), 5);
    assert_eq!(r.variables(), vec![0, 1]);
    assert_eq!(r.evaluate_sample(&vec![3, -1]), 4 + 6 - 15);
}
