use luna_model::constant::{
    constant_times_constant, constant_times_expression, constant_times_higher_order,
    constant_times_term, Constant,
};
use luna_model::environment::{Environment, VarRef};
use luna_model::errors::{
    DifferentEnvsError, EnvMismatchError, IndexOutOfOrderError, ParseFromStringError,
    VariableCreationError, VariableError, VariableExistsError, VariableOutOfRangeErr,
    VariablesFromDifferentEnvsErr, VariablesFromDifferentEnvsError,
};
use luna_model::expression::{Expression, Term};
use luna_model::monomial::reduce_higher_order_vars;
use luna_model::multiplication::constant;
use luna_model::operations::{
    AddAssignToExpression, AddToExpression, AqResult, MulAssignToExpression, MulToExpression,
    OperationErr,
    NegToExpression, RSubToExpression, SubAssignToExpression, SubToExpression,
};
use luna_model::types::Vtype;

/// x binary (0), s spin (1), n integer (2), r real (3).
fn env4() -> (Environment, VarRef, VarRef, VarRef, VarRef) {
    let mut env = Environment::new_for(5);
    let x = env.add_binary("x").unwrap();
    let s = env.add_spin("s").unwrap();
    let n = env.add_integer("n").unwrap();
    let r = env.add_real("r").unwrap();
    (env, x, s, n, r)
}

#[test]
fn products_of_variables_are_reduced() {
    let (env, x, s, n, _) = env4();
    assert_eq!(reduce_higher_order_vars(&vec![0, 0, 0], &env), vec![0]);
    assert_eq!(reduce_higher_order_vars(&vec![1, 1, 1], &env), vec![1]);
    assert_eq!(reduce_higher_order_vars(&vec![1, 1], &env), Vec::<u32>::new());
    assert_eq!(reduce_higher_order_vars(&vec![2, 1, 2, 0, 0], &env), vec![0, 1, 2, 2]);
    let mut e = Expression::empty(env.id);
    e.add_quadratic(&env, x.id, x.id, 3);
    e.add_quadratic(&env, s.id, s.id, 2);
    e.add_quadratic(&env, n.id, n.id, 5);
    e.add_higher_order(&env, &vec![n.id, x.id, x.id, s.id, s.id, s.id], 4);
    assert_eq!(e.linear(x.id).unwrap(), 3);
    assert_eq!(e.offset(), 2);
    assert_eq!(e.quadratic(n.id, n.id).unwrap(), 5);
    assert_eq!(e.higher_order(&vec![2, 1, 0]).unwrap(), 4);
    assert_eq!(e.higher_order(&vec![0, 0, 1, 2]).unwrap(), 0);
    assert_eq!(e.evaluate_sample(&vec![1, -1, 3, 0]), 38);
    assert_eq!(e.degree(), 3);
    assert!(!e.is_linear());
    assert_eq!(e.num_variables(), 3);
    assert_eq!(e.variables(), vec![0, 1, 2]);
}

#[test]
fn queries_report_variables_out_of_range() {
    let (env, x, _, n, _) = env4();
    let mut e = Expression::empty(env.id);
    e.add_linear(&env, x.id, 1);
    assert_eq!(e.linear(x.id).unwrap(), 1);
    assert_eq!(e.linear(n.id), Err(VariableOutOfRangeErr(2)));
    assert_eq!(e.quadratic(x.id, 3), Err(VariableOutOfRangeErr(3)));
    assert_eq!(e.higher_order(&vec![0, 2]), Err(VariableOutOfRangeErr(2)));
    assert_eq!(e.higher_order(&vec![]).unwrap(), 0);
    assert!(e.is_linear());
}

#[test]
fn sums_and_differences() {
    let (env, x, s, _, _) = env4();
    let a = Expression::new_linear_and_offset(&env, x.id, 2, 1);
    let b = Expression::new_linear(&env, (x.id, 3), (s.id, -1));
    let sum = a.add(&env, &b).unwrap();
    assert_eq!(sum.linear(x.id).unwrap(), 5);
    assert_eq!(sum.linear(s.id).unwrap(), -1);
    assert_eq!(sum.offset(), 1);
    let diff = a.sub(&env, &b).unwrap();
    assert_eq!(diff.linear(x.id).unwrap(), -1);
    assert_eq!(diff.linear(s.id).unwrap(), 1);
    let zero = a.sub(&env, &a).unwrap();
    assert_eq!(zero.evaluate_sample(&vec![1, 1, 0, 0]), 0);
    assert_eq!(zero.linear(x.id).unwrap(), 0);
    let mut c = a.copy();
    c.add_assign(&env, &b).unwrap();
    assert_eq!(c.linear(x.id).unwrap(), 5);
    c.sub_assign(&env, &b).unwrap();
    assert_eq!(c.linear(x.id).unwrap(), 2);
    let with_var = a.add_var(&env, &s).unwrap();
    assert_eq!(with_var.linear(s.id).unwrap(), 1);
    let without_var = a.sub_var(&env, &x).unwrap();
    assert_eq!(without_var.linear(x.id).unwrap(), 1);
    assert_eq!(a.add_constant(4).offset(), 5);
}

#[test]
fn operations_across_environments_are_refused() {
    let (env, x, _, _, _) = env4();
    let mut other = Environment::new_for(6);
    let y = other.add_binary("y").unwrap();
    let a = Expression::new_linear_single(&env, x.id, 1);
    let b = Expression::new_linear_single(&other, y.id, 1);
    assert!(a.add(&env, &b).is_err());
    assert!(a.sub(&env, &b).is_err());
    assert!(a.mul(&env, &b).is_err());
    assert!(a.add_var(&env, &y).is_err());
    assert!(a.mul_var(&env, &y).is_err());
    assert!(x.add(&env, &y).is_err());
    assert!(x.mul(&env, &y).is_err());
    assert!(a.substitute(&env, &y, &a).is_err());
    assert!(a.substitute(&env, &x, &b).is_err());
    assert!(a.separate(&env, &vec![y]).is_err());
    let mut c = a.copy();
    assert!(c.add_assign(&env, &b).is_err());
    assert_eq!(c.linear(x.id).unwrap(), 1);
}

#[test]
fn products_follow_the_variable_types() {
    let (env, x, s, n, _) = env4();
    let xp1 = Expression::new_linear_and_offset(&env, x.id, 1, 1);
    let xp2 = Expression::new_linear_and_offset(&env, x.id, 1, 2);
    let p = xp1.mul(&env, &xp2).unwrap();
    assert_eq!(p.linear(x.id).unwrap(), 4);
    assert_eq!(p.offset(), 2);
    assert!(p.is_linear());
    let sp1 = Expression::new_linear_and_offset(&env, s.id, 1, 1);
    let sm1 = Expression::new_linear_and_offset(&env, s.id, 1, -1);
    let q = sp1.mul(&env, &sm1).unwrap();
    assert_eq!(q.offset(), 0);
    assert_eq!(q.linear(s.id).unwrap(), 0);
    assert_eq!(q.evaluate_sample(&vec![0, -1, 0, 0]), 0);
    let np1 = Expression::new_linear_and_offset(&env, n.id, 1, 1);
    let sq = np1.mul(&env, &np1).unwrap();
    assert_eq!(sq.quadratic(n.id, n.id).unwrap(), 1);
    assert_eq!(sq.linear(n.id).unwrap(), 2);
    assert_eq!(sq.offset(), 1);
    assert_eq!(sq.evaluate_sample(&vec![0, 1, 4, 0]), 25);
    let mut m = np1.copy();
    m.mul_assign_var(&env, &x).unwrap();
    assert_eq!(m.quadratic(x.id, n.id).unwrap(), 1);
    assert_eq!(m.linear(x.id).unwrap(), 1);
    let xn = x.mul(&env, &n).unwrap();
    assert_eq!(xn.quadratic(n.id, x.id).unwrap(), 1);
}

#[test]
fn products_evaluate_to_the_product_of_values() {
    let (env, x, s, n, r) = env4();
    let mut a = Expression::simple(env.id, 3);
    a.add_linear(&env, n.id, 2);
    a.add_quadratic(&env, x.id, s.id, -1);
    let mut b = Expression::simple(env.id, -2);
    b.add_linear(&env, r.id, 1);
    b.add_quadratic(&env, s.id, n.id, 4);
    let p = a.mul(&env, &b).unwrap();
    for sample in [vec![1, -1, 2, 5], vec![0, 1, -3, 7], vec![1, 1, 0, -2]] {
        assert_eq!(
            p.evaluate_sample(&sample),
            a.evaluate_sample(&sample) * b.evaluate_sample(&sample)
        );
    }
}

#[test]
fn powers_of_variables() {
    let (env, x, s, n, _) = env4();
    match x.pow(&env, 5) {
        AqResult::Success(e) => {
            assert_eq!(e.linear(x.id).unwrap(), 1);
            assert!(e.is_linear());
        }
        AqResult::Failure(_) => panic!("a power of a variable must succeed"),
    }
    let s2 = s.pow(&env, 2).into_result().unwrap();
    assert_eq!(s2.offset(), 1);
    let n3 = n.pow(&env, 3).expect("a power of a variable must succeed");
    assert_eq!(n3.higher_order(&vec![2, 2, 2]).unwrap(), 1);
    assert_eq!(n3.evaluate_sample(&vec![0, 1, -3, 0]), -27);
    let one = n.pow(&env, 0).expect("a power of a variable must succeed");
    assert_eq!(one.offset(), 1);
    assert_eq!(one.num_variables(), 0);
}

#[test]
fn substitution_replaces_every_occurrence() {
    let (env, x, _, n, _) = env4();
    let mut e = Expression::empty(env.id);
    e.add_linear(&env, n.id, 2);
    e.add_quadratic(&env, n.id, x.id, 1);
    let repl = Expression::new_linear_and_offset(&env, x.id, 1, 3);
    let out = e.substitute(&env, &n, &repl).unwrap();
    assert_eq!(out.linear(x.id).unwrap(), 6);
    assert_eq!(out.offset(), 6);
    assert!(out.is_linear());
    assert_eq!(out.variables(), vec![0]);
    let mut f = Expression::empty(env.id);
    f.add_higher_order(&env, &vec![n.id, n.id], 1);
    let g = f.substitute(&env, &n, &repl).unwrap();
    assert_eq!(g.evaluate_sample(&vec![1, 1, 0, 0]), 16);
    assert_eq!(g.evaluate_sample(&vec![0, 1, 0, 0]), 9);
}

#[test]
fn substitution_drops_the_target_unless_the_replacement_holds_it() {
    let (env, x, _, n, _) = env4();
    let mut e = Expression::empty(env.id);
    e.add_linear(&env, n.id, 2);
    e.add_linear(&env, x.id, 1);
    let mut repl = Expression::simple(env.id, 4);
    repl.add_variables(&env, &vec![n.id]);
    let out = e.substitute(&env, &n, &repl).unwrap();
    assert_eq!(out.offset(), 8);
    assert_eq!(out.variables(), vec![x.id]);
    let back = Expression::new_linear_and_offset(&env, n.id, 1, 1);
    let kept = e.substitute(&env, &n, &back).unwrap();
    assert_eq!(kept.variables(), vec![x.id, n.id]);
    assert_eq!(kept.linear(n.id).unwrap(), 2);
}

#[test]
fn separation_by_variables() {
    let (env, x, s, _, _) = env4();
    let mut e = Expression::simple(env.id, 7);
    e.add_linear(&env, x.id, 3);
    e.add_linear(&env, s.id, 2);
    e.add_quadratic(&env, x.id, s.id, 5);
    let (left, right) = e.separate(&env, &vec![x]).unwrap();
    assert_eq!(left.linear(x.id).unwrap(), 3);
    assert_eq!(left.quadratic(x.id, s.id).unwrap(), 5);
    assert_eq!(left.offset(), 0);
    assert_eq!(right.linear(s.id).unwrap(), 2);
    assert_eq!(right.offset(), 7);
    assert!(right.linear(x.id).unwrap_or(0) == 0);
}

#[test]
fn items_list_non_zero_coefficients() {
    let (env, x, s, _, _) = env4();
    let mut e = Expression::simple(env.id, 7);
    e.add_linear(&env, x.id, 3);
    e.add_linear(&env, s.id, 2);
    e.add_linear(&env, s.id, -2);
    e.add_quadratic(&env, s.id, x.id, 5);
    let items = e.items();
    assert_eq!(items, vec![(vec![], 7), (vec![0], 3), (vec![0, 1], 5)]);
    let z = Expression::empty(env.id);
    assert!(z.items().is_empty());
}

#[test]
fn equality_compares_offsets_and_coefficients() {
    let (env, x, s, _, _) = env4();
    let a = Expression::new_linear_and_offset(&env, x.id, 2, 1);
    let b = Expression::new_linear_and_offset(&env, x.id, 2, 9);
    let c = Expression::new_linear_and_offset(&env, x.id, 3, 1);
    let d = Expression::new_linear_and_offset(&env, s.id, 2, 1);
    let same = Expression::new_linear_and_offset(&env, x.id, 2, 1);
    assert!(a.eq(&same));
    assert!(!a.eq(&b));
    assert!(!Expression::simple(env.id, 0).eq(&Expression::simple(env.id, 1)));
    assert!(Expression::simple(env.id, 1).eq(&Expression::simple(env.id, 1)));
    assert!(!a.eq(&c));
    assert!(!a.eq(&d));
}

#[test]
fn set_higher_order_replaces_or_adds() {
    let (env, x, s, n, _) = env4();
    let mut e = Expression::empty(env.id);
    e.add_higher_order(&env, &vec![x.id, s.id, n.id], 4);
    e.set_higher_order(&env, &vec![n.id, x.id, s.id], 9);
    assert_eq!(e.higher_order(&vec![0, 1, 2]).unwrap(), 9);
    e.set_higher_order(&env, &vec![x.id], 2);
    e.set_higher_order(&env, &vec![x.id], 2);
    assert_eq!(e.linear(x.id).unwrap(), 4);
}

#[test]
fn constants_times_terms() {
    let entries: Vec<(u32, i64)> = vec![(0, 2), (1, 0), (2, -3)];
    assert_eq!(constant_times_term(&Constant::new(2), &entries), vec![(0, 4), (2, -6)]);
    assert_eq!(constant_times_term(&Constant::new(1), &entries), entries);
    assert!(constant_times_term(&Constant::new(0), &entries).is_empty());
    assert!(constant_times_term(&Constant::empty(), &entries).is_empty());
    assert_eq!(constant_times_constant(&Constant::new(3), &Constant::new(-4)).value, Some(-12));
    assert_eq!(constant_times_constant(&Constant::new(3), &Constant::empty()).value, None);
    let terms = vec![Term { vars: vec![0, 1, 2], bias: 5 }, Term { vars: vec![1], bias: 0 }];
    let scaled = constant_times_higher_order(&Constant::new(-2), &terms);
    assert_eq!(scaled.len(), 1);
    assert_eq!(scaled[0].vars, vec![0, 1, 2]);
    assert_eq!(scaled[0].bias, -10);
    assert_eq!(constant_times_higher_order(&Constant::new(1), &terms).len(), 2);
}

#[test]
fn constants_times_expressions() {
    let (env, x, s, _, _) = env4();
    let mut e = Expression::simple(env.id, 3);
    e.add_linear(&env, x.id, 2);
    e.add_quadratic(&env, x.id, s.id, -1);
    let p = constant_times_expression(&Constant::new(-3), &e);
    assert_eq!(p.offset(), -9);
    assert_eq!(p.linear(x.id).unwrap(), -6);
    assert_eq!(p.quadratic(x.id, s.id).unwrap(), 3);
    let z = constant_times_expression(&Constant::empty(), &e);
    assert_eq!(z.offset(), 0);
    assert!(z.items().is_empty());
}

#[test]
fn operators_with_constants() {
    let (env, x, _, _, _) = env4();
    let e = Expression::new_linear_and_offset(&env, x.id, 2, 1);
    let sum = AddToExpression::add(&e, 5);
    assert_eq!(sum.offset(), 6);
    let diff = SubToExpression::sub(&e, 5);
    assert_eq!(diff.offset(), -4);
    let rdiff = RSubToExpression::rsub(&e, 5);
    assert_eq!(rdiff.offset(), 4);
    assert_eq!(rdiff.linear(x.id).unwrap(), -2);
    let prod = MulToExpression::mul(&e, 3);
    assert_eq!(prod.linear(x.id).unwrap(), 6);
    assert_eq!(prod.offset(), 3);
    let neg = NegToExpression::neg(&e);
    assert_eq!(neg.linear(x.id).unwrap(), -2);
    assert_eq!(neg.offset(), -1);
    let mut m = e.copy();
    AddAssignToExpression::add_assign(&mut m, 4);
    assert_eq!(m.offset(), 5);
    SubAssignToExpression::sub_assign(&mut m, 2);
    assert_eq!(m.offset(), 3);
    MulAssignToExpression::mul_assign(&mut m, -1);
    assert_eq!(m.offset(), -3);
    assert_eq!(m.linear(x.id).unwrap(), -2);
}

#[test]
fn negation_twice_is_identity() {
    let (env, x, s, _, _) = env4();
    let mut e = Expression::simple(env.id, 3);
    e.add_linear(&env, x.id, 2);
    e.add_quadratic(&env, x.id, s.id, -1);
    let once = e.negate();
    assert_eq!(once.offset(), -3);
    assert_eq!(once.linear(x.id).unwrap(), -2);
    assert_eq!(once.quadratic(x.id, s.id).unwrap(), 1);
    let back = e.neg().neg();
    assert_eq!(back.items(), e.items());
    assert!(back.eq(&e));
}

#[test]
fn the_type_of_a_variable_decides_its_square() {
    let (env, x, s, n, r) = env4();
    assert_eq!(env.get_vtype(r.id), Vtype::Real);
    let mut e = Expression::empty(env.id);
    e.add_quadratic(&env, r.id, r.id, 1);
    assert_eq!(e.quadratic(r.id, r.id).unwrap(), 1);
    assert_eq!(e.evaluate_sample(&vec![0, 1, 0, -4]), 16);
    let _ = (x, s, n);
}

#[test]
fn dense_matrices_add_their_quadratic_form() {
    let (env, _, _, _, _) = env4();
    let mut e = Expression::empty(env.id);
    e.add_quadratic_from_dense(&env, &vec![1, -1, 0, 4], 2);
    assert_eq!(e.linear(0).unwrap(), 1);
    assert_eq!(e.offset(), 4);
    assert_eq!(e.quadratic(0, 1).unwrap(), -1);
    assert_eq!(e.num_variables(), 2);
    let mut z = Expression::empty(env.id);
    z.add_quadratic_from_dense(&env, &vec![0, 0, 0, 0], 2);
    assert_eq!(z.num_variables(), 2);
    assert!(z.items().is_empty());
}

#[test]
fn error_messages() {
    assert_eq!(VariableOutOfRangeErr(12).message(), "variable is out of range (is 12)");
    assert_eq!(IndexOutOfOrderError(3, 1).message(), "Index out of oder: last index <= 3 (is 1)");
    assert_eq!(EnvMismatchError.message(), "Environments of the provided models do not match.");
    assert_eq!(VariableExistsError.message(), "variable already exists in environment");
    assert_eq!(
        VariableCreationError::new("bad".to_string()).message(),
        "variable creation failed: bad"
    );
    assert_eq!(
        VariablesFromDifferentEnvsError.message(),
        "operation on two variables from differeent environments is not supported"
    );
    assert_eq!(
        DifferentEnvsError.message(),
        "operation on two variables from differeent environments is not supported"
    );
    assert_eq!(ParseFromStringError("1.x".to_string()).message(), "could not parse to string: 1.x");
    assert_eq!(
        VariableError::from(VariableOutOfRangeErr(4)),
        VariableError::VariableOutOfRangeError(VariableOutOfRangeErr(4))
    );
    assert_eq!(
        VariableError::from(VariablesFromDifferentEnvsErr),
        VariableError::VariableFromDifferentEnvs(VariablesFromDifferentEnvsErr)
    );
}

#[test]
fn reducing_twice_changes_nothing() {
    let (env, _, _, _, _) = env4();
    let once = reduce_higher_order_vars(&vec![2, 1, 2, 0, 0, 1, 1, 3], &env);
    let twice = reduce_higher_order_vars(&once, &env);
    assert_eq!(once, vec![0, 1, 2, 2, 3]);
    assert_eq!(twice, once);
}

#[test]
fn subtracting_what_was_added_gives_it_back() {
    let (env, x, s, n, _) = env4();
    let mut a = Expression::simple(env.id, 2);
    a.add_linear(&env, x.id, 3);
    a.add_quadratic(&env, s.id, n.id, -4);
    let mut b = Expression::simple(env.id, -7);
    b.add_linear(&env, n.id, 5);
    b.add_quadratic(&env, x.id, s.id, 1);
    let sum = a.add(&env, &b).unwrap();
    let back = sum.sub(&env, &b).unwrap();
    assert_eq!(back.offset(), a.offset());
    assert_eq!(back.linear(x.id).unwrap(), 3);
    assert_eq!(back.linear(n.id).unwrap(), 0);
    assert_eq!(back.quadratic(s.id, n.id).unwrap(), -4);
    assert_eq!(back.quadratic(x.id, s.id).unwrap(), 0);
}

#[test]
fn products_commute() {
    let (env, x, s, n, _) = env4();
    let mut a = Expression::simple(env.id, 1);
    a.add_linear(&env, x.id, 2);
    a.add_quadratic(&env, s.id, n.id, 3);
    let mut b = Expression::simple(env.id, -2);
    b.add_linear(&env, s.id, 1);
    b.add_linear(&env, n.id, 4);
    let mut ab = Expression::empty(env.id);
    Expression::multiply(&a, &b, &env, &mut ab);
    let mut ba = Expression::empty(env.id);
    Expression::multiply(&b, &a, &env, &mut ba);
    for sample in [vec![1, -1, 3, 0], vec![0, 1, -2, 0], vec![1, 1, 1, 0]] {
        let va = a.evaluate_sample(&sample);
        let vb = b.evaluate_sample(&sample);
        assert_eq!(ab.evaluate_sample(&sample), va * vb);
        assert_eq!(ba.evaluate_sample(&sample), va * vb);
    }
}

#[test]
fn multiply_adds_into_the_result() {
    let (env, x, s, n, _) = env4();
    let mut a = Expression::simple(env.id, 2);
    a.add_linear(&env, x.id, 1);
    let mut b = Expression::simple(env.id, 3);
    b.add_linear(&env, s.id, -1);
    let mut result = Expression::simple(env.id, 5);
    result.add_linear(&env, n.id, 7);
    Expression::multiply(&a, &b, &env, &mut result);
    for sample in [vec![1, -1, 3, 0], vec![0, 1, -2, 0], vec![1, 1, 4, 0]] {
        let va = a.evaluate_sample(&sample);
        let vb = b.evaluate_sample(&sample);
        assert_eq!(result.evaluate_sample(&sample), 5 + 7 * sample[2] + va * vb);
    }
    assert_eq!(result.offset, 11);
}

#[test]
fn outcomes_of_operations_combine() {
    let (env, x, s, _, _) = env4();
    let a = Expression::new_linear_and_offset(&env, x.id, 2, 1);
    let b = Expression::new_linear_and_offset(&env, s.id, 3, 4);
    let sum = AqResult::Success(a.copy()).add(&env, AqResult::Success(b.copy()));
    match sum {
        AqResult::Success(o) => {
            assert_eq!(o.offset(), 5);
            assert_eq!(o.linear(x.id).unwrap(), 2);
            assert_eq!(o.linear(s.id).unwrap(), 3);
        }
        AqResult::Failure(_) => panic!("the sum of two expressions of one environment exists"),
    }
    let failed: AqResult<Expression, OperationErr> =
        AqResult::Failure(OperationErr::VariablesFromDifferentEnvs(VariablesFromDifferentEnvsErr));
    assert!(matches!(failed.add(&env, AqResult::Success(b.copy())), AqResult::Failure(_)));
    assert!(matches!(
        AqResult::Success(a.copy()).add(&env, AqResult::Success(Expression::simple(env.id + 1, 1))),
        AqResult::Failure(OperationErr::VariablesFromDifferentEnvs(_))
    ));
    match AqResult::Success(a.copy()).mul(&env, &s) {
        AqResult::Success(o) => {
            assert_eq!(o.quadratic(x.id, s.id).unwrap(), 2);
            assert_eq!(o.linear(s.id).unwrap(), 1);
        }
        AqResult::Failure(_) => panic!("a product with a variable of the same environment exists"),
    }
    match AqResult::Success(a.copy()).scale(-3) {
        AqResult::Success(o) => {
            assert_eq!(o.offset(), -3);
            assert_eq!(o.linear(x.id).unwrap(), -6);
        }
        AqResult::Failure(_) => panic!("scaling never fails"),
    }
}

#[test]
fn items_come_by_degree_then_by_variables() {
    let (env, x, s, n, r) = env4();
    let mut e = Expression::empty(env.id);
    e.add_higher_order(&env, &vec![n.id, s.id, x.id], 4);
    e.add_quadratic(&env, s.id, n.id, 2);
    e.add_linear(&env, r.id, 1);
    e.add_quadratic(&env, x.id, r.id, 6);
    e.add_linear(&env, x.id, 9);
    assert_eq!(
        e.items(),
        vec![
            (vec![x.id], 9),
            (vec![r.id], 1),
            (vec![x.id, r.id], 6),
            (vec![s.id, n.id], 2),
            (vec![x.id, s.id, n.id], 4),
        ]
    );
}

#[test]
fn constants_times_terms_add_into_a_result() {
    let entries: Vec<(u32, i64)> = vec![(0, 2), (2, -3), (4, 0)];
    let mut result: Vec<(u32, i64)> = vec![(0, 1), (5, 9)];
    constant::constant_times_term(&Constant::new(2), &entries, &mut result);
    assert_eq!(result, vec![(0, 5), (5, 9), (2, -6)]);
    constant::constant_times_term(&Constant::new(0), &entries, &mut result);
    constant::constant_times_term(&Constant::empty(), &entries, &mut result);
    assert_eq!(result, vec![(0, 5), (5, 9), (2, -6)]);
    let pairs: Vec<((u32, u32), i64)> = vec![((0, 1), 3), ((1, 2), 1)];
    let mut quad: Vec<((u32, u32), i64)> = vec![((0, 1), 1)];
    constant::constant_times_term(&Constant::new(-1), &pairs, &mut quad);
    assert_eq!(quad, vec![((0, 1), -2), ((1, 2), -1)]);
    let ho = vec![Term { vars: vec![0, 1, 2], bias: 1 }, Term { vars: vec![1, 2, 3], bias: 2 }];
    let mut out = vec![Term { vars: vec![0, 1, 2], bias: 5 }, Term { vars: vec![0, 2, 3], bias: 7 }];
    constant::constant_times_higher_order(&Constant::new(3), &ho, &mut out);
    assert_eq!(out.len(), 3);
    assert_eq!((out[0].vars.clone(), out[0].bias), (vec![0, 1, 2], 8));
    assert_eq!((out[1].vars.clone(), out[1].bias), (vec![0, 2, 3], 7));
    assert_eq!((out[2].vars.clone(), out[2].bias), (vec![1, 2, 3], 6));
}

#[test]
fn variables_with_constants() {
    let (env, x, _, n, _) = env4();
    let a = n.add_bias(&env, 3);
    let b = n.sub_bias(&env, 3);
    let c = n.rsub_bias(&env, 3);
    let d = x.mul_bias(&env, -4);
    assert_eq!(a.evaluate_sample(&vec![0, 1, 5, 0]), 8);
    assert_eq!(b.evaluate_sample(&vec![0, 1, 5, 0]), 2);
    assert_eq!(c.evaluate_sample(&vec![0, 1, 5, 0]), -2);
    assert_eq!(d.evaluate_sample(&vec![1, 1, 5, 0]), -4);
    assert_eq!(b.offset(), -3);
    assert_eq!(b.linear(n.id).unwrap(), 1);
    assert_eq!(c.linear(n.id).unwrap(), -1);
    assert_eq!(d.variables(), vec![x.id]);
}

#[test]
fn constant_times_expression_adds_into_a_result() {
    let (env, x, s, n, _) = env4();
    let mut other = Expression::simple(env.id, 3);
    other.add_linear(&env, x.id, 2);
    other.add_quadratic(&env, x.id, s.id, -1);
    let mut result = Expression::simple(env.id, 1);
    result.add_linear(&env, x.id, 5);
    result.add_linear(&env, n.id, 7);
    constant::constant_times_expression(&Constant::new(-2), &other, &env, &mut result);
    assert_eq!(result.offset(), -5);
    assert_eq!(result.linear(x.id).unwrap(), 1);
    assert_eq!(result.linear(n.id).unwrap(), 7);
    assert_eq!(result.quadratic(x.id, s.id).unwrap(), 2);
    let before = result.evaluate_sample(&vec![1, -1, 2, 0]);
    constant::constant_times_expression(&Constant::empty(), &other, &env, &mut result);
    constant::constant_times_expression(&Constant::new(0), &other, &env, &mut result);
    assert_eq!(result.evaluate_sample(&vec![1, -1, 2, 0]), before);
}
