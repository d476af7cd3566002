use luna_model::environment::Environment;
use luna_model::expression::{Expression, Term};
use luna_model::products::{
    add_subset_helper, binary_spin_helper_higher_order, binary_spin_helper_quadratic,
    higher_order_times_expression, higher_order_times_higher_order, higher_order_times_linear,
    higher_order_times_quadratic, linear_times_expression, linear_times_higher_order,
    linear_times_linear, linear_times_quadratic, quadratic_times_expression,
    quadratic_times_higher_order, quadratic_times_linear, quadratic_times_quadratic,
};

// x and y binary, s and t spin, n integer.
fn env5() -> Environment {
    let mut env = Environment::new_for(9);
    env.add_binary("x").unwrap();
    env.add_binary("y").unwrap();
    env.add_spin("s").unwrap();
    env.add_spin("t").unwrap();
    env.add_integer("n").unwrap();
    env
}

const X: u32 = 0;
const Y: u32 = 1;
const S: u32 = 2;
const T: u32 = 3;
const N: u32 = 4;

fn term(vars: Vec<u32>, bias: i64) -> Term {
    Term { vars, bias }
}

fn fresh(env: &Environment) -> Expression {
    let mut e = Expression::empty(env.id);
    e.add_variables(env, &vec![X, Y, S, T, N]);
    e
}

#[test]
fn linear_products_merge_binary_and_cancel_spin() {
    let env = env5();
    let mut r = fresh(&env);
    let lhs = vec![term(vec![X], 2), term(vec![S], 3)];
    let rhs = vec![term(vec![X], 5), term(vec![S], 7), term(vec![N], 1)];
    linear_times_linear(&lhs, &rhs, &env, &mut r);
    assert_eq!(r.linear(X).unwrap(), 10);
    assert_eq!(r.offset(), 21);
    assert_eq!(r.quadratic(X, S).unwrap(), 29);
    assert_eq!(r.quadratic(X, N).unwrap(), 2);
    assert_eq!(r.quadratic(S, N).unwrap(), 3);
    // (2x + 3s)(5x + 7s + n) at x = 1, s = -1, n = 4.
    assert_eq!(r.evaluate_sample(&vec![1, 0, -1, 1, 4]), (2 - 3) * (5 - 7 + 4));
}

#[test]
fn linear_times_quadratic_cases() {
    let env = env5();
    let mut r = fresh(&env);
    let lin = vec![term(vec![X], 2), term(vec![S], 3), term(vec![N], 1)];
    let quad = vec![term(vec![X, S], 5)];
    linear_times_quadratic(&lin, &quad, &env, &mut r);
    // x * xs = xs, s * xs = x, n * xs = xsn.
    assert_eq!(r.quadratic(X, S).unwrap(), 10);
    assert_eq!(r.linear(X).unwrap(), 15);
    assert_eq!(r.higher_order(&vec![X, S, N]).unwrap(), 5);
    let mut q = fresh(&env);
    quadratic_times_linear(&quad, &lin, &env, &mut q);
    assert_eq!(q.quadratic(X, S).unwrap(), 10);
    assert_eq!(q.linear(X).unwrap(), 15);
    assert_eq!(q.higher_order(&vec![N, S, X]).unwrap(), 5);
}

#[test]
fn quadratic_products_follow_the_variable_types() {
    let env = env5();
    let mut r = fresh(&env);
    quadratic_times_quadratic(&vec![term(vec![X, Y], 2)], &vec![term(vec![X, Y], 3)], &env, &mut r);
    assert_eq!(r.quadratic(X, Y).unwrap(), 6);
    let mut r = fresh(&env);
    quadratic_times_quadratic(&vec![term(vec![S, T], 2)], &vec![term(vec![S, T], 3)], &env, &mut r);
    assert_eq!(r.offset(), 6);
    let mut r = fresh(&env);
    quadratic_times_quadratic(&vec![term(vec![X, Y], 1)], &vec![term(vec![X, N], 4)], &env, &mut r);
    assert_eq!(r.higher_order(&vec![X, Y, N]).unwrap(), 4);
    let mut r = fresh(&env);
    quadratic_times_quadratic(&vec![term(vec![S, T], 1)], &vec![term(vec![S, N], 4)], &env, &mut r);
    assert_eq!(r.quadratic(T, N).unwrap(), 4);
    let mut r = fresh(&env);
    quadratic_times_quadratic(&vec![term(vec![X, S], 2)], &vec![term(vec![X, S], 5)], &env, &mut r);
    assert_eq!(r.linear(X).unwrap(), 10);
    let mut r = fresh(&env);
    quadratic_times_quadratic(&vec![term(vec![X, S], 2)], &vec![term(vec![S, N], 5)], &env, &mut r);
    assert_eq!(r.quadratic(X, N).unwrap(), 10);
    let mut r = fresh(&env);
    quadratic_times_quadratic(&vec![term(vec![X, N], 1)], &vec![term(vec![X, N], 1)], &env, &mut r);
    assert_eq!(r.higher_order(&vec![X, N, N]).unwrap(), 1);
}

#[test]
fn higher_order_products_follow_the_variable_types() {
    let env = env5();
    let mut r = fresh(&env);
    quadratic_times_higher_order(&vec![term(vec![X, S], 3)], &vec![term(vec![X, S, N], 2)], &env, &mut r);
    assert_eq!(r.quadratic(X, N).unwrap(), 6);
    let mut r = fresh(&env);
    higher_order_times_quadratic(&vec![term(vec![X, Y, N], 2)], &vec![term(vec![X, Y], 3)], &env, &mut r);
    assert_eq!(r.higher_order(&vec![X, Y, N]).unwrap(), 6);
    let mut r = fresh(&env);
    linear_times_higher_order(&vec![term(vec![S], 2)], &vec![term(vec![X, S, N], 3)], &env, &mut r);
    assert_eq!(r.quadratic(X, N).unwrap(), 6);
    let mut r = fresh(&env);
    higher_order_times_linear(&vec![term(vec![X, S, N], 3)], &vec![term(vec![X], 2)], &env, &mut r);
    assert_eq!(r.higher_order(&vec![X, S, N]).unwrap(), 6);
    let mut r = fresh(&env);
    higher_order_times_higher_order(
        &vec![term(vec![X, Y, N], 2)],
        &vec![term(vec![Y, S, T], 3)],
        &env,
        &mut r,
    );
    assert_eq!(r.higher_order(&vec![X, Y, S, T, N]).unwrap(), 6);
    let mut r = fresh(&env);
    higher_order_times_higher_order(
        &vec![term(vec![S, T, N], 2)],
        &vec![term(vec![S, T, N], 5)],
        &env,
        &mut r,
    );
    assert_eq!(r.quadratic(N, N).unwrap(), 10);
    let mut r = fresh(&env);
    higher_order_times_higher_order(
        &vec![term(vec![X, Y, S], 1)],
        &vec![term(vec![T, N, N], 1)],
        &env,
        &mut r,
    );
    assert_eq!(r.higher_order(&vec![X, Y, S, T, N, N]).unwrap(), 1);
}

#[test]
fn helpers_add_the_reduced_product() {
    let env = env5();
    let mut r = fresh(&env);
    binary_spin_helper_quadratic(true, true, X, S, X, S, 4, &env, &mut r);
    assert_eq!(r.linear(X).unwrap(), 4);
    binary_spin_helper_quadratic(false, true, X, S, S, N, 3, &env, &mut r);
    assert_eq!(r.quadratic(X, N).unwrap(), 3);
    let mut h = fresh(&env);
    binary_spin_helper_higher_order(false, true, X, S, &vec![Y, S, N], 2, &env, &mut h);
    assert_eq!(h.higher_order(&vec![X, Y, N]).unwrap(), 2);
    let mut z = fresh(&env);
    add_subset_helper(vec![], 5, &env, &mut z);
    add_subset_helper(vec![Y], 6, &env, &mut z);
    add_subset_helper(vec![Y, N, X], 7, &env, &mut z);
    assert_eq!(z.offset(), 5);
    assert_eq!(z.linear(Y).unwrap(), 6);
    assert_eq!(z.higher_order(&vec![X, Y, N]).unwrap(), 7);
}

#[test]
fn term_lists_times_expressions() {
    let env = env5();
    let mut other = fresh(&env);
    other.add_offset(3);
    other.add_linear(&env, S, 2);
    other.add_quadratic(&env, X, N, 1);
    let mut r = fresh(&env);
    linear_times_expression(&vec![term(vec![S], 5)], &other, &env, &mut r);
    // 5s * (3 + 2s + xn) = 15s + 10 + 5sxn
    assert_eq!(r.linear(S).unwrap(), 15);
    assert_eq!(r.offset(), 10);
    assert_eq!(r.higher_order(&vec![X, S, N]).unwrap(), 5);
    let mut q = fresh(&env);
    quadratic_times_expression(&vec![term(vec![X, S], 1)], &other, &env, &mut q);
    // xs * (3 + 2s + xn) = 3xs + 2x + xsn
    assert_eq!(q.quadratic(X, S).unwrap(), 3);
    assert_eq!(q.linear(X).unwrap(), 2);
    assert_eq!(q.higher_order(&vec![X, S, N]).unwrap(), 1);
    let mut h = fresh(&env);
    higher_order_times_expression(&vec![term(vec![X, S, N], 2)], &other, &env, &mut h);
    // xsn * (3 + 2s + xn) = 3xsn + 2xn + xsnn
    assert_eq!(h.higher_order(&vec![X, S, N]).unwrap(), 6);
    assert_eq!(h.quadratic(X, N).unwrap(), 4);
    assert_eq!(h.higher_order(&vec![X, S, N, N]).unwrap(), 2);
}

#[test]
fn zero_products_add_no_term() {
    let env = env5();
    let mut r = fresh(&env);
    let lhs = vec![term(vec![X], 0), term(vec![S], 2)];
    let rhs = vec![term(vec![N], 3)];
    linear_times_linear(&lhs, &rhs, &env, &mut r);
    assert_eq!(r.terms.len(), 1);
    assert_eq!(r.quadratic(X, N).unwrap(), 0);
    assert_eq!(r.quadratic(S, N).unwrap(), 6);
}
