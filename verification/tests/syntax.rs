use dream_egg::lambda::Lambda;
use dream_egg::syntax::from_op;

#[test]
fn a_decimal_without_children_is_a_variable() {
    assert!(matches!(from_op("3", vec![]), Some(Lambda::Var(3))));
    assert!(matches!(from_op("-7", vec![]), Some(Lambda::Var(-7))));
    assert!(matches!(from_op("+5", vec![]), Some(Lambda::Var(5))));
    assert!(matches!(from_op("-2147483648", vec![]), Some(Lambda::Var(i32::MIN))));
}

#[test]
fn a_decimal_out_of_range_is_a_primitive() {
    match from_op("2147483648", vec![]) {
        Some(Lambda::Prim(p)) => assert_eq!(p.as_str(), "2147483648"),
        other => panic!("unexpected {:?}", other),
    }
}

#[test]
fn operators_take_their_children() {
    assert!(matches!(from_op("app", vec![1, 2]), Some(Lambda::App(1, 2))));
    assert!(matches!(from_op("lam", vec![4]), Some(Lambda::Lam(4))));
    match from_op("programs", vec![1, 2, 3]) {
        Some(Lambda::Programs(ps)) => assert_eq!(ps, vec![1, 2, 3]),
        other => panic!("unexpected {:?}", other),
    }
}

#[test]
fn an_operator_without_children_is_a_primitive() {
    for name in ["app", "lam", "programs", "+", "map"] {
        match from_op(name, vec![]) {
            Some(Lambda::Prim(p)) => assert_eq!(p.as_str(), name),
            other => panic!("unexpected {:?}", other),
        }
    }
}

#[test]
fn an_operator_with_the_wrong_number_of_children_is_refused() {
    assert!(from_op("app", vec![1]).is_none());
    assert!(from_op("lam", vec![1, 2]).is_none());
    assert!(from_op("map", vec![1]).is_none());
    assert!(from_op("3", vec![1]).is_none());
}
