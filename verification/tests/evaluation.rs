use dream_egg::dom_expr::{CurriedFn, DomExpr, Domain, EvalError, Val};
use dream_egg::expr::Expr;
use dream_egg::lambda::Lambda;

#[derive(Clone, Debug, PartialEq, Eq, Hash)]
struct Num(i64);

impl Domain for Num {
    fn prim_value(p: egg::Symbol) -> Option<Val<Num>> {
        Self::val_of_prim(p)
    }

    fn prim_call(p: egg::Symbol, args: &[Val<Num>], r: Val<Num>) -> bool {
        match (p.as_str(), args) {
            ("+", [Val::Dom(Num(a)), Val::Dom(Num(b))]) => r == Val::Dom(Num(a + b)),
            ("twice", [_, _]) => true,
            _ => false,
        }
    }

    fn val_of_prim(p: egg::Symbol) -> Option<Val<Num>> {
        match p.as_str() {
            "+" => Some(Val::PrimFun(CurriedFn::new(p, 2))),
            "twice" => Some(Val::PrimFun(CurriedFn::new(p, 2))),
            s => s.parse::<i64>().ok().map(|n| Val::Dom(Num(n))),
        }
    }

    fn call_prim(p: egg::Symbol, args: &[Val<Num>], handle: &mut DomExpr<Num>, fuel: usize) -> Val<Num> {
        match p.as_str() {
            "+" => Val::Dom(Num(args[0].unwrap_dom().0 + args[1].unwrap_dom().0)),
            "twice" => {
                let once = handle.apply(&args[0], &args[1], fuel).unwrap();
                handle.apply(&args[0], &once, fuel).unwrap()
            }
            _ => panic!("unknown primitive"),
        }
    }
}

fn sym(s: &str) -> egg::Symbol {
    egg::Symbol::from(s)
}

/// (app (app + 3) 4)
fn plus_3_4() -> Expr {
    let mut e = Expr::new();
    let plus = e.add(Lambda::Prim(sym("+")));
    let three = e.add(Lambda::Prim(sym("3")));
    let plus3 = e.add(Lambda::App(plus, three));
    let four = e.add(Lambda::Prim(sym("4")));
    e.add(Lambda::App(plus3, four));
    e
}

#[test]
fn curried_plus_adds_once_both_arguments_are_in() {
    let mut d: DomExpr<Num> = DomExpr::from(plus_3_4());
    assert_eq!(d.eval(&[], 100), Ok(Val::Dom(Num(7))));
}

#[test]
fn partial_application_is_a_curried_function() {
    let mut d: DomExpr<Num> = DomExpr::new(plus_3_4());
    let v = d.eval_child(2, &[], 100).unwrap();
    let mut expected = CurriedFn::new(sym("+"), 2);
    expected = match expected.feed(&Val::Dom(Num(3))) {
        Err(f) => f,
        Ok(_) => panic!("a two-argument primitive is not full after one argument"),
    };
    assert_eq!(v, Val::PrimFun(expected));
}

#[test]
fn evaluation_is_remembered() {
    let mut d: DomExpr<Num> = DomExpr::new(plus_3_4());
    assert_eq!(d.eval(&[], 100), Ok(Val::Dom(Num(7))));
    let recorded = d.evals().len();
    assert_eq!(d.evals_of_node(4), vec![(vec![], Val::Dom(Num(7)))]);
    assert_eq!(d.lookup(4, &[]), Some(recorded - 1));
    assert_eq!(d.eval(&[], 100), Ok(Val::Dom(Num(7))));
    assert_eq!(d.evals().len(), recorded);
}

#[test]
fn closures_capture_and_extend_their_environment() {
    // (app (lam (app (app + $0) $1)) 5) in the environment [10]
    let mut e = Expr::new();
    let plus = e.add(Lambda::Prim(sym("+")));
    let v0 = e.add(Lambda::Var(0));
    let v1 = e.add(Lambda::Var(1));
    let p0 = e.add(Lambda::App(plus, v0));
    let body = e.add(Lambda::App(p0, v1));
    let lam = e.add(Lambda::Lam(body));
    let five = e.add(Lambda::Prim(sym("5")));
    e.add(Lambda::App(lam, five));
    let mut d: DomExpr<Num> = DomExpr::new(e);
    assert_eq!(d.eval(&[Val::Dom(Num(10))], 100), Ok(Val::Dom(Num(15))));
    assert_eq!(
        d.eval_child(lam, &[Val::Dom(Num(10))], 100),
        Ok(Val::LamClosure(body, vec![Val::Dom(Num(10))]))
    );
}

#[test]
fn primitives_can_apply_function_values() {
    // (app (app twice (app + 1)) 5) = 7
    let mut e = Expr::new();
    let twice = e.add(Lambda::Prim(sym("twice")));
    let plus = e.add(Lambda::Prim(sym("+")));
    let one = e.add(Lambda::Prim(sym("1")));
    let inc = e.add(Lambda::App(plus, one));
    let t = e.add(Lambda::App(twice, inc));
    let five = e.add(Lambda::Prim(sym("5")));
    e.add(Lambda::App(t, five));
    let mut d: DomExpr<Num> = DomExpr::new(e);
    assert_eq!(d.eval(&[], 100), Ok(Val::Dom(Num(7))));
}

#[test]
fn evaluation_errors() {
    let mut e = Expr::new();
    e.add(Lambda::Var(3));
    let mut d: DomExpr<Num> = DomExpr::new(e);
    assert_eq!(d.eval(&[], 100), Err(EvalError::UnboundVar));
    assert_eq!(d.eval(&[], 0), Err(EvalError::OutOfFuel));
    assert_eq!(d.eval_child(7, &[], 100), Err(EvalError::NoSuchNode));
    assert!(d.evals().is_empty());

    let mut e = Expr::new();
    e.add(Lambda::Prim(sym("nope")));
    let mut d: DomExpr<Num> = DomExpr::new(e);
    assert_eq!(d.eval(&[], 100), Err(EvalError::UnknownPrim));

    let mut e = Expr::new();
    let three = e.add(Lambda::Prim(sym("3")));
    e.add(Lambda::App(three, three));
    let mut d: DomExpr<Num> = DomExpr::new(e);
    assert_eq!(d.eval(&[], 100), Err(EvalError::NotAFunction));

    let mut e = Expr::new();
    let three = e.add(Lambda::Prim(sym("3")));
    e.add(Lambda::Programs(vec![three]));
    let mut d: DomExpr<Num> = DomExpr::new(e);
    assert_eq!(d.eval(&[], 100), Err(EvalError::Programs));
}

#[test]
fn unwrap_dom_gives_the_domain_value() {
    assert_eq!(Val::Dom(Num(4)).unwrap_dom(), Num(4));
    assert_eq!(Val::from(Num(9)), Val::Dom(Num(9)));
}

#[test]
fn later_evaluations_keep_earlier_results() {
    // (app (app + $0) 1) in two environments
    let mut e = Expr::new();
    let plus = e.add(Lambda::Prim(sym("+")));
    let v0 = e.add(Lambda::Var(0));
    let p0 = e.add(Lambda::App(plus, v0));
    let one = e.add(Lambda::Prim(sym("1")));
    let root = e.add(Lambda::App(p0, one));
    let mut d: DomExpr<Num> = DomExpr::new(e);
    assert_eq!(d.eval(&[Val::Dom(Num(2))], 100), Ok(Val::Dom(Num(3))));
    let first = d.evals().clone();
    assert_eq!(d.eval(&[Val::Dom(Num(5))], 100), Ok(Val::Dom(Num(6))));
    assert!(d.evals().len() > first.len());
    assert_eq!(&d.evals()[..first.len()], &first[..]);
    assert_eq!(
        d.evals_of_node(root),
        vec![(vec![Val::Dom(Num(2))], Val::Dom(Num(3))), (vec![Val::Dom(Num(5))], Val::Dom(Num(6)))]
    );
}
