//! The text form of nodes: which node an operator with its children stands
//! for. A decimal integer with no children is a variable, `app` with two
//! children an application, `lam` with one an abstraction, any other
//! operator with no children a primitive, and `programs` with at least one
//! child a corpus.

use vstd::prelude::*;
use vstd::string::StringSliceAdditionalSpecFns;
use crate::lambda::{symbol_from_str, Id, Lambda};

verus! {

/// Every byte is an ASCII digit, and there is at least one.
pub open spec fn all_digits(b: Seq<u8>) -> bool {
    b.len() > 0 && forall|i: int| 0 <= i < b.len() ==> 48 <= #[trigger] b[i] <= 57
}

/// The number that the ASCII digits `b` write in base ten.
pub open spec fn digits_value(b: Seq<u8>) -> int
    decreases b.len(),
{
    if b.len() == 0 {
        0
    } else {
        digits_value(b.drop_last()) * 10 + (b.last() - 48)
    }
}

/// The integer that `b` writes: an optional `+` or `-`, then ASCII digits.
pub open spec fn decimal_value(b: Seq<u8>) -> Option<int> {
    if b.len() > 0 && b[0] == 45 && all_digits(b.drop_first()) {
        Some(-digits_value(b.drop_first()))
    } else if b.len() > 0 && b[0] == 43 && all_digits(b.drop_first()) {
        Some(digits_value(b.drop_first()))
    } else if all_digits(b) {
        Some(digits_value(b))
    } else {
        None
    }
}

/// The `i32` that `b` writes, if it writes one in range.
pub open spec fn parsed_i32(b: Seq<u8>) -> Option<i32> {
    match decimal_value(b) {
        Some(v) => if i32::MIN <= v <= i32::MAX {
            Some(v as i32)
        } else {
            None
        },
        None => None,
    }
}

/// Reads a decimal `i32`.
///
/// Trusted: `<i32 as FromStr>::from_str` (std) accepts exactly an optional
/// `+` or `-` followed by one or more ASCII digits whose value fits in an
/// `i32`, and returns that value; it refuses everything else.
#[verifier::external_body]
fn parse_i32(s: &str) -> (r: Option<i32>)
    ensures
        r == parsed_i32(s.spec_bytes()),
{
    s.parse::<i32>().ok()
}

/// The bytes of `app`.
pub open spec fn app_word() -> Seq<u8> {
    seq![97u8, 112u8, 112u8]
}

/// The bytes of `lam`.
pub open spec fn lam_word() -> Seq<u8> {
    seq![108u8, 97u8, 109u8]
}

/// The bytes of `programs`.
pub open spec fn programs_word() -> Seq<u8> {
    seq![112u8, 114u8, 111u8, 103u8, 114u8, 97u8, 109u8, 115u8]
}

/// Whether `b` is the word `w`.
fn is_word(b: &[u8], w: &Vec<u8>) -> (r: bool)
    ensures
        r == (b@ == w@),
{
    if b.len() != w.len() {
        return false;
    }
    let mut i: usize = 0;
    while i < b.len()
        invariant
            b@.len() == w@.len(),
            i <= b@.len(),
            forall|j: int| 0 <= j < i ==> b@[j] == w@[j],
        decreases b@.len() - i,
    {
        if b[i] != w[i] {
            return false;
        }
        i = i + 1;
    }
    assert(b@ =~= w@);
    true
}

/// The node that operator `op` with `children` stands for in the text form
/// of programs, or `None` where the operator takes another number of
/// children. The first rule that fits applies: a decimal `i32` with no
/// children is that variable; `app` with two children an application; `lam`
/// with one an abstraction; any operator with no children the primitive of
/// that name; `programs` a corpus of the children.
pub fn from_op(op: &str, children: Vec<Id>) -> (r: Option<Lambda>)
    ensures
        ({
            let b = op.spec_bytes();
            let n = children@.len();
            if parsed_i32(b) is Some && n == 0 {
                r == Some(Lambda::Var(parsed_i32(b)->0))
            } else if b == app_word() && n == 2 {
                r == Some(Lambda::App(children@[0], children@[1]))
            } else if b == lam_word() && n == 1 {
                r == Some(Lambda::Lam(children@[0]))
            } else if n == 0 {
                r matches Some(Lambda::Prim(_))
            } else if b == programs_word() {
                r matches Some(Lambda::Programs(ps)) && ps@ == children@
            } else {
                r is None
            }
        }),
{
    let b = op.as_bytes();
    let mut app: Vec<u8> = Vec::new();
    app.push(97u8);
    app.push(112u8);
    app.push(112u8);
    let mut lam: Vec<u8> = Vec::new();
    lam.push(108u8);
    lam.push(97u8);
    lam.push(109u8);
    let mut programs: Vec<u8> = Vec::new();
    programs.push(112u8);
    programs.push(114u8);
    programs.push(111u8);
    programs.push(103u8);
    programs.push(114u8);
    programs.push(97u8);
    programs.push(109u8);
    programs.push(115u8);
    proof {
        assert(app@ =~= app_word());
        assert(lam@ =~= lam_word());
        assert(programs@ =~= programs_word());
    }
    if children.len() == 0 {
        if let Some(v) = parse_i32(op) {
            return Some(Lambda::Var(v));
        }
        return Some(Lambda::Prim(symbol_from_str(op)));
    }
    if children.len() == 2 && is_word(b, &app) {
        return Some(Lambda::App(children[0], children[1]));
    }
    if children.len() == 1 && is_word(b, &lam) {
        return Some(Lambda::Lam(children[0]));
    }
    if is_word(b, &programs) {
        return Some(Lambda::Programs(children));
    }
    None
}

} // verus!
