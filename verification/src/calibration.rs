//! Calibration: whether a total can be made from a list of numbers by putting
//! an operator between each two neighbours, evaluated from left to right.

use vstd::prelude::*;

verus! {

/// Ten to the power of `k`.
pub open spec fn ten_to(k: nat) -> int
    decreases k,
{
    if k == 0 {
        1
    } else {
        10 * ten_to((k - 1) as nat)
    }
}

/// The number of decimal digits of `n`, which is not negative.
pub open spec fn digits_of(n: int) -> nat
    decreases n,
{
    if n < 10 {
        1
    } else {
        1 + digits_of(n / 10)
    }
}

/// The number whose decimal digits are those of `a` followed by those of
/// `b`, where `b` is not negative: with a negative `a` the digits stand
/// behind the sign.
pub open spec fn concat_value(a: int, b: int) -> int {
    if a >= 0 {
        a * ten_to(digits_of(b)) + b
    } else {
        a * ten_to(digits_of(b)) - b
    }
}

/// What the operator with the number `op` makes of `acc` and `x`: their sum,
/// their product, or their digits put together.
pub open spec fn apply(op: int, acc: int, x: int) -> int {
    if op == 0 {
        acc + x
    } else if op == 1 {
        acc * x
    } else {
        concat_value(acc, x)
    }
}

/// `ops` is a list of operators.
pub open spec fn is_ops(ops: Seq<int>) -> bool {
    forall|i: int| 0 <= i < ops.len() ==> 0 <= #[trigger] ops[i] <= 2
}

/// The value of the first numbers of `data` with the operators `ops` between
/// them, evaluated from left to right.
pub open spec fn eval(data: Seq<i64>, ops: Seq<int>) -> int
    decreases ops.len(),
{
    if ops.len() == 0 {
        data[0] as int
    } else {
        apply(ops.last(), eval(data, ops.drop_last()), data[ops.len() as int] as int)
    }
}

/// Some choice of operators between the numbers of `data` gives `total`.
pub open spec fn is_possible(data: Seq<i64>, total: i64) -> bool {
    data.len() >= 1 && exists|ops: Seq<int>|
        is_ops(ops) && ops.len() == data.len() - 1 && #[trigger] eval(data, ops) == total
}

/// No number but the first is negative, and whatever operators stand
/// between the first numbers, the value fits in an `i64`.
pub open spec fn values_fit(data: Seq<i64>) -> bool {
    &&& forall|i: int| 1 <= i < data.len() ==> #[trigger] data[i] >= 0
    &&& forall|ops: Seq<int>|
        is_ops(ops) && ops.len() < data.len() ==> i64::MIN <= #[trigger] eval(data, ops) <= i64::MAX
}

/// The digits of `a` followed by those of `b`, as a number.
fn concat(a: i64, b: i64) -> (joined: i64)
    requires
        b >= 0,
        i64::MIN <= concat_value(a as int, b as int) <= i64::MAX,
    ensures
        joined == concat_value(a as int, b as int),
{
    checked_concat(a, b).unwrap()
}

/// Whether the operators chosen so far, which give `acc`, can be followed by
/// others so that the whole gives `total`.
fn search(data: &Vec<i64>, total: i64, k: usize, acc: i64, Ghost(done): Ghost<Seq<int>>) -> (found: bool)
    requires
        data.len() >= 1,
        values_fit(data@),
        k < data.len(),
        is_ops(done),
        done.len() == k,
        acc == eval(data@, done),
    ensures
        found == exists|ops: Seq<int>|
            is_ops(ops) && ops.len() == data.len() - 1 && ops.take(k as int) == done && #[trigger] eval(
                data@,
                ops,
            ) == total,
    decreases data.len() - k,
{
    if k == data.len() - 1 {
        proof {
            if acc == total {
                assert(done.take(k as int) =~= done);
            }
            assert forall|ops: Seq<int>|
                is_ops(ops) && ops.len() == data.len() - 1 && ops.take(k as int) == done implies ops
                == done by {
                assert(ops.take(k as int) =~= ops);
            }
        }
        return acc == total;
    }
    let next = data[k + 1];
    let ghost plus = done.push(0int);
    let ghost times = done.push(1int);
    let ghost joined = done.push(2int);
    proof {
        assert(plus.drop_last() =~= done);
        assert(times.drop_last() =~= done);
        assert(joined.drop_last() =~= done);
        assert(is_ops(plus) && is_ops(times) && is_ops(joined));
        assert(eval(data@, plus) == acc + next);
        assert(eval(data@, times) == acc * next);
        assert(eval(data@, joined) == concat_value(acc as int, next as int));
        assert forall|ops: Seq<int>|
            is_ops(ops) && ops.len() == data.len() - 1 && ops.take(k as int) == done implies (ops.take(
                k as int + 1,
            ) == plus || ops.take(k as int + 1) == times || ops.take(k as int + 1) == joined) by {
            let op = ops[k as int];
            assert(ops.take(k as int + 1) =~= ops.take(k as int).push(op));
        }
        assert forall|ops: Seq<int>|
            ops.len() == data.len() - 1 && (ops.take(k as int + 1) == plus || ops.take(k as int + 1)
                == times || ops.take(k as int + 1) == joined) implies ops.take(k as int) == done by {
            assert(ops.take(k as int) =~= ops.take(k as int + 1).take(k as int));
            assert(plus.take(k as int) =~= done);
            assert(times.take(k as int) =~= done);
            assert(joined.take(k as int) =~= done);
        }
    }
    if search(data, total, k + 1, acc + next, Ghost(plus)) {
        return true;
    }
    if search(data, total, k + 1, acc * next, Ghost(times)) {
        return true;
    }
    search(data, total, k + 1, concat(acc, next), Ghost(joined))
}

/// Whether `total` can be made from the numbers of `data` by putting between
/// each two neighbours a plus sign, a times sign, or nothing, so that their
/// digits run together, and evaluating from left to right.
pub fn get_is_product_possible(data: &Vec<i64>, total: i64) -> (possible: bool)
    requires
        values_fit(data@),
    ensures
        possible == is_possible(data@, total),
{
    if data.len() == 0 {
        return false;
    }
    let ghost none = Seq::<int>::empty();
    let found = search(data, total, 0, data[0], Ghost(none));
    proof {
        assert forall|ops: Seq<int>| ops.take(0) == none by {
            assert(ops.take(0) =~= none);
        }
    }
    found
}

/// The digits of `a` followed by those of `b`, where that number fits in an `i64`.
fn checked_concat(a: i64, b: i64) -> (joined: Option<i64>)
    requires
        b >= 0,
    ensures
        joined is Some <==> i64::MIN <= concat_value(a as int, b as int) <= i64::MAX,
        joined matches Some(v) ==> v == concat_value(a as int, b as int),
{
    let mut power: i128 = 10;
    let mut rest: i64 = b;
    while rest >= 10
        invariant
            0 <= rest <= b,
            10 <= power,
            power * rest <= 10 * b,
            ten_to(digits_of(b as int)) == power * ten_to((digits_of(rest as int) - 1) as nat),
        decreases rest,
    {
        proof {
            let r = rest as int;
            let p = power as int;
            assert(digits_of(r) == 1 + digits_of(r / 10));
            assert(ten_to((digits_of(r) - 1) as nat) == 10 * ten_to((digits_of(r / 10) - 1) as nat));
            assert(p * (10 * ten_to((digits_of(r / 10) - 1) as nat)) == (p * 10) * ten_to(
                (digits_of(r / 10) - 1) as nat,
            )) by (nonlinear_arith);
            assert((p * 10) * (r / 10) <= p * r) by (nonlinear_arith)
                requires
                    p >= 0,
                    r >= 0,
            ;
            assert(p * 10 <= p * r) by (nonlinear_arith)
                requires
                    p >= 0,
                    r >= 10,
            ;
        }
        rest = rest / 10;
        power = power * 10;
    }
    proof {
        assert(digits_of(rest as int) == 1);
        assert(ten_to(0) == 1);
        assert(power * 1 == power) by (nonlinear_arith);
    }
    let ghost p = power as int;
    if a == 0 {
        assert(0 * p == 0) by (nonlinear_arith);
        return Some(b);
    }
    if power >= 10_000_000_000_000_000_000 {
        proof {
            if a > 0 {
                assert(a * p >= p) by (nonlinear_arith)
                    requires
                        a >= 1,
                        p >= 0,
                ;
            } else {
                assert(a * p <= -p) by (nonlinear_arith)
                    requires
                        a <= -1,
                        p >= 0,
                ;
            }
        }
        return None;
    }
    proof {
        assert(-0x8000_0000_0000_0000 * 10_000_000_000_000_000_000 <= a * p <= 0x8000_0000_0000_0000
            * 10_000_000_000_000_000_000) by (nonlinear_arith)
            requires
                -0x8000_0000_0000_0000 <= a <= 0x8000_0000_0000_0000,
                0 <= p <= 10_000_000_000_000_000_000,
        ;
    }
    let shifted: i128 = a as i128 * power;
    let joined: i128 = if a >= 0 {
        shifted + b as i128
    } else {
        shifted - b as i128
    };
    if joined < i64::MIN as i128 || joined > i64::MAX as i128 {
        None
    } else {
        Some(joined as i64)
    }
}

/// Whether the operators chosen so far can be followed by others so that the
/// whole gives `total`, and whether every value on every way fits in an `i64`.
fn checked_search(data: &Vec<i64>, total: i64, k: usize, acc: i64, Ghost(done): Ghost<Seq<int>>) -> (r: (
    bool,
    bool,
))
    requires
        data.len() >= 1,
        forall|i: int| 1 <= i < data.len() ==> #[trigger] data@[i] >= 0,
        k < data.len(),
        is_ops(done),
        done.len() == k,
        acc == eval(data@, done),
    ensures
        r.0 == forall|ops: Seq<int>|
            is_ops(ops) && k <= ops.len() < data.len() && ops.take(k as int) == done ==> i64::MIN
                <= #[trigger] eval(data@, ops) <= i64::MAX,
        r.0 ==> r.1 == exists|ops: Seq<int>|
            is_ops(ops) && ops.len() == data.len() - 1 && ops.take(k as int) == done && #[trigger] eval(
                data@,
                ops,
            ) == total,
    decreases data.len() - k,
{
    proof {
        assert(done.take(k as int) =~= done);
    }
    if k == data.len() - 1 {
        proof {
            assert forall|ops: Seq<int>|
                is_ops(ops) && k <= ops.len() < data.len() && ops.take(k as int) == done implies ops
                == done by {
                assert(ops.take(k as int) =~= ops);
            }
        }
        return (true, acc == total);
    }
    let next = data[k + 1];
    let ghost plus = done.push(0int);
    let ghost times = done.push(1int);
    let ghost joined = done.push(2int);
    proof {
        assert(plus.drop_last() =~= done);
        assert(times.drop_last() =~= done);
        assert(joined.drop_last() =~= done);
        assert(is_ops(plus) && is_ops(times) && is_ops(joined));
        assert(eval(data@, plus) == acc + next);
        assert(eval(data@, times) == acc * next);
        assert(eval(data@, joined) == concat_value(acc as int, next as int));
        assert(plus.take(k as int + 1) =~= plus);
        assert(times.take(k as int + 1) =~= times);
        assert(joined.take(k as int + 1) =~= joined);
        assert(plus.take(k as int) =~= done);
        assert(times.take(k as int) =~= done);
        assert(joined.take(k as int) =~= done);
        assert forall|ops: Seq<int>|
            is_ops(ops) && k < ops.len() < data.len() && ops.take(k as int) == done implies (ops.take(
                k as int + 1,
            ) == plus || ops.take(k as int + 1) == times || ops.take(k as int + 1) == joined) by {
            let op = ops[k as int];
            assert(ops.take(k as int + 1) =~= ops.take(k as int).push(op));
        }
        assert forall|ops: Seq<int>|
            k < ops.len() && (ops.take(k as int + 1) == plus || ops.take(k as int + 1) == times
                || ops.take(k as int + 1) == joined) implies ops.take(k as int) == done by {
            assert(ops.take(k as int) =~= ops.take(k as int + 1).take(k as int));
        }
        assert forall|ops: Seq<int>|
            is_ops(ops) && k <= ops.len() < data.len() && ops.take(k as int) == done && ops.len()
                == k implies ops == done by {
            assert(ops.take(k as int) =~= ops);
        }
    }
    let sum = match acc.checked_add(next) {
        Some(v) => v,
        None => {
            return (false, false);
        },
    };
    let product = match acc.checked_mul(next) {
        Some(v) => v,
        None => {
            return (false, false);
        },
    };
    let concat = match checked_concat(acc, next) {
        Some(v) => v,
        None => {
            return (false, false);
        },
    };
    let first = checked_search(data, total, k + 1, sum, Ghost(plus));
    if !first.0 {
        return (false, false);
    }
    let second = checked_search(data, total, k + 1, product, Ghost(times));
    if !second.0 {
        return (false, false);
    }
    let third = checked_search(data, total, k + 1, concat, Ghost(joined));
    if !third.0 {
        return (false, false);
    }
    (true, first.1 || second.1 || third.1)
}

/// Whether `total` can be made from the numbers of `data`, as
/// `get_is_product_possible` says, or `None` where a number behind the first
/// is negative or a value on some way does not fit in an `i64`.
pub fn try_is_product_possible(data: &Vec<i64>, total: i64) -> (possible: Option<bool>)
    ensures
        values_fit(data@) ==> possible is Some,
        possible matches Some(b) ==> values_fit(data@) && b == is_possible(data@, total),
{
    if data.len() == 0 {
        return Some(false);
    }
    let mut i: usize = 1;
    while i < data.len()
        invariant
            1 <= i <= data.len(),
            forall|j: int| 1 <= j < i ==> #[trigger] data@[j] >= 0,
        decreases data.len() - i,
    {
        if data[i] < 0 {
            return None;
        }
        i += 1;
    }
    let ghost none = Seq::<int>::empty();
    let r = checked_search(data, total, 0, data[0], Ghost(none));
    proof {
        assert forall|ops: Seq<int>| ops.take(0) == none by {
            assert(ops.take(0) =~= none);
        }
    }
    if r.0 {
        Some(r.1)
    } else {
        None
    }
}

} // verus!
