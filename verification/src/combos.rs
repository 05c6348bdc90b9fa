//! Counting through every combination of values on a number of axes, and the
//! table of neighbor offsets that is made this way.
use crate::vecn::VecN;
use vstd::arithmetic::div_mod::{
    lemma_div_pos_is_pos, lemma_fundamental_div_mod, lemma_fundamental_div_mod_converse,
};
use vstd::arithmetic::power::{lemma_pow_increases, lemma_pow_positive, pow};
use vstd::prelude::*;

verus! {

/// Digit `i` of `n` written in base `radix`, least significant digit first.
pub open spec fn digit(n: nat, radix: nat, i: nat) -> nat
    decreases i,
{
    if i == 0 {
        n % radix
    } else {
        digit(n / radix, radix, (i - 1) as nat)
    }
}

/// How many values `min, min + step, .., max` one axis runs through.
pub open spec fn axis_count(min: int, max: int, step: int) -> nat {
    ((max - min) / step + 1) as nat
}

/// Combination number `n` of `dims` axes: axis `i` holds the value selected by
/// digit `i` of `n`, so axis 0 varies fastest.
pub open spec fn combo(n: nat, dims: nat, min: int, step: int, radix: nat) -> Seq<int> {
    Seq::new(dims, |i: int| min + step * digit(n, radix, i as nat))
}

/// Offset number `n` of the neighbor table in `dims` dimensions.
pub open spec fn neighbor_offset(n: nat, dims: nat) -> Seq<int> {
    combo(n, dims, -1, 1, 3)
}

/// Every digit is below the radix.
pub proof fn lemma_digit_bound(n: nat, radix: nat, i: nat)
    requires
        radix > 0,
    ensures
        digit(n, radix, i) < radix,
    decreases i,
{
    if i > 0 {
        lemma_digit_bound(n / radix, radix, (i - 1) as nat);
    }
}

/// A power is the base times the next lower power.
proof fn lemma_pow_step(b: int, e: nat)
    requires
        e > 0,
    ensures
        pow(b, e) == b * pow(b, (e - 1) as nat),
{
    reveal(pow);
}

/// The power with exponent zero is one.
proof fn lemma_pow_zero(b: int)
    ensures
        pow(b, 0) == 1,
{
    reveal(pow);
}

/// Splits `n + 1` by `radix` when the lowest digit of `n` does not carry.
proof fn lemma_succ_no_carry(n: nat, radix: nat)
    requires
        radix > 0,
        n % radix + 1 < radix,
    ensures
        (n + 1) / radix == n / radix,
        (n + 1) % radix == n % radix + 1,
{
    lemma_fundamental_div_mod(n as int, radix as int);
    assert(n as int + 1 == ((n / radix) as int) * (radix as int) + ((n % radix) as int + 1))
        by (nonlinear_arith)
        requires
            n as int == (radix as int) * ((n / radix) as int) + (n % radix) as int,
    ;
    lemma_fundamental_div_mod_converse(
        n as int + 1,
        radix as int,
        (n / radix) as int,
        (n % radix) as int + 1,
    );
}

/// Splits `n + 1` by `radix` when the lowest digit of `n` carries.
proof fn lemma_succ_carry(n: nat, radix: nat)
    requires
        radix > 0,
        n % radix + 1 == radix,
    ensures
        (n + 1) / radix == n / radix + 1,
        (n + 1) % radix == 0,
{
    lemma_fundamental_div_mod(n as int, radix as int);
    assert(n as int + 1 == ((n / radix) as int + 1) * (radix as int) + 0) by (nonlinear_arith)
        requires
            n as int == (radix as int) * ((n / radix) as int) + (n % radix) as int,
            n % radix + 1 == radix,
    ;
    lemma_fundamental_div_mod_converse(n as int + 1, radix as int, (n / radix) as int + 1, 0);
}

/// Counting up by one: the digits below the first one that is not `radix - 1`
/// fall back to zero, that one grows by one, and the digits above it stay.
pub proof fn lemma_succ_digits(n: nat, radix: nat, i: nat)
    requires
        radix > 0,
        forall|j: nat| j < i ==> #[trigger] digit(n, radix, j) == radix - 1,
        digit(n, radix, i) + 1 < radix,
    ensures
        forall|j: nat| j < i ==> #[trigger] digit(n + 1, radix, j) == 0,
        digit(n + 1, radix, i) == digit(n, radix, i) + 1,
        forall|j: nat| j > i ==> #[trigger] digit(n + 1, radix, j) == digit(n, radix, j),
    decreases i,
{
    let q: nat = n / radix;
    if i == 0 {
        lemma_succ_no_carry(n, radix);
        assert forall|j: nat| j > i implies #[trigger] digit(n + 1, radix, j) == digit(
            n,
            radix,
            j,
        ) by {
            assert(digit(n + 1, radix, j) == digit(q, radix, (j - 1) as nat));
        }
    } else {
        assert(digit(n, radix, 0) == radix - 1);
        lemma_succ_carry(n, radix);
        assert forall|j: nat| j < i - 1 implies #[trigger] digit(q, radix, j) == radix - 1 by {
            assert(digit(n, radix, j + 1) == digit(q, radix, j));
        }
        assert(digit(n, radix, i) == digit(q, radix, (i - 1) as nat));
        lemma_succ_digits(q, radix, (i - 1) as nat);
        assert forall|j: nat| j < i implies #[trigger] digit(n + 1, radix, j) == 0 by {
            if j > 0 {
                assert(digit(n + 1, radix, j) == digit(q + 1, radix, (j - 1) as nat));
            }
        }
        assert(digit(n + 1, radix, i) == digit(q + 1, radix, (i - 1) as nat));
        assert forall|j: nat| j > i implies #[trigger] digit(n + 1, radix, j) == digit(
            n,
            radix,
            j,
        ) by {
            assert(digit(n + 1, radix, j) == digit(q + 1, radix, (j - 1) as nat));
            assert(digit(n, radix, j) == digit(q, radix, (j - 1) as nat));
        }
    }
}

/// The largest number of `dims` digits has every digit equal to `radix - 1`.
pub proof fn lemma_last_digits(radix: nat, dims: nat, i: nat)
    requires
        radix > 0,
        i < dims,
    ensures
        pow(radix as int, dims) >= 1,
        digit((pow(radix as int, dims) - 1) as nat, radix, i) == radix - 1,
    decreases dims,
{
    let lower = pow(radix as int, (dims - 1) as nat);
    lemma_pow_positive(radix as int, dims);
    lemma_pow_positive(radix as int, (dims - 1) as nat);
    lemma_pow_step(radix as int, dims);
    let n = (pow(radix as int, dims) - 1) as nat;
    assert(n as int == (lower - 1) * (radix as int) + (radix - 1)) by (nonlinear_arith)
        requires
            n as int == (radix as int) * lower - 1,
    ;
    lemma_fundamental_div_mod_converse(n as int, radix as int, lower - 1, radix - 1);
    if i > 0 {
        lemma_last_digits(radix, (dims - 1) as nat, (i - 1) as nat);
    }
}

/// A number below `radix^dims` whose digits all equal `radix - 1` is the
/// largest such number.
pub proof fn lemma_all_digits_last(n: nat, radix: nat, dims: nat)
    requires
        radix > 0,
        n < pow(radix as int, dims),
        forall|j: nat| j < dims ==> #[trigger] digit(n, radix, j) == radix - 1,
    ensures
        n == pow(radix as int, dims) - 1,
    decreases dims,
{
    if dims == 0 {
        lemma_pow_zero(radix as int);
    } else {
        let lower = pow(radix as int, (dims - 1) as nat);
        let q: nat = n / radix;
        lemma_pow_step(radix as int, dims);
        lemma_fundamental_div_mod(n as int, radix as int);
        assert(digit(n, radix, 0) == radix - 1);
        assert(q < lower) by (nonlinear_arith)
            requires
                n as int == (radix as int) * (q as int) + (n % radix) as int,
                n < (radix as int) * lower,
                radix > 0,
        ;
        assert forall|j: nat| j < dims - 1 implies #[trigger] digit(q, radix, j) == radix - 1 by {
            assert(digit(n, radix, j + 1) == digit(q, radix, j));
        }
        lemma_all_digits_last(q, radix, (dims - 1) as nat);
        assert(n == (radix as int) * lower - 1) by (nonlinear_arith)
            requires
                n as int == (radix as int) * (q as int) + (radix - 1),
                q == lower - 1,
        ;
    }
}

/// The number whose digits in base `radix` are `digits`, least significant
/// digit first.
pub open spec fn number_of(digits: Seq<nat>, radix: nat) -> nat
    decreases digits.len(),
{
    if digits.len() == 0 {
        0
    } else {
        digits[0] + radix * number_of(digits.drop_first(), radix)
    }
}

/// Every sequence of digits is the digits of a number below `radix^len`.
pub proof fn lemma_number_of(digits: Seq<nat>, radix: nat)
    requires
        radix > 0,
        forall|i: int| 0 <= i < digits.len() ==> #[trigger] digits[i] < radix,
    ensures
        number_of(digits, radix) < pow(radix as int, digits.len()),
        forall|i: nat|
            i < digits.len() ==> #[trigger] digit(number_of(digits, radix), radix, i)
                == digits[i as int],
    decreases digits.len(),
{
    if digits.len() == 0 {
        lemma_pow_zero(radix as int);
    } else {
        let rest = digits.drop_first();
        let high = number_of(rest, radix);
        let n = number_of(digits, radix);
        let lower = pow(radix as int, rest.len());
        assert forall|i: int| 0 <= i < rest.len() implies #[trigger] rest[i] < radix by {
            assert(rest[i] == digits[i + 1]);
        }
        lemma_number_of(rest, radix);
        lemma_pow_step(radix as int, digits.len());
        assert(digits[0] < radix);
        assert(n as int == (high as int) * (radix as int) + digits[0] as int) by (nonlinear_arith)
            requires
                n == digits[0] + radix * high,
        ;
        lemma_fundamental_div_mod_converse(n as int, radix as int, high as int, digits[0] as int);
        assert(n < (radix as int) * lower) by (nonlinear_arith)
            requires
                n == digits[0] + radix * high,
                digits[0] < radix,
                high < lower,
        ;
        assert forall|i: nat| i < digits.len() implies #[trigger] digit(n, radix, i)
            == digits[i as int] by {
            if i > 0 {
                assert(digit(n, radix, i) == digit(high, radix, (i - 1) as nat));
                assert(rest[i - 1] == digits[i as int]);
            }
        }
    }
}

/// Numbers below `radix^dims` with the same digits are the same number.
pub proof fn lemma_digits_determine(n: nat, m: nat, radix: nat, dims: nat)
    requires
        radix > 0,
        n < pow(radix as int, dims),
        m < pow(radix as int, dims),
        forall|i: nat| i < dims ==> #[trigger] digit(n, radix, i) == digit(m, radix, i),
    ensures
        n == m,
    decreases dims,
{
    if dims == 0 {
        lemma_pow_zero(radix as int);
    } else {
        let lower = pow(radix as int, (dims - 1) as nat);
        let qn: nat = n / radix;
        let qm: nat = m / radix;
        lemma_pow_step(radix as int, dims);
        lemma_fundamental_div_mod(n as int, radix as int);
        lemma_fundamental_div_mod(m as int, radix as int);
        assert(digit(n, radix, 0) == digit(m, radix, 0));
        assert(qn < lower && qm < lower) by (nonlinear_arith)
            requires
                n as int == (radix as int) * (qn as int) + (n % radix) as int,
                m as int == (radix as int) * (qm as int) + (m % radix) as int,
                n < (radix as int) * lower,
                m < (radix as int) * lower,
                radix > 0,
        ;
        assert forall|i: nat| i < dims - 1 implies #[trigger] digit(qn, radix, i) == digit(
            qm,
            radix,
            i,
        ) by {
            assert(digit(n, radix, i + 1) == digit(qn, radix, i));
            assert(digit(m, radix, i + 1) == digit(qm, radix, i));
        }
        lemma_digits_determine(qn, qm, radix, (dims - 1) as nat);
    }
}

/// No offset stands twice in the table of neighbor offsets.
pub proof fn lemma_offsets_distinct(n: nat, m: nat, dims: nat)
    requires
        n < pow(3, dims),
        m < pow(3, dims),
        neighbor_offset(n, dims) == neighbor_offset(m, dims),
    ensures
        n == m,
{
    assert forall|i: nat| i < dims implies #[trigger] digit(n, 3, i) == digit(m, 3, i) by {
        assert(neighbor_offset(n, dims)[i as int] == -1 + 1 * digit(n, 3, i));
        assert(neighbor_offset(m, dims)[i as int] == -1 + 1 * digit(m, 3, i));
    }
    lemma_digits_determine(n, m, 3, dims);
}

/// Every vector of `dims` components in `{-1, 0, 1}` is in the table of
/// neighbor offsets.
pub proof fn lemma_offset_listed(offset: Seq<int>, dims: nat) -> (n: nat)
    requires
        offset.len() == dims,
        forall|i: int| 0 <= i < dims ==> -1 <= #[trigger] offset[i] <= 1,
    ensures
        n < pow(3, dims),
        neighbor_offset(n, dims) == offset,
{
    let digits = Seq::new(dims, |i: int| (offset[i] + 1) as nat);
    lemma_number_of(digits, 3);
    let n = number_of(digits, 3);
    assert forall|i: int| 0 <= i < dims implies neighbor_offset(n, dims)[i] == offset[i] by {
        assert(digit(n, 3, i as nat) == digits[i]);
    }
    assert(neighbor_offset(n, dims) =~= offset);
    n
}

/// Every entry of the table of neighbor offsets has `dims` components, each
/// of them in `{-1, 0, 1}`.
pub proof fn lemma_offset_range(n: nat, dims: nat)
    ensures
        neighbor_offset(n, dims).len() == dims,
        forall|i: int| 0 <= i < dims ==> -1 <= #[trigger] neighbor_offset(n, dims)[i] <= 1,
{
    assert forall|i: int| 0 <= i < dims implies -1 <= #[trigger] neighbor_offset(n, dims)[i]
        <= 1 by {
        lemma_digit_bound(n, 3, i as nat);
    }
}

/// All digits of zero are zero.
proof fn lemma_zero_digits(radix: nat, i: nat)
    requires
        radix > 0,
    ensures
        digit(0, radix, i) == 0,
    decreases i,
{
    if i > 0 {
        assert(0nat / radix == 0) by (nonlinear_arith)
            requires
                radix > 0,
        ;
        lemma_zero_digits(radix, (i - 1) as nat);
    }
}

/// What `min`, `max` and `step` say of the number of values on one axis.
proof fn lemma_axis_count(min: int, max: int, step: int)
    requires
        step > 0,
        min <= max,
        (max - min) % step == 0,
    ensures
        axis_count(min, max, step) >= 1,
        max == min + step * (axis_count(min, max, step) - 1),
{
    lemma_fundamental_div_mod(max - min, step);
    lemma_div_pos_is_pos(max - min, step);
}

/// Every combination of the values `min, min + step, .., max` on `D` axes, in
/// counting order with axis 0 varying fastest.
pub fn combos<const D: usize>(min: i32, max: i32, step: i32) -> (out: Vec<VecN<D, i32>>)
    requires
        step > 0,
        min <= max,
        (max - min) % (step as int) == 0,
        pow(axis_count(min as int, max as int, step as int) as int, D as nat) <= usize::MAX,
    ensures
        out@.len() == pow(axis_count(min as int, max as int, step as int) as int, D as nat),
        forall|n: int|
            0 <= n < out@.len() ==> (#[trigger] out@[n]).coords() == combo(
                n as nat,
                D as nat,
                min as int,
                step as int,
                axis_count(min as int, max as int, step as int),
            ),
{
    let ghost radix = axis_count(min as int, max as int, step as int);
    let ghost total = pow(radix as int, D as nat);
    let mut dims: VecN<D, i32> = VecN([min;D]);
    let mut out: Vec<VecN<D, i32>> = Vec::new();
    let mut done = false;
    proof {
        lemma_axis_count(min as int, max as int, step as int);
        lemma_pow_positive(radix as int, D as nat);
        assert forall|j: int| 0 <= j < D implies dims.coords()[j] == combo(
            0,
            D as nat,
            min as int,
            step as int,
            radix,
        )[j] by {
            lemma_zero_digits(radix, j as nat);
        }
        assert(dims.coords() =~= combo(0, D as nat, min as int, step as int, radix));
    }
    while !done
        invariant
            step > 0,
            radix >= 1,
            max == min + step * (radix - 1),
            total == pow(radix as int, D as nat),
            total <= usize::MAX,
            out@.len() <= total,
            done ==> out@.len() == total,
            !done ==> out@.len() < total && dims.coords() == combo(
                out@.len(),
                D as nat,
                min as int,
                step as int,
                radix,
            ),
            forall|n: int|
                0 <= n < out@.len() ==> (#[trigger] out@[n]).coords() == combo(
                    n as nat,
                    D as nat,
                    min as int,
                    step as int,
                    radix,
                ),
        decreases total - out@.len() + (if done { 0int } else { 1int }),
    {
        let ghost n = out@.len();
        let ghost before = dims;
        out.push(dims);
        let mut i: usize = 0;
        let mut carry = true;
        while carry && i < D
            invariant
                i <= D,
                step > 0,
                radix >= 1,
                max == min + step * (radix - 1),
                before.coords() == combo(n, D as nat, min as int, step as int, radix),
                forall|j: nat| j < i ==> #[trigger] digit(n, radix, j) == radix - 1,
                forall|j: int| 0 <= j < i ==> #[trigger] dims.0[j] == min,
                carry ==> forall|j: int| i <= j < D ==> #[trigger] dims.0[j] == before.0[j],
                !carry ==> i < D && digit(n, radix, i as nat) + 1 < radix && dims.0[i as int]
                    == before.0[i as int] + step && forall|j: int|
                    i < j < D ==> #[trigger] dims.0[j] == before.0[j],
            decreases D - i + (if carry { 1int } else { 0int }),
        {
            proof {
                let d = digit(n, radix, i as nat);
                lemma_digit_bound(n, radix, i as nat);
                assert(before.coords()[i as int] == min + step * d);
                assert(dims.0[i as int] < max ==> d + 1 < radix) by (nonlinear_arith)
                    requires
                        dims.0[i as int] == min + step * d,
                        max == min + step * (radix - 1),
                        step > 0,
                ;
                assert(dims.0[i as int] >= max ==> d == radix - 1) by (nonlinear_arith)
                    requires
                        dims.0[i as int] == min + step * d,
                        max == min + step * (radix - 1),
                        step > 0,
                        d < radix,
                ;
                assert(d + 1 < radix ==> dims.0[i as int] + step <= max) by (nonlinear_arith)
                    requires
                        dims.0[i as int] == min + step * d,
                        max == min + step * (radix - 1),
                        step > 0,
                ;
            }
            if dims.0[i] < max {
                dims.0[i] = dims.0[i] + step;
                carry = false;
            } else {
                dims.0[i] = min;
                i += 1;
            }
        }
        if carry {
            done = true;
            proof {
                lemma_all_digits_last(n, radix, D as nat);
            }
        } else {
            proof {
                lemma_succ_digits(n, radix, i as nat);
                if n + 1 >= total {
                    lemma_last_digits(radix, D as nat, i as nat);
                }
                assert forall|j: int| 0 <= j < D implies dims.coords()[j] == combo(
                    n + 1,
                    D as nat,
                    min as int,
                    step as int,
                    radix,
                )[j] by {
                    let d = digit(n, radix, j as nat);
                    assert(before.coords()[j] == min + step * d);
                    if j < i {
                        assert(digit(n + 1, radix, j as nat) == 0);
                    } else if j == i {
                        assert(min + step * d + step == min + step * (d + 1))
                            by (nonlinear_arith);
                    } else {
                        assert(digit(n + 1, radix, j as nat) == d);
                    }
                }
                assert(dims.coords() =~= combo(n + 1, D as nat, min as int, step as int, radix));
            }
        }
    }
    out
}

/// In up to twenty dimensions the table of neighbor offsets fits in memory
/// on every machine.
pub proof fn lemma_table_fits(dims: nat)
    requires
        dims <= 20,
    ensures
        pow(3, dims) <= usize::MAX,
{
    lemma_pow_increases(3, dims, 20);
    reveal_with_fuel(pow, 21);
    assert(pow(3, 20) == 3486784401);
}

/// The offsets of a cell and of all its neighbors: every vector of `D`
/// components in `{-1, 0, 1}`, each exactly once.
pub fn neighborhood<const D: usize>() -> (out: Vec<VecN<D, i32>>)
    requires
        pow(3, D as nat) <= usize::MAX,
    ensures
        out@.len() == pow(3, D as nat),
        forall|n: int|
            0 <= n < out@.len() ==> (#[trigger] out@[n]).coords() == neighbor_offset(
                n as nat,
                D as nat,
            ),
        forall|n: int, i: int|
            0 <= n < out@.len() && 0 <= i < D ==> -1 <= #[trigger] out@[n].0[i] <= 1,
{
    let out = combos(-1, 1, 1);
    proof {
        assert forall|n: int, i: int| 0 <= n < out@.len() && 0 <= i < D implies -1
            <= #[trigger] out@[n].0[i] <= 1 by {
            lemma_offset_range(n as nat, D as nat);
            assert(out@[n].coords()[i] == out@[n].0[i]);
        }
    }
    out
}

} // verus!
