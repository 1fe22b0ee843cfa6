//! The synthesizer: from the bytes to print to a program that prints them.
//!
//! The program keeps the byte printed last in the first cell and moves it to
//! the next byte. A distance of two or more is split into its prime factors,
//! and each factor becomes a counting loop in a cell of its own, one inside
//! the other; the innermost loop reaches back to the first cell and changes
//! it by one.

use vstd::prelude::*;
use vstd::arithmetic::div_mod::{
    lemma_div_is_strictly_smaller,
    lemma_fundamental_div_mod,
    lemma_mod_multiples_basic,
    lemma_mod_self_0,
    lemma_small_mod,
};
use super::command::Command;

verus! {

/// The prime factors of `n` that are left to find once every divisor below
/// `divisor` has been divided out, smallest first: trial division.
pub open spec fn factors_from(n: int, divisor: int) -> Seq<int>
    decreases n, n - divisor,
{
    if divisor < 2 || n < divisor {
        Seq::empty()
    } else if n % divisor == 0 {
        proof {
            lemma_div_is_strictly_smaller(n, divisor);
        }
        seq![divisor] + factors_from(n / divisor, divisor)
    } else {
        proof {
            lemma_mod_self_0(divisor);
        }
        factors_from(n, divisor + 1)
    }
}

/// The prime factors of `n`, smallest first, each as often as it divides
/// `n`; empty below two.
pub open spec fn prime_factors(n: int) -> Seq<int> {
    factors_from(n, 2)
}

/// The product of `factors`; one for none.
pub open spec fn product(factors: Seq<int>) -> int
    decreases factors.len(),
{
    if factors.len() == 0 {
        1
    } else {
        factors[0] * product(factors.skip(1))
    }
}

/// The numbers of `factors` as integers.
pub open spec fn integers(factors: Seq<i16>) -> Seq<int> {
    Seq::new(factors.len(), |i: int| factors[i] as int)
}

/// `count` times `command`.
pub open spec fn repeated(command: Command, count: int) -> Seq<Command> {
    Seq::new(
        if count > 0 {
            count as nat
        } else {
            0
        },
        |i: int| command,
    )
}

/// `command` carried out `n` cells to the left: `n` moves to the left, the
/// command, and `n` moves back.
pub open spec fn shifted(n: nat, command: Command) -> Seq<Command>
    decreases n,
{
    if n == 0 {
        seq![command]
    } else {
        seq![Command::DecrementPointer] + shifted((n - 1) as nat, command)
            + seq![Command::IncrementPointer]
    }
}

/// `command` carried out `n` cells to the left as often as the product of
/// `factors` says: one counting loop per factor, each in the next cell to
/// the right and around the loops of the factors after it.
pub open spec fn nested(n: nat, factors: Seq<int>, command: Command) -> Seq<Command>
    decreases factors.len(),
{
    if factors.len() == 0 {
        shifted(n, command)
    } else {
        seq![Command::IncrementPointer] + repeated(Command::Increment, factors[0])
            + seq![Command::JumpAhead] + nested(n, factors.skip(1), command)
            + seq![Command::Decrement, Command::JumpBack, Command::DecrementPointer]
    }
}

/// The commands that take the first cell from `previous` to `target`:
/// nothing for equal values, one command for a distance of one, and nested
/// loops over the prime factors of any larger distance.
pub open spec fn adjustment(previous: u8, target: u8) -> Seq<Command> {
    let command = if target > previous {
        Command::Increment
    } else {
        Command::Decrement
    };
    let distance = if target > previous {
        target - previous
    } else {
        previous - target
    };
    if distance >= 2 {
        nested(prime_factors(distance).len(), prime_factors(distance), command)
    } else if distance == 1 {
        seq![command]
    } else {
        Seq::empty()
    }
}

/// The program that prints `characters`: for each of them in turn, the
/// adjustment from the one before it (from zero for the first) and a write.
pub open spec fn synthesized(characters: Seq<u8>) -> Seq<Command>
    decreases characters.len(),
{
    if characters.len() == 0 {
        Seq::empty()
    } else {
        let before = characters.drop_last();
        let previous = if before.len() == 0 {
            0u8
        } else {
            before.last()
        };
        synthesized(before) + adjustment(previous, characters.last()) + seq![Command::Write]
    }
}

/// Whether no number from two up to `divisor` divides `n`.
pub open spec fn free_below(n: int, divisor: int) -> bool {
    forall|d: int| 2 <= d < divisor ==> #[trigger] (n % d) != 0
}

/// Dividing a number by a divisor of it leaves a number that is smaller,
/// not below one, and free of the divisors that the number was free of.
proof fn lemma_division_keeps_free(n: int, divisor: int)
    requires
        1 <= n,
        2 <= divisor,
        n % divisor == 0,
        free_below(n, divisor),
    ensures
        divisor <= n,
        1 <= n / divisor < n,
        free_below(n / divisor, divisor),
        factors_from(n, divisor) == seq![divisor] + factors_from(n / divisor, divisor),
{
    let q = n / divisor;
    lemma_fundamental_div_mod(n, divisor);
    if n < divisor {
        lemma_small_mod(n as nat, divisor as nat);
    }
    lemma_div_is_strictly_smaller(n, divisor);
    assert(1 <= q) by (nonlinear_arith)
        requires
            n == divisor * q,
            1 <= n,
            2 <= divisor,
    ;
    assert forall|d: int| 2 <= d < divisor implies #[trigger] (q % d) != 0 by {
        if q % d == 0 {
            lemma_fundamental_div_mod(q, d);
            let k = divisor * (q / d);
            assert(n == k * d) by (nonlinear_arith)
                requires
                    n == divisor * q,
                    q == d * (q / d),
                    k == divisor * (q / d),
            ;
            lemma_mod_multiples_basic(k, d);
            assert(n % d != 0);
        }
    }
}

/// Whether `n` is a prime number.
pub open spec fn is_prime(n: int) -> bool {
    2 <= n && free_below(n, n)
}

/// A divisor of `n` below which nothing divides `n` is prime.
proof fn lemma_least_divisor_is_prime(n: int, divisor: int)
    requires
        1 <= n,
        2 <= divisor,
        n % divisor == 0,
        free_below(n, divisor),
    ensures
        is_prime(divisor),
{
    lemma_fundamental_div_mod(n, divisor);
    assert forall|d: int| 2 <= d < divisor implies #[trigger] (divisor % d) != 0 by {
        if divisor % d == 0 {
            lemma_fundamental_div_mod(divisor, d);
            let k = (divisor / d) * (n / divisor);
            assert(n == k * d) by (nonlinear_arith)
                requires
                    n == divisor * (n / divisor),
                    divisor == d * (divisor / d),
                    k == (divisor / d) * (n / divisor),
            ;
            lemma_mod_multiples_basic(k, d);
            assert(n % d != 0);
        }
    }
}

/// What trial division finds: primes, none below the divisor it started
/// from and none smaller than the one before it, whose product is the number
/// that was left to divide.
pub proof fn lemma_factors_from(n: int, divisor: int)
    requires
        1 <= n,
        2 <= divisor,
        free_below(n, divisor),
    ensures
        product(factors_from(n, divisor)) == n,
        factors_from(n, divisor).len() < n,
        forall|i: int|
            0 <= i < factors_from(n, divisor).len() ==> divisor <= #[trigger] factors_from(
                n,
                divisor,
            )[i] <= n,
        forall|i: int|
            0 <= i < factors_from(n, divisor).len() ==> is_prime(
                #[trigger] factors_from(n, divisor)[i],
            ),
        forall|i: int, j: int|
            0 <= i <= j < factors_from(n, divisor).len() ==> factors_from(n, divisor)[i]
                <= factors_from(n, divisor)[j],
    decreases n, n - divisor,
{
    let found = factors_from(n, divisor);
    if n < divisor {
        if n >= 2 {
            lemma_mod_self_0(n);
            assert(n % n != 0);
        }
    } else if n % divisor == 0 {
        let left = n / divisor;
        let rest = factors_from(left, divisor);
        lemma_division_keeps_free(n, divisor);
        lemma_least_divisor_is_prime(n, divisor);
        lemma_fundamental_div_mod(n, divisor);
        lemma_factors_from(left, divisor);
        assert(found == seq![divisor] + rest);
        assert(found.skip(1) =~= rest);
        assert(product(found) == divisor * product(rest));
        assert(left + 1 <= n) by (nonlinear_arith)
            requires
                n == divisor * left,
                2 <= divisor,
                1 <= left,
        ;
        assert forall|i: int| 0 <= i < found.len() implies divisor <= #[trigger] found[i] <= n
            && is_prime(found[i]) by {
            if i > 0 {
                assert(found[i] == rest[i - 1]);
            }
        }
        assert forall|i: int, j: int| 0 <= i <= j < found.len() implies found[i] <= found[j] by {
            if i > 0 {
                assert(found[i] == rest[i - 1]);
                assert(found[j] == rest[j - 1]);
            } else if j > 0 {
                assert(found[j] == rest[j - 1]);
            }
        }
    } else {
        lemma_next_divisor(n, divisor);
        lemma_factors_from(n, divisor + 1);
    }
}

/// The prime factors of a number from two on are primes in ascending order
/// whose product is the number.
pub proof fn lemma_prime_factors(n: int)
    requires
        2 <= n,
    ensures
        product(prime_factors(n)) == n,
        0 < prime_factors(n).len() < n,
        forall|i: int|
            0 <= i < prime_factors(n).len() ==> is_prime(#[trigger] prime_factors(n)[i])
                && prime_factors(n)[i] <= n,
        forall|i: int, j: int|
            0 <= i <= j < prime_factors(n).len() ==> prime_factors(n)[i] <= prime_factors(n)[j],
{
    lemma_factors_from(n, 2);
    if prime_factors(n).len() == 0 {
        assert(product(prime_factors(n)) == 1);
    }
}

/// A number that its divisor does not divide leaves trial division the same
/// factors to find from the next divisor on.
proof fn lemma_next_divisor(n: int, divisor: int)
    requires
        1 <= n,
        2 <= divisor,
        n % divisor != 0,
        free_below(n, divisor),
    ensures
        free_below(n, divisor + 1),
        factors_from(n, divisor) == factors_from(n, divisor + 1),
{
}

/// The prime factors of `n`, smallest first, each as often as it divides
/// `n`; none for a number below two.
pub fn factors_of(n: i16) -> (factors: Vec<i16>)
    ensures
        integers(factors@) == prime_factors(n as int),
        n < 2 ==> factors@.len() == 0,
        n >= 2 ==> product(integers(factors@)) == n,
        forall|i: int| 0 <= i < factors@.len() ==> is_prime(#[trigger] factors@[i] as int),
        forall|i: int, j: int| 0 <= i <= j < factors@.len() ==> factors@[i] <= factors@[j],
{
    let mut factors: Vec<i16> = Vec::new();
    let mut left: i16 = n;
    let mut divisor: i16 = 2;
    if n < 2 {
        assert(integers(factors@) =~= prime_factors(n as int));
        return factors;
    }
    proof {
        lemma_prime_factors(n as int);
    }
    while divisor <= left
        invariant
            2 <= divisor,
            1 <= left <= n,
            free_below(left as int, divisor as int),
            prime_factors(n as int) == integers(factors@) + factors_from(
                left as int,
                divisor as int,
            ),
        decreases n - divisor + 1,
    {
        let ghost before = left;
        while left % divisor == 0
            invariant
                2 <= divisor,
                1 <= left <= before <= n,
                free_below(left as int, divisor as int),
                prime_factors(n as int) == integers(factors@) + factors_from(
                    left as int,
                    divisor as int,
                ),
            decreases left,
        {
            proof {
                lemma_division_keeps_free(left as int, divisor as int);
                assert(integers(factors@.push(divisor)) + factors_from(
                    left as int / divisor as int,
                    divisor as int,
                ) =~= integers(factors@) + (seq![divisor as int] + factors_from(
                    left as int / divisor as int,
                    divisor as int,
                )));
            }
            factors.push(divisor);
            left = left / divisor;
        }
        proof {
            lemma_next_divisor(left as int, divisor as int);
            if divisor == 32767 {
                assert(left as int % 7 != 0);
                assert(32767int % 7 == 0);
                lemma_small_mod(left as nat, 32767);
            }
        }
        divisor += 1;
    }
    proof {
        assert(integers(factors@) + Seq::<int>::empty() =~= integers(factors@));
        assert forall|i: int| 0 <= i < factors@.len() implies is_prime(
            #[trigger] factors@[i] as int,
        ) by {
            assert(integers(factors@)[i] == factors@[i]);
        }
        assert forall|i: int, j: int| 0 <= i <= j < factors@.len() implies factors@[i]
            <= factors@[j] by {
            assert(integers(factors@)[i] == factors@[i]);
            assert(integers(factors@)[j] == factors@[j]);
        }
    }
    factors
}

/// Appends to `program` the commands that carry `command` out `n` cells to
/// the left of the current cell and come back.
pub fn alter_to_left(n: usize, command: Command, program: &mut Vec<Command>)
    ensures
        final(program)@ == old(program)@ + shifted(n as nat, command),
    decreases n,
{
    if n == 0 {
        program.push(command);
        assert(program@ =~= old(program)@ + shifted(0, command));
    } else {
        program.push(Command::DecrementPointer);
        alter_to_left(n - 1, command, program);
        program.push(Command::IncrementPointer);
        assert(program@ =~= old(program)@ + shifted(n as nat, command));
    }
}

/// Appends to `program` the nested loops that carry `command` out `n` cells
/// to the left as often as the product of `factors` says.
pub fn change_to_character_by(
    n: usize,
    factors: &[i16],
    command: Command,
    program: &mut Vec<Command>,
)
    ensures
        final(program)@ == old(program)@ + nested(n as nat, integers(factors@), command),
    decreases factors@.len(),
{
    if factors.len() == 0 {
        alter_to_left(n, command, program);
    } else {
        program.push(Command::IncrementPointer);
        let ghost opened = program@;
        let mut factor: i16 = factors[0];
        while factor > 0
            invariant
                factors@.len() > 0,
                factor <= factors@[0],
                factors@[0] > 0 ==> 0 <= factor,
                factors@[0] <= 0 ==> factor == factors@[0],
                program@ == opened + repeated(Command::Increment, factors@[0] - factor),
            decreases factor,
        {
            program.push(Command::Increment);
            factor -= 1;
            proof {
                assert(program@ =~= opened + repeated(Command::Increment, factors@[0] - factor));
            }
        }
        proof {
            assert(repeated(Command::Increment, factors@[0] - factor) =~= repeated(
                Command::Increment,
                factors@[0] as int,
            ));
        }
        program.push(Command::JumpAhead);
        let rest = vstd::slice::slice_subrange(factors, 1, factors.len());
        change_to_character_by(n, rest, command, program);
        program.push(Command::Decrement);
        program.push(Command::JumpBack);
        program.push(Command::DecrementPointer);
        proof {
            assert(integers(rest@) =~= integers(factors@).skip(1));
            assert(program@ =~= old(program)@ + nested(n as nat, integers(factors@), command));
        }
    }
}

/// Synthesizes the program that prints `characters`.
pub fn program_from(characters: &[u8]) -> (program: Vec<Command>)
    ensures
        program@ == synthesized(characters@),
{
    let mut program: Vec<Command> = Vec::new();
    let mut index: usize = 0;
    let mut last_character: u8 = 0;
    while index < characters.len()
        invariant
            index <= characters@.len(),
            last_character == (if index == 0 {
                0u8
            } else {
                characters@[index - 1]
            }),
            program@ == synthesized(characters@.take(index as int)),
        decreases characters@.len() - index,
    {
        let ghost before = program@;
        let target = characters[index];
        let mut difference: i16 = target as i16 - last_character as i16;
        let command = if difference > 0 {
            Command::Increment
        } else {
            Command::Decrement
        };
        if difference < 0 {
            difference = -difference;
        }
        if difference >= 2 {
            let factors = factors_of(difference);
            change_to_character_by(factors.len(), factors.as_slice(), command, &mut program);
        } else if difference == 1 {
            program.push(command);
        }
        proof {
            assert(program@ =~= before + adjustment(last_character, target));
            assert(characters@.take(index + 1).drop_last() =~= characters@.take(index as int));
        }
        program.push(Command::Write);
        last_character = target;
        index += 1;
    }
    proof {
        assert(characters@.take(index as int) =~= characters@);
    }
    program
}

} // verus!
