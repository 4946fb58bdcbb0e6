//! Every universal code can be read back: the reader of a code finds, at
//! the start of a stream of bits, the number whose word stands there, and
//! leaves the bits that follow the word.
use vstd::prelude::*;
use vstd::arithmetic::power2::{pow2, lemma_pow2_unfold, lemma_pow2_pos, lemma2_to64};
use vstd::arithmetic::div_mod::{lemma_div_denominator, lemma_fundamental_div_mod};
use crate::bits::zeros;
use crate::lzw::MAX_DICT_SIZE;
use crate::lzw::universal_coder::{
    FibonacciCoder,
    UniversalCoder,
    fib,
    fibonacci_digits,
    fibonacci_limit,
    fibonacci_top,
    fibonacci_word,
    lemma_fib_monotonic,
    lemma_fibonacci_top,
    binary,
    bit_length,
    delta_word,
    digit,
    gamma_word,
    omega_groups,
    omega_word,
    lemma_bit_length,
    lemma_length_bound,
};
use crate::lzw::universal_decoder::{
    fibonacci_parse,
    fibonacci_parse_from,
    Parsed,
    delta_parse,
    gamma_parse,
    omega_parse,
    omega_parse_from,
    read_digits,
    read_zeros,
};

verus! {

/// A number shifted down by one binary digit less is twice the number
/// shifted down, plus the digit.
pub proof fn lemma_digit_step(n: nat, k: nat)
    requires
        k > 0,
    ensures
        n / pow2((k - 1) as nat) == 2 * (n / pow2(k)) + if digit(n, (k - 1) as nat) {
            1nat
        } else {
            0nat
        },
{
    let lower = (k - 1) as nat;
    lemma_pow2_pos(lower);
    lemma_pow2_unfold(k);
    lemma_div_denominator(n as int, pow2(lower) as int, 2);
    let shifted = n / pow2(lower);
    lemma_fundamental_div_mod(shifted as int, 2);
}

/// The binary digits of a number start with its top digit.
pub proof fn lemma_binary_front(n: nat, k: nat)
    requires
        k > 0,
    ensures
        binary(n, k) =~= seq![digit(n, (k - 1) as nat)] + binary(n, (k - 1) as nat),
{
}

/// The top binary digit of a positive number is set, and the number
/// shifted down to it is one.
pub proof fn lemma_top_digit(n: nat)
    requires
        n > 0,
    ensures
        n / pow2((bit_length(n) - 1) as nat) == 1,
        digit(n, (bit_length(n) - 1) as nat),
{
    let top = (bit_length(n) - 1) as nat;
    lemma_bit_length(n);
    lemma_pow2_pos(top);
    lemma_pow2_unfold(bit_length(n));
    let p = pow2(top) as int;
    lemma_fundamental_div_mod(n as int, p);
    let q = n as int / p;
    assert(q == 1) by (nonlinear_arith)
        requires
            p <= n < 2 * p,
            n == p * q + n as int % p,
            0 <= n as int % p < p,
            p > 0,
    ;
}

/// Reading a binary digit doubles the number read so far and adds the
/// digit.
pub proof fn lemma_read_digit(bits: Seq<bool>, start: nat, count: nat)
    requires
        count > 0,
        bits.len() > 0,
        2 * start + (if bits[0] {
            1nat
        } else {
            0nat
        }) <= usize::MAX,
    ensures
        read_digits(bits, start, count) == read_digits(
            bits.skip(1),
            2 * start + if bits[0] {
                1nat
            } else {
                0nat
            },
            (count - 1) as nat,
        ),
{
}

/// Reading as many binary digits as were written after the digits before
/// them gives the number back.
pub proof fn lemma_read_binary(n: nat, k: nat, rest: Seq<bool>)
    requires
        n <= usize::MAX,
    ensures
        read_digits(binary(n, k) + rest, n / pow2(k), k) == Some(Parsed { number: n, rest }),
    decreases k,
{
    lemma2_to64();
    let bits = binary(n, k) + rest;
    if k == 0 {
        assert(bits =~= rest);
        assert(n / pow2(0) == n);
    } else {
        let lower = (k - 1) as nat;
        lemma_digit_step(n, k);
        lemma_binary_front(n, k);
        lemma_pow2_pos(lower);
        assert(bits[0] == digit(n, lower));
        assert(bits.skip(1) =~= binary(n, lower) + rest);
        let p = pow2(lower) as int;
        let next = n as int / p;
        assert(next <= n) by (nonlinear_arith)
            requires
                next == n as int / p,
                p >= 1,
                n >= 0,
        ;
        lemma_read_binary(n, lower, rest);
        lemma_read_digit(bits, n / pow2(k), k);
    }
}

/// Reading zero bits up to a one bit counts them.
pub proof fn lemma_read_zeros(count: nat, more: nat, rest: Seq<bool>)
    requires
        count + more < usize::BITS,
    ensures
        read_zeros(zeros(more) + seq![true] + rest, count) == Some(
            Parsed { number: count + more, rest },
        ),
    decreases more,
{
    let bits = zeros(more) + seq![true] + rest;
    if more == 0 {
        assert(bits.skip(1) =~= rest);
    } else {
        let fewer = (more - 1) as nat;
        assert(bits.skip(1) =~= zeros(fewer) + seq![true] + rest);
        lemma_read_zeros(count + 1, fewer, rest);
    }
}

/// The reader of the Elias gamma code reads the word of a number back,
/// and leaves what follows it.
pub proof fn lemma_gamma_round_trip(n: nat, rest: Seq<bool>)
    requires
        1 <= n <= usize::MAX,
    ensures
        gamma_parse(gamma_word(n) + rest) == Some(Parsed { number: n, rest }),
{
    let len = bit_length(n);
    let lower = (len - 1) as nat;
    lemma_bit_length(n);
    lemma_length_bound(n);
    lemma_top_digit(n);
    lemma_binary_front(n, len);
    let tail = binary(n, lower) + rest;
    assert(gamma_word(n) + rest =~= zeros(lower) + seq![true] + tail);
    lemma_read_zeros(0, lower, tail);
    lemma_read_binary(n, lower, rest);
}

/// The reader of the Elias delta code reads the word of a number back,
/// and leaves what follows it.
pub proof fn lemma_delta_round_trip(n: nat, rest: Seq<bool>)
    requires
        1 <= n <= usize::MAX,
    ensures
        delta_parse(delta_word(n) + rest) == Some(Parsed { number: n, rest }),
{
    let len = bit_length(n);
    let lower = (len - 1) as nat;
    lemma_bit_length(n);
    lemma_length_bound(n);
    lemma_top_digit(n);
    let tail = binary(n, lower) + rest;
    assert(delta_word(n) + rest =~= gamma_word(len) + tail);
    lemma_gamma_round_trip(len, tail);
    lemma_read_binary(n, lower, rest);
}

/// Reading the groups of a number leaves the reader of the Elias omega
/// code with that number, before the bits that follow the groups.
pub proof fn lemma_omega_groups(n: nat, tail: Seq<bool>)
    requires
        1 <= n <= usize::MAX,
    ensures
        omega_parse_from(omega_groups(n) + tail, 1) == omega_parse_from(tail, n),
    decreases n,
{
    if n <= 1 {
        assert(omega_groups(n) + tail =~= tail);
    } else {
        let len = bit_length(n);
        let lower = (len - 1) as nat;
        lemma_bit_length(n);
        lemma_length_bound(n);
        lemma_top_digit(n);
        lemma_binary_front(n, len);
        let group = binary(n, len) + tail;
        assert(omega_groups(n) + tail =~= omega_groups(lower) + group);
        lemma_omega_groups(lower, group);
        assert(group[0]);
        assert(group.skip(1) =~= binary(n, lower) + tail);
        lemma_read_binary(n, lower, tail);
    }
}

/// The reader of the Elias omega code reads the word of a number back,
/// and leaves what follows it.
pub proof fn lemma_omega_round_trip(n: nat, rest: Seq<bool>)
    requires
        1 <= n <= usize::MAX,
    ensures
        omega_parse(omega_word(n) + rest) == Some(Parsed { number: n, rest }),
{
    let tail = seq![false] + rest;
    assert(omega_word(n) + rest =~= omega_groups(n) + tail);
    lemma_omega_groups(n, tail);
    assert(tail.skip(1) =~= rest);
}

/// Reading the digits of a number for the Fibonacci numbers up to
/// `fib(top)` leaves the reader of the Fibonacci code with that number,
/// before the bits that follow the digits. The digits hold no two set
/// digits in a row, so that the reader does not stop within them.
pub proof fn lemma_fibonacci_digits(n: nat, top: nat, tail: Seq<bool>)
    requires
        1 <= top < fibonacci_limit(),
        n < fib(top + 1),
        n <= usize::MAX,
    ensures
        fibonacci_parse_from(fibonacci_digits(n, top) + tail, 0, 2, false) == fibonacci_parse_from(
            tail,
            n,
            top + 1,
            top >= 2 && n >= fib(top),
        ),
    decreases top,
{
    if top < 2 {
        assert(fibonacci_digits(n, top) + tail =~= tail);
        assert(fib(2) == 1) by {
            reveal_with_fuel(fib, 3);
        }
    } else {
        let lower = (top - 1) as nat;
        let taken = n >= fib(top);
        let left: nat = if taken {
            (n - fib(top)) as nat
        } else {
            n
        };
        assert(fib(top + 1) == fib(top) + fib(lower));
        lemma_fib_monotonic(lower, top);
        let step = seq![taken] + tail;
        assert(fibonacci_digits(n, top) + tail =~= fibonacci_digits(left, lower) + step);
        lemma_fibonacci_digits(left, lower, step);
        assert(step.skip(1) =~= tail);
        assert(step[0] == taken);
    }
}

/// The reader of the Fibonacci code reads the word of a number back, and
/// leaves what follows it.
pub proof fn lemma_fibonacci_round_trip(n: nat, rest: Seq<bool>)
    requires
        1 <= n <= usize::MAX,
        fibonacci_top(n, 1, fibonacci_limit()) < fibonacci_limit(),
    ensures
        fibonacci_parse(fibonacci_word(n) + rest) == Some(Parsed { number: n, rest }),
{
    let top = fibonacci_top(n, 1, fibonacci_limit());
    lemma_fibonacci_top(n, 1, fibonacci_limit());
    assert(fib(2) == 1) by {
        reveal_with_fuel(fib, 3);
    }
    assert(top >= 2);
    let tail = seq![true] + rest;
    assert(fibonacci_word(n) + rest =~= fibonacci_digits(n, top) + tail);
    lemma_fibonacci_digits(n, top, tail);
    assert(tail.skip(1) =~= rest);
}

/// The Fibonacci number of index 31 is above every dictionary index.
pub proof fn lemma_fib_31()
    ensures
        fib(31) == 1_346_269,
{
    assert(fib(0) == 0);
    assert(fib(1) == 1);
    assert(fib(2) == 1);
    assert(fib(3) == 2);
    assert(fib(4) == 3);
    assert(fib(5) == 5);
    assert(fib(6) == 8);
    assert(fib(7) == 13);
    assert(fib(8) == 21);
    assert(fib(9) == 34);
    assert(fib(10) == 55);
    assert(fib(11) == 89);
    assert(fib(12) == 144);
    assert(fib(13) == 233);
    assert(fib(14) == 377);
    assert(fib(15) == 610);
    assert(fib(16) == 987);
    assert(fib(17) == 1597);
    assert(fib(18) == 2584);
    assert(fib(19) == 4181);
    assert(fib(20) == 6765);
    assert(fib(21) == 10946);
    assert(fib(22) == 17711);
    assert(fib(23) == 28657);
    assert(fib(24) == 46368);
    assert(fib(25) == 75025);
    assert(fib(26) == 121393);
    assert(fib(27) == 196418);
    assert(fib(28) == 317811);
    assert(fib(29) == 514229);
    assert(fib(30) == 832040);
    assert(fib(31) == 1346269);
}

/// The Fibonacci code has a word for every index of a dictionary,
/// numbered from one.
pub proof fn lemma_fibonacci_encodes(number: usize)
    requires
        number <= MAX_DICT_SIZE,
    ensures
        FibonacciCoder::encodes(number),
{
    let top = fibonacci_top(number as nat, 1, fibonacci_limit());
    lemma_fibonacci_top(number as nat, 1, fibonacci_limit());
    lemma_fib_31();
    if top >= 31 {
        lemma_fib_monotonic(31, top);
    }
    lemma_fib_monotonic(top + 1, 31);
}

} // verus!
