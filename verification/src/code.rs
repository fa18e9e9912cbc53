//! Codes: four-digit values with a validity predicate, and the
//! enumeration of the full universe of valid codes.

use vstd::arithmetic::div_mod::lemma_fundamental_div_mod;
use vstd::arithmetic::div_mod::lemma_fundamental_div_mod_converse;
use vstd::arithmetic::div_mod::lemma_mod_bound;
use vstd::arithmetic::div_mod::lemma_mod_multiples_vanish;
use vstd::arithmetic::div_mod::lemma_small_mod;
use vstd::prelude::*;

verus! {

/// A game code: four decimal digits, most significant first.
#[derive(PartialEq, Debug, Clone, Copy)]
pub struct Code {
    pub digits: [u8; 4],
}

/// A code is valid when every digit is in range and no digit repeats.
pub open spec fn valid_code(c: Code) -> bool {
    &&& forall|i: int| 0 <= i < 4 ==> c.digits[i] < 10
    &&& forall|i: int, j: int| 0 <= i < j < 4 ==> c.digits[i] != c.digits[j]
}

/// The number a code spells when its digits are read in base ten.
pub open spec fn num_of(c: Code) -> int {
    c.digits[0] * 1000 + c.digits[1] * 100 + c.digits[2] * 10 + c.digits[3]
}

/// Digit `i` (most significant first) of the base-ten numeral of `n`.
pub open spec fn digit_at(n: int, i: int) -> int {
    if i == 0 {
        n / 1000 % 10
    } else if i == 1 {
        n / 100 % 10
    } else if i == 2 {
        n / 10 % 10
    } else {
        n % 10
    }
}

/// The four base-ten digits of a number in [0, 9999] recompose to it.
proof fn lemma_digits_recompose(n: int)
    requires
        0 <= n <= 9999,
    ensures
        digit_at(n, 0) * 1000 + digit_at(n, 1) * 100 + digit_at(n, 2) * 10 + digit_at(n, 3) == n,
        0 <= digit_at(n, 0) < 10,
        0 <= digit_at(n, 1) < 10,
        0 <= digit_at(n, 2) < 10,
        0 <= digit_at(n, 3) < 10,
{
    let q: int = n / 1000;
    let r: int = n % 1000;
    lemma_fundamental_div_mod(n, 1000);
    lemma_mod_bound(n, 1000);
    assert(0 <= q <= 9);
    lemma_small_mod(q as nat, 10);
    let r2: int = r % 100;
    lemma_fundamental_div_mod(r, 100);
    lemma_mod_bound(r, 100);
    lemma_fundamental_div_mod_converse(n, 100, 10 * q + r / 100, r2);
    lemma_mod_multiples_vanish(q, r / 100, 10);
    assert(0 <= r / 100 <= 9);
    lemma_small_mod((r / 100) as nat, 10);
    let r3: int = r2 % 10;
    lemma_fundamental_div_mod(r2, 10);
    lemma_mod_bound(r2, 10);
    lemma_fundamental_div_mod_converse(n, 10, 100 * q + 10 * (r / 100) + r2 / 10, r3);
    lemma_mod_multiples_vanish(10 * q + r / 100, r2 / 10, 10);
    assert(0 <= r2 / 10 <= 9);
    lemma_small_mod((r2 / 10) as nat, 10);
}

/// A four-digit spelling of a number in [0, 9999] is unique: in-range
/// digits that recompose to `n` must each equal the digit of `n`.
pub proof fn lemma_digits_unique(c: Code, n: int)
    requires
        0 <= n <= 9999,
        forall|i: int| 0 <= i < 4 ==> c.digits[i] < 10,
        num_of(c) == n,
    ensures
        c.digits[0] == digit_at(n, 0),
        c.digits[1] == digit_at(n, 1),
        c.digits[2] == digit_at(n, 2),
        c.digits[3] == digit_at(n, 3),
{
    let d0: int = c.digits[0] as int;
    let d1: int = c.digits[1] as int;
    let d2: int = c.digits[2] as int;
    let d3: int = c.digits[3] as int;
    lemma_fundamental_div_mod_converse(n, 1000, d0, d1 * 100 + d2 * 10 + d3);
    lemma_small_mod(d0 as nat, 10);
    lemma_fundamental_div_mod_converse(n, 100, d0 * 10 + d1, d2 * 10 + d3);
    lemma_mod_multiples_vanish(d0, d1, 10);
    lemma_small_mod(d1 as nat, 10);
    lemma_fundamental_div_mod_converse(n, 10, d0 * 100 + d1 * 10 + d2, d3);
    lemma_mod_multiples_vanish(d0 * 10 + d1, d2, 10);
    lemma_small_mod(d2 as nat, 10);
}

/// Two codes with in-range digits spelling the same number are equal.
pub proof fn lemma_num_of_injective(a: Code, b: Code)
    requires
        forall|i: int| 0 <= i < 4 ==> a.digits[i] < 10,
        forall|i: int| 0 <= i < 4 ==> b.digits[i] < 10,
        num_of(a) == num_of(b),
    ensures
        a == b,
{
    broadcast use vstd::array::group_array_axioms;

    let n: int = num_of(a);
    assert(0 <= n <= 9999);
    lemma_digits_unique(a, n);
    lemma_digits_unique(b, n);
    assert(a.digits =~= b.digits);
}

impl Code {
    /// Decompose a number in [0, 9999] into its four base-ten digits,
    /// most significant first.
    pub fn from_number(n: u16) -> (r: Code)
        requires
            n <= 9999,
        ensures
            r.digits[0] == digit_at(n as int, 0),
            r.digits[1] == digit_at(n as int, 1),
            r.digits[2] == digit_at(n as int, 2),
            r.digits[3] == digit_at(n as int, 3),
            num_of(r) == n,
    {
        let digits: [u8; 4] = [
            ((n / 1000) % 10) as u8,
            ((n / 100) % 10) as u8,
            ((n / 10) % 10) as u8,
            (n % 10) as u8,
        ];
        proof {
            lemma_digits_recompose(n as int);
        }
        Code { digits }
    }

    /// True exactly when this code is valid: digits in range, none repeated.
    pub fn is_valid(&self) -> (r: bool)
        ensures
            r == valid_code(*self),
    {
        let d = &self.digits;
        let r = d[0] < 10 && d[1] < 10 && d[2] < 10 && d[3] < 10 && d[0] != d[1] && d[0] != d[2]
            && d[0] != d[3] && d[1] != d[2] && d[1] != d[3] && d[2] != d[3];
        r
    }
}

/// What the universe generator returns: every element is a valid code,
/// the numbers they spell are strictly ascending, and every valid code
/// appears.  Exactly one sequence satisfies this.
pub open spec fn is_code_universe(s: Seq<Code>) -> bool {
    &&& forall|k: int| 0 <= k < s.len() ==> valid_code(#[trigger] s[k])
    &&& forall|k1: int, k2: int|
        0 <= k1 < k2 < s.len() ==> num_of(#[trigger] s[k1]) < num_of(#[trigger] s[k2])
    &&& forall|c: Code| valid_code(c) ==> s.contains(c)
}

/// Uniqueness, generalised for induction: two sequences of valid
/// codes, both strictly ascending by the numbers they spell, both
/// restricted to numbers above `lo` and both complete there, agree.
proof fn lemma_universe_unique_above(s1: Seq<Code>, s2: Seq<Code>, lo: int)
    requires
        -1 <= lo <= 9999,
        forall|k: int| 0 <= k < s1.len() ==> valid_code(#[trigger] s1[k]),
        forall|k: int| 0 <= k < s2.len() ==> valid_code(#[trigger] s2[k]),
        forall|k1: int, k2: int|
            0 <= k1 < k2 < s1.len() ==> num_of(#[trigger] s1[k1]) < num_of(#[trigger] s1[k2]),
        forall|k1: int, k2: int|
            0 <= k1 < k2 < s2.len() ==> num_of(#[trigger] s2[k1]) < num_of(#[trigger] s2[k2]),
        forall|k: int| 0 <= k < s1.len() ==> num_of(#[trigger] s1[k]) > lo,
        forall|k: int| 0 <= k < s2.len() ==> num_of(#[trigger] s2[k]) > lo,
        forall|c: Code| valid_code(c) && num_of(c) > lo ==> s1.contains(c),
        forall|c: Code| valid_code(c) && num_of(c) > lo ==> s2.contains(c),
    ensures
        s1 =~= s2,
    decreases 10000 - lo,
{
    if s1.len() == 0 {
        if s2.len() > 0 {
            assert(s1.contains(s2[0]));
            assert(false);
        }
    } else if s2.len() == 0 {
        assert(s2.contains(s1[0]));
        assert(false);
    } else {
        assert(s2.contains(s1[0]));
        let k: int = choose|k: int| 0 <= k < s2.len() && s2[k] == s1[0];
        assert(s1.contains(s2[0]));
        let m: int = choose|m: int| 0 <= m < s1.len() && s1[m] == s2[0];
        if k > 0 && m > 0 {
            assert(num_of(s2[0]) < num_of(s2[k]));
            assert(num_of(s1[0]) < num_of(s1[m]));
            assert(false);
        }
        assert(s1[0] == s2[0]);
        let t1 = s1.drop_first();
        let t2 = s2.drop_first();
        let lo2: int = num_of(s1[0]);
        assert(0 <= lo2 <= 9999);
        assert forall|c: Code| valid_code(c) && num_of(c) > lo2 implies t1.contains(c) by {
            assert(s1.contains(c));
            let j: int = choose|j: int| 0 <= j < s1.len() && s1[j] == c;
            assert(j > 0);
            assert(t1[j - 1] == c);
        }
        assert forall|c: Code| valid_code(c) && num_of(c) > lo2 implies t2.contains(c) by {
            assert(s2.contains(c));
            let j: int = choose|j: int| 0 <= j < s2.len() && s2[j] == c;
            assert(j > 0);
            assert(t2[j - 1] == c);
        }
        lemma_universe_unique_above(t1, t2, lo2);
        assert forall|i: int| 0 <= i < s1.len() implies s1[i] == s2[i] by {
            if i > 0 {
                assert(t1[i - 1] == t2[i - 1]);
            }
        }
    }
}

/// Only one sequence is the universe of valid codes: the three
/// clauses of `is_code_universe` admit no second witness.
pub proof fn lemma_universe_unique(s1: Seq<Code>, s2: Seq<Code>)
    requires
        is_code_universe(s1),
        is_code_universe(s2),
    ensures
        s1 == s2,
{
    lemma_universe_unique_above(s1, s2, -1);
}

/// A universe sequence holds no code twice: the numbers its codes
/// spell are strictly ascending, so no two positions agree.
pub proof fn lemma_universe_no_duplicates(s: Seq<Code>)
    requires
        is_code_universe(s),
    ensures
        s.no_duplicates(),
{
    assert forall|i: int, j: int|
        0 <= i < s.len() && 0 <= j < s.len() && i != j implies s[i] != s[j] by {
        if i < j {
            assert(num_of(s[i]) < num_of(s[j]));
        } else {
            assert(num_of(s[j]) < num_of(s[i]));
        }
    }
}

/// Enumerate the universe of valid codes by decoding every number in
/// [0, 9999] and keeping the codes whose digits are pairwise distinct.
pub fn all_possible_codes() -> (v: Vec<Code>)
    ensures
        is_code_universe(v@),
{
    let mut v: Vec<Code> = Vec::new();
    let mut n: u16 = 0;
    while n < 10000
        invariant
            n <= 10000,
            forall|k: int| 0 <= k < v@.len() ==> valid_code(#[trigger] v@[k]),
            forall|k: int| 0 <= k < v@.len() ==> num_of(#[trigger] v@[k]) < n,
            forall|k1: int, k2: int|
                0 <= k1 < k2 < v@.len() ==> num_of(#[trigger] v@[k1]) < num_of(
                    #[trigger] v@[k2],
                ),
            forall|c: Code| valid_code(c) && num_of(c) < n ==> v@.contains(c),
        decreases 10000 - n,
    {
        let code = Code::from_number(n);
        let ghost prev = v@;
        if code.is_valid() {
            v.push(code);
            proof {
                assert forall|c: Code| valid_code(c) && num_of(c) < n + 1 implies v@.contains(
                    c,
                ) by {
                    if num_of(c) == n {
                        lemma_num_of_injective(c, code);
                        assert(v@[prev.len() as int] == code);
                    } else {
                        let k: int = choose|k: int| 0 <= k < prev.len() && prev[k] == c;
                        assert(v@[k] == c);
                    }
                }
            }
        } else {
            proof {
                assert forall|c: Code| valid_code(c) && num_of(c) < n + 1 implies v@.contains(
                    c,
                ) by {
                    if num_of(c) == n {
                        lemma_digits_unique(c, n as int);
                        assert(valid_code(code));
                    }
                }
            }
        }
        n = n + 1;
    }
    proof {
        assert forall|c: Code| valid_code(c) implies v@.contains(c) by {
            assert(num_of(c) < 10000);
        }
    }
    v
}

} // verus!
