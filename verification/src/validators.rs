//! Check-digit schemes used by the couriers' tracking numbers.
//!
//! Each scheme takes the serial part of a tracking number and its check
//! digit(s), both as text, and says whether they agree.  Running sums are kept
//! in `u32` and, like `u32` arithmetic in a release build, wrap modulo 2^32.
use vstd::prelude::*;
use vstd::arithmetic::div_mod::lemma_add_mod_noop;
use vstd::wrapping::u32_specs;
use crate::text::{
    all_ascii_digits, char_is_ascii_digit, chars_of, decimal_digit, digit_char, digit_of,
    is_ascii_digit, lemma_parse_digit_char, parse_unsigned, parse_unsigned_chars,
};

verus! {

/// 2^32: the modulus of `u32` arithmetic.
pub open spec fn u32_modulus() -> nat {
    0x1_0000_0000
}

/// A check-digit scheme.
pub trait Validator {
    /// Whether the scheme accepts the serial `seq` with the check digits `cd`.
    spec fn accepts(&self, seq: Seq<char>, cd: Seq<char>) -> bool;

    /// The inputs on which checking is defined (it divides by no zero).
    spec fn defined_on(&self, seq: Seq<char>, cd: Seq<char>) -> bool;

    /// Checks the serial `seq` against the check digits `cd`.
    fn validate(&self, seq: &str, cd: &str) -> (valid: bool)
        requires
            self.defined_on(seq@, cd@),
        ensures
            valid == self.accepts(seq@, cd@),
    ;
}

/// Adding the product `x * y` to a running sum kept modulo 2^32.
proof fn lemma_wrapping_accumulate(acc: u32, total: nat, x: u32, y: u32)
    requires
        acc == total % u32_modulus(),
    ensures
        u32_specs::wrapping_add(acc, u32_specs::wrapping_mul(x, y)) == (total + x * y) % (
        u32_modulus() as int),
{
    let m: int = u32_modulus() as int;
    let p = u32_specs::wrapping_mul(x, y);
    assert(p == (x * y) % m);
    lemma_add_mod_noop(total as int, (x * y) as int, m);
    assert((acc + p) % m == (total + x * y) % m);
    assert(u32_specs::wrapping_add(acc, p) == (acc + p) % m);
}

/// The characters of `v` in reverse order.
fn reversed(v: &Vec<char>) -> (r: Vec<char>)
    ensures
        r@ == v@.reverse(),
{
    let n = v.len();
    let mut r: Vec<char> = Vec::new();
    let mut i: usize = 0;
    while i < n
        invariant
            n == v@.len(),
            i <= n,
            r@.len() == i,
            forall|j: int| 0 <= j < i ==> #[trigger] r@[j] == v@[n - 1 - j],
        decreases n - i,
    {
        r.push(v[n - 1 - i]);
        i = i + 1;
    }
    assert(r@ =~= v@.reverse());
    r
}

/// The values of the ASCII digits of `s`, in order; other characters are
/// skipped (`chars().filter_map(|c| c.to_digit(10))`).
pub open spec fn digits_of(s: Seq<char>) -> Seq<nat>
    decreases s.len(),
{
    if s.len() == 0 {
        seq![]
    } else if is_ascii_digit(s.last()) {
        digits_of(s.drop_last()).push(digit_of(s.last()))
    } else {
        digits_of(s.drop_last())
    }
}

/// The digit values of `chars`.
fn digit_values(chars: &Vec<char>) -> (r: Vec<u32>)
    ensures
        r@.len() == digits_of(chars@).len(),
        forall|i: int| 0 <= i < r@.len() ==> r@[i] as nat == #[trigger] digits_of(chars@)[i],
        forall|i: int| 0 <= i < r@.len() ==> r@[i] <= 9,
{
    let n = chars.len();
    let mut r: Vec<u32> = Vec::new();
    let mut i: usize = 0;
    while i < n
        invariant
            n == chars@.len(),
            i <= n,
            r@.len() == digits_of(chars@.take(i as int)).len(),
            forall|j: int|
                0 <= j < r@.len() ==> r@[j] as nat == #[trigger] digits_of(chars@.take(i as int))[j],
            forall|j: int| 0 <= j < r@.len() ==> r@[j] <= 9,
        decreases n - i,
    {
        let ghost before = chars@.take(i as int);
        assert(chars@.take(i + 1).drop_last() =~= before);
        if let Some(d) = decimal_digit(chars[i]) {
            r.push(d);
        }
        i = i + 1;
        assert forall|j: int| 0 <= j < r@.len() implies r@[j] as nat == #[trigger] digits_of(
            chars@.take(i as int),
        )[j] by {
            if j < digits_of(before).len() {
                assert(r@[j] as nat == digits_of(before)[j]);
            }
        }
    }
    assert(chars@.take(n as int) =~= chars@);
    r
}

/// The sum of `ds[i] * ws[i]` over the indices of `ds`.
pub open spec fn weighted_sum(ds: Seq<nat>, ws: Seq<u32>) -> nat
    decreases ds.len(),
{
    if ds.len() == 0 {
        0
    } else {
        weighted_sum(ds.drop_last(), ws) + ds.last() * (ws[ds.len() - 1] as nat)
    }
}

/// `weighted_sum` of digit values and weights of the same length, modulo 2^32.
fn wrapped_weighted_sum(ds: &Vec<u32>, ws: &Vec<u32>, Ghost(spec_ds): Ghost<Seq<nat>>) -> (r: u32)
    requires
        ds@.len() == ws@.len(),
        spec_ds.len() == ds@.len(),
        forall|i: int| 0 <= i < ds@.len() ==> ds@[i] as nat == #[trigger] spec_ds[i],
    ensures
        r == weighted_sum(spec_ds, ws@) % u32_modulus(),
{
    let n = ds.len();
    let mut sum: u32 = 0;
    let mut i: usize = 0;
    while i < n
        invariant
            n == ds@.len(),
            n == ws@.len(),
            spec_ds.len() == n,
            forall|j: int| 0 <= j < n ==> ds@[j] as nat == #[trigger] spec_ds[j],
            i <= n,
            sum == weighted_sum(spec_ds.take(i as int), ws@) % u32_modulus(),
        decreases n - i,
    {
        let ghost before = spec_ds.take(i as int);
        assert(spec_ds.take(i + 1).drop_last() =~= before);
        assert(spec_ds.take(i + 1).last() == ds@[i as int]);
        proof {
            lemma_wrapping_accumulate(sum, weighted_sum(before, ws@), ds[i as int], ws[i as int]);
        }
        sum = sum.wrapping_add(ds[i].wrapping_mul(ws[i]));
        i = i + 1;
    }
    assert(spec_ds.take(n as int) =~= spec_ds);
    sum
}

// ---------------------------------------------------------------------------
// Mod 7
// ---------------------------------------------------------------------------

/// The serial, read as one unsigned 64-bit number, modulo 7 is the check digit.
pub struct Mod7;

impl Validator for Mod7 {
    open spec fn accepts(&self, seq: Seq<char>, cd: Seq<char>) -> bool {
        match (parse_unsigned(cd, u64::MAX as nat), parse_unsigned(seq, u64::MAX as nat)) {
            (Some(c), Some(n)) => n % 7 == c,
            _ => false,
        }
    }

    open spec fn defined_on(&self, seq: Seq<char>, cd: Seq<char>) -> bool {
        true
    }

    fn validate(&self, seq: &str, cd: &str) -> (valid: bool) {
        let cd_chars = chars_of(cd);
        let check_digit = match parse_unsigned_chars(&cd_chars, u64::MAX) {
            Some(d) => d,
            None => return false,
        };
        let seq_chars = chars_of(seq);
        let sequence = match parse_unsigned_chars(&seq_chars, u64::MAX) {
            Some(n) => n,
            None => return false,
        };
        sequence % 7 == check_digit
    }
}

// ---------------------------------------------------------------------------
// Mod 10
// ---------------------------------------------------------------------------

/// Weighted sum of the serial's characters, alternating between two
/// multipliers; the check digit brings the sum up to a multiple of ten.
pub struct Mod10 {
    /// Multiplier of the characters at even positions (counting from 0).
    pub evens_multiplier: u32,
    /// Multiplier of the characters at odd positions.
    pub odds_multiplier: u32,
    /// Whether the positions are counted from the end of the serial.
    pub reverse: bool,
}

/// The value a character contributes to a mod-10 sum: a digit its value,
/// any other character its code minus 3 (modulo 2^32), modulo 10.
pub open spec fn mod10_char_value(c: char) -> nat {
    if is_ascii_digit(c) {
        digit_of(c)
    } else {
        (((c as u32) as int - 3) % (u32_modulus() as int)) as nat % 10
    }
}

/// The weighted sum of `chars`, even positions times `evens`, odd times `odds`.
pub open spec fn mod10_total(chars: Seq<char>, evens: u32, odds: u32) -> nat
    decreases chars.len(),
{
    if chars.len() == 0 {
        0
    } else {
        let i = chars.len() - 1;
        mod10_total(chars.drop_last(), evens, odds) + mod10_char_value(chars.last()) * ((if i % 2
            == 0 {
            evens
        } else {
            odds
        }) as nat)
    }
}

/// The digit that brings `sum` up to a multiple of ten.
pub open spec fn complement_to_ten(sum: nat) -> nat {
    ((10 - sum % 10) % 10) as nat
}

impl Mod10 {
    /// The serial's characters in the order in which positions are counted.
    pub open spec fn ordered(&self, seq: Seq<char>) -> Seq<char> {
        if self.reverse {
            seq.reverse()
        } else {
            seq
        }
    }

    /// The check digit that the scheme computes for `seq`.
    pub open spec fn check_value(&self, seq: Seq<char>) -> nat {
        complement_to_ten(
            mod10_total(self.ordered(seq), self.evens_multiplier, self.odds_multiplier)
                % u32_modulus(),
        )
    }
}

/// The mod-10 value of a character.
fn mod10_value(c: char) -> (r: u32)
    ensures
        r as nat == mod10_char_value(c),
        r < 10,
{
    match decimal_digit(c) {
        Some(d) => d,
        None => (c as u32).wrapping_sub(3) % 10,
    }
}

impl Validator for Mod10 {
    open spec fn accepts(&self, seq: Seq<char>, cd: Seq<char>) -> bool {
        match parse_unsigned(cd, u32::MAX as nat) {
            Some(d) => self.check_value(seq) == d,
            None => false,
        }
    }

    open spec fn defined_on(&self, seq: Seq<char>, cd: Seq<char>) -> bool {
        true
    }

    fn validate(&self, seq: &str, cd: &str) -> (valid: bool) {
        let cd_chars = chars_of(cd);
        let check_digit = match parse_unsigned_chars(&cd_chars, u32::MAX as u64) {
            Some(d) => d,
            None => return false,
        };
        let all = chars_of(seq);
        let chars = if self.reverse {
            reversed(&all)
        } else {
            all
        };
        let ghost ordered = self.ordered(seq@);
        assert(chars@ == ordered);
        let n = chars.len();
        let mut sum: u32 = 0;
        let mut i: usize = 0;
        while i < n
            invariant
                n == chars@.len(),
                chars@ == ordered,
                i <= n,
                sum == mod10_total(ordered.take(i as int), self.evens_multiplier, self.odds_multiplier)
                    % u32_modulus(),
            decreases n - i,
        {
            let ghost before = ordered.take(i as int);
            assert(ordered.take(i + 1).drop_last() =~= before);
            assert(ordered.take(i + 1).last() == chars@[i as int]);
            let v = mod10_value(chars[i]);
            let multiplier = if i % 2 == 0 {
                self.evens_multiplier
            } else {
                self.odds_multiplier
            };
            proof {
                lemma_wrapping_accumulate(
                    sum,
                    mod10_total(before, self.evens_multiplier, self.odds_multiplier),
                    v,
                    multiplier,
                );
            }
            sum = sum.wrapping_add(v.wrapping_mul(multiplier));
            i = i + 1;
        }
        assert(ordered.take(n as int) =~= ordered);
        let calculated = (10 - (sum % 10)) % 10;
        calculated as u64 == check_digit
    }
}

// ---------------------------------------------------------------------------
// Sum of products with weightings
// ---------------------------------------------------------------------------

/// The serial's digits times fixed weightings, summed, taken modulo
/// `modulo1` and then modulo `modulo2`.
pub struct SumProduct {
    /// One weighting per digit of the serial.
    pub weightings: Vec<u32>,
    /// The first modulus.
    pub modulo1: u32,
    /// The second modulus.
    pub modulo2: u32,
}

impl SumProduct {
    /// The check digit that the scheme computes for `seq`.
    pub open spec fn check_value(&self, seq: Seq<char>) -> nat {
        ((weighted_sum(digits_of(seq), self.weightings@) % u32_modulus()) % (self.modulo1 as nat))
            % (self.modulo2 as nat)
    }
}

impl Validator for SumProduct {
    open spec fn accepts(&self, seq: Seq<char>, cd: Seq<char>) -> bool {
        match parse_unsigned(cd, u32::MAX as nat) {
            Some(d) => digits_of(seq).len() == self.weightings@.len() && self.check_value(seq)
                == d,
            None => false,
        }
    }

    open spec fn defined_on(&self, seq: Seq<char>, cd: Seq<char>) -> bool {
        ||| parse_unsigned(cd, u32::MAX as nat) is None
        ||| digits_of(seq).len() != self.weightings@.len()
        ||| self.modulo1 > 0 && self.modulo2 > 0
    }

    fn validate(&self, seq: &str, cd: &str) -> (valid: bool) {
        let cd_chars = chars_of(cd);
        let check_digit = match parse_unsigned_chars(&cd_chars, u32::MAX as u64) {
            Some(d) => d,
            None => return false,
        };
        let chars = chars_of(seq);
        let digits = digit_values(&chars);
        if digits.len() != self.weightings.len() {
            return false;
        }
        let sum = wrapped_weighted_sum(&digits, &self.weightings, Ghost(digits_of(seq@)));
        let calculated = (sum % self.modulo1) % self.modulo2;
        calculated as u64 == check_digit
    }
}

// ---------------------------------------------------------------------------
// S10 (UPU)
// ---------------------------------------------------------------------------

/// The UPU S10 scheme: eight digits weighted 8, 6, 4, 2, 3, 5, 9, 7, the sum
/// taken modulo 11.
pub struct S10;

/// The weights of the S10 scheme.
pub open spec fn s10_weights() -> Seq<u32> {
    seq![8u32, 6u32, 4u32, 2u32, 3u32, 5u32, 9u32, 7u32]
}

/// The S10 check digit of a weighted sum: 11 minus the remainder modulo 11,
/// with 11 read as 5 and 10 as 0.
pub open spec fn s10_check_of_sum(sum: nat) -> nat {
    let n = 11 - sum % 11;
    if n == 11 {
        5
    } else if n == 10 {
        0
    } else {
        n as nat
    }
}

impl S10 {
    /// The check digit that the scheme computes for `seq`.
    pub open spec fn check_value(&self, seq: Seq<char>) -> nat {
        s10_check_of_sum(weighted_sum(digits_of(seq), s10_weights()))
    }
}

impl Validator for S10 {
    open spec fn accepts(&self, seq: Seq<char>, cd: Seq<char>) -> bool {
        match parse_unsigned(cd, u32::MAX as nat) {
            Some(d) => digits_of(seq).len() == 8 && self.check_value(seq) == d,
            None => false,
        }
    }

    open spec fn defined_on(&self, seq: Seq<char>, cd: Seq<char>) -> bool {
        true
    }

    fn validate(&self, seq: &str, cd: &str) -> (valid: bool) {
        let cd_chars = chars_of(cd);
        let check_digit = match parse_unsigned_chars(&cd_chars, u32::MAX as u64) {
            Some(d) => d,
            None => return false,
        };
        let weights: Vec<u32> = vec![8, 6, 4, 2, 3, 5, 9, 7];
        assert(weights@ =~= s10_weights());
        let chars = chars_of(seq);
        let digits = digit_values(&chars);
        if digits.len() != weights.len() {
            return false;
        }
        let ghost ds = digits_of(seq@);
        let sum = wrapped_weighted_sum(&digits, &weights, Ghost(ds));
        proof {
            lemma_weighted_sum_bound(ds, weights@, 9, 9);
            assert(weighted_sum(ds, weights@) <= 8 * 81) by (nonlinear_arith)
                requires
                    weighted_sum(ds, weights@) <= ds.len() * (9 * 9),
                    ds.len() == 8,
            ;
        }
        let remainder = sum % 11;
        let calculated = match 11 - remainder {
            11 => 5,
            10 => 0,
            n => n,
        };
        calculated as u64 == check_digit
    }
}

/// A weighted sum of small digits with small weights is small.
proof fn lemma_weighted_sum_bound(ds: Seq<nat>, ws: Seq<u32>, dmax: nat, wmax: nat)
    requires
        ds.len() <= ws.len(),
        forall|i: int| 0 <= i < ds.len() ==> ds[i] <= dmax,
        forall|i: int| 0 <= i < ws.len() ==> ws[i] <= wmax,
    ensures
        weighted_sum(ds, ws) <= ds.len() * (dmax * wmax),
    decreases ds.len(),
{
    if ds.len() > 0 {
        let k = ds.len() - 1;
        assert forall|i: int| 0 <= i < ds.drop_last().len() implies ds.drop_last()[i] <= dmax by {
            assert(ds.drop_last()[i] == ds[i]);
        }
        lemma_weighted_sum_bound(ds.drop_last(), ws, dmax, wmax);
        let d = ds.last();
        let w = ws[k] as nat;
        assert(d <= dmax);
        assert(w <= wmax);
        assert(d * w <= dmax * wmax) by (nonlinear_arith)
            requires
                d <= dmax,
                w <= wmax,
        ;
        assert(k * (dmax * wmax) + dmax * wmax == ds.len() * (dmax * wmax)) by (nonlinear_arith)
            requires
                k + 1 == ds.len(),
        ;
    }
}

// ---------------------------------------------------------------------------
// Luhn
// ---------------------------------------------------------------------------

/// The Luhn scheme: from the end of the serial, every other digit (the last
/// one first) is doubled, its digits summed; the check digit brings the total
/// up to a multiple of ten.
pub struct Luhn;

/// What a digit contributes to a Luhn sum.
pub open spec fn luhn_term(d: nat, double: bool) -> nat {
    if double {
        if 2 * d > 9 {
            (2 * d - 9) as nat
        } else {
            2 * d
        }
    } else {
        d
    }
}

/// The Luhn sum of `rev`, the serial read from its end: positions 0, 2, 4 ...
/// are doubled.
pub open spec fn luhn_total(rev: Seq<char>) -> nat
    decreases rev.len(),
{
    if rev.len() == 0 {
        0
    } else {
        let i = rev.len() - 1;
        luhn_total(rev.drop_last()) + luhn_term(digit_of(rev.last()), i % 2 == 0)
    }
}

impl Luhn {
    /// The check digit that the scheme computes for `seq`.
    pub open spec fn check_value(&self, seq: Seq<char>) -> nat {
        complement_to_ten(luhn_total(seq.reverse()) % u32_modulus())
    }
}

impl Validator for Luhn {
    open spec fn accepts(&self, seq: Seq<char>, cd: Seq<char>) -> bool {
        match parse_unsigned(cd, u32::MAX as nat) {
            Some(d) => all_ascii_digits(seq) && self.check_value(seq) == d,
            None => false,
        }
    }

    open spec fn defined_on(&self, seq: Seq<char>, cd: Seq<char>) -> bool {
        true
    }

    fn validate(&self, seq: &str, cd: &str) -> (valid: bool) {
        let cd_chars = chars_of(cd);
        let check_digit = match parse_unsigned_chars(&cd_chars, u32::MAX as u64) {
            Some(d) => d,
            None => return false,
        };
        let all = chars_of(seq);
        let rev = reversed(&all);
        let ghost r = seq@.reverse();
        let n = rev.len();
        let mut sum: u32 = 0;
        let mut double = true;
        let mut i: usize = 0;
        while i < n
            invariant
                n == rev@.len(),
                rev@ == r,
                r == seq@.reverse(),
                i <= n,
                double == (i % 2 == 0),
                all_ascii_digits(r.take(i as int)),
                sum == luhn_total(r.take(i as int)) % u32_modulus(),
            decreases n - i,
        {
            let ghost before = r.take(i as int);
            assert(r.take(i + 1).drop_last() =~= before);
            assert(r.take(i + 1).last() == rev@[i as int]);
            let d = match decimal_digit(rev[i]) {
                Some(d) => d,
                None => {
                    assert(!all_ascii_digits(seq@)) by {
                        assert(seq@[n - 1 - i] == r[i as int]);
                    }
                    return false;
                },
            };
            let mut term = d;
            if double {
                term = term * 2;
                if term > 9 {
                    term = term - 9;
                }
            }
            proof {
                lemma_wrapping_accumulate(sum, luhn_total(before), term, 1);
            }
            sum = sum.wrapping_add(term.wrapping_mul(1));
            double = !double;
            i = i + 1;
            assert(all_ascii_digits(r.take(i as int))) by {
                assert forall|j: int| 0 <= j < r.take(i as int).len() implies is_ascii_digit(
                    #[trigger] r.take(i as int)[j],
                ) by {
                    if j < i - 1 {
                        assert(r.take(i as int)[j] == before[j]);
                    }
                }
            }
        }
        assert(r.take(n as int) =~= r);
        assert(all_ascii_digits(seq@)) by {
            assert forall|j: int| 0 <= j < seq@.len() implies is_ascii_digit(#[trigger] seq@[j]) by {
                assert(r[n - 1 - j] == seq@[j]);
            }
        }
        let calculated = (10 - (sum % 10)) % 10;
        calculated as u64 == check_digit
    }
}

// ---------------------------------------------------------------------------
// Mod 37/36 (ISO 7064)
// ---------------------------------------------------------------------------

/// The ISO 7064 Mod 37,36 scheme over digits and upper-case letters; the
/// check character is a digit or an upper-case letter.
pub struct Mod37_36;

/// The value of a character in the Mod 37,36 scheme: digits 0 to 9, the
/// letters `A` to `Z` 10 to 35; no other character has one.
pub open spec fn m3736_value(c: char) -> Option<nat> {
    if is_ascii_digit(c) {
        Some(digit_of(c))
    } else if 65 <= (c as u32) && (c as u32) <= 90 {
        Some(((c as u32) - 65 + 10) as nat)
    } else {
        None
    }
}

/// Every character of `s` has a Mod 37,36 value.
pub open spec fn m3736_all_valued(s: Seq<char>) -> bool {
    forall|i: int| 0 <= i < s.len() ==> (#[trigger] m3736_value(s[i])) is Some
}

/// One step of the Mod 37,36 computation.
pub open spec fn m3736_step(acc: nat, v: nat) -> nat {
    let a = v + acc;
    let a = if a > 36 {
        (a - 36) as nat
    } else {
        a
    };
    let b = a * 2;
    if b > 36 {
        (b - 37) as nat
    } else {
        b
    }
}

/// The running value after all of `s`, from 36.
pub open spec fn m3736_run(s: Seq<char>) -> nat
    decreases s.len(),
{
    if s.len() == 0 {
        36
    } else {
        m3736_step(m3736_run(s.drop_last()), m3736_value(s.last()).unwrap_or(0))
    }
}

/// The check value from the final running value: 37 minus it, with 36 read
/// as 0.
pub open spec fn m3736_check_of_run(run: nat) -> nat {
    let x = 37 - run;
    if x == 36 {
        0
    } else {
        x as nat
    }
}

/// The character of a check value: a digit below 10, else `A` onward.
pub open spec fn m3736_char(x: nat) -> char {
    if x < 10 {
        (48 + x) as char
    } else {
        (65 + x - 10) as char
    }
}

/// `c` in upper case if it is an ASCII lower-case letter.
pub open spec fn ascii_upper(c: char) -> char {
    if 97 <= (c as u32) && (c as u32) <= 122 {
        ((c as u32) - 32) as char
    } else {
        c
    }
}

/// The character that a check is compared with: the first of `cd` in upper
/// case, or NUL when `cd` is empty.
pub open spec fn m3736_expected(cd: Seq<char>) -> char {
    if cd.len() == 0 {
        '\0'
    } else {
        ascii_upper(cd[0])
    }
}

impl Mod37_36 {
    /// The check character that the scheme computes for `seq`.
    pub open spec fn check_char(&self, seq: Seq<char>) -> char {
        m3736_char(m3736_check_of_run(m3736_run(seq)))
    }
}

/// The running value stays within 0 to 36.
proof fn lemma_m3736_run_bound(s: Seq<char>)
    requires
        m3736_all_valued(s),
    ensures
        m3736_run(s) <= 36,
    decreases s.len(),
{
    if s.len() > 0 {
        assert forall|i: int| 0 <= i < s.drop_last().len() implies (#[trigger] m3736_value(
            s.drop_last()[i],
        )) is Some by {
            assert(s.drop_last()[i] == s[i]);
        }
        lemma_m3736_run_bound(s.drop_last());
        assert(m3736_value(s[s.len() - 1]) is Some);
    }
}

/// The Mod 37,36 value of a character.
fn m3736_char_value(c: char) -> (r: Option<u32>)
    ensures
        r matches Some(v) ==> m3736_value(c) == Some(v as nat) && v <= 35,
        r is None ==> m3736_value(c) is None,
{
    let u = c as u32;
    if char_is_ascii_digit(c) {
        Some(u - 48)
    } else if 65 <= u && u <= 90 {
        Some(u - 65 + 10)
    } else {
        None
    }
}

/// `char::to_ascii_uppercase`.
fn to_ascii_upper(c: char) -> (r: char)
    ensures
        r == ascii_upper(c),
{
    let u = c as u32;
    if 97 <= u && u <= 122 {
        ((u - 32) as u8) as char
    } else {
        c
    }
}

impl Validator for Mod37_36 {
    open spec fn accepts(&self, seq: Seq<char>, cd: Seq<char>) -> bool {
        m3736_all_valued(seq) && self.check_char(seq) == m3736_expected(cd)
    }

    open spec fn defined_on(&self, seq: Seq<char>, cd: Seq<char>) -> bool {
        true
    }

    fn validate(&self, seq: &str, cd: &str) -> (valid: bool) {
        let modulo: u32 = 36;
        let chars = chars_of(seq);
        let n = chars.len();
        let mut cd_val: u32 = modulo;
        let mut i: usize = 0;
        while i < n
            invariant
                n == chars@.len(),
                chars@ == seq@,
                modulo == 36,
                i <= n,
                m3736_all_valued(seq@.take(i as int)),
                cd_val == m3736_run(seq@.take(i as int)),
                cd_val <= 36,
            decreases n - i,
        {
            let ghost before = seq@.take(i as int);
            assert(seq@.take(i + 1).drop_last() =~= before);
            assert(seq@.take(i + 1).last() == chars@[i as int]);
            let val = match m3736_char_value(chars[i]) {
                Some(v) => v,
                None => {
                    assert(!m3736_all_valued(seq@));
                    return false;
                },
            };
            cd_val = val + cd_val;
            if cd_val > modulo {
                cd_val = cd_val - modulo;
            }
            cd_val = cd_val * 2;
            if cd_val > modulo {
                cd_val = cd_val - (modulo + 1);
            }
            i = i + 1;
            assert(m3736_all_valued(seq@.take(i as int))) by {
                assert forall|j: int| 0 <= j < seq@.take(i as int).len() implies (#[trigger] m3736_value(
                    seq@.take(i as int)[j],
                )) is Some by {
                    if j < i - 1 {
                        assert(seq@.take(i as int)[j] == before[j]);
                    }
                }
            }
        }
        assert(seq@.take(n as int) =~= seq@);
        cd_val = (modulo + 1) - cd_val;
        if cd_val == modulo {
            cd_val = 0;
        }
        let computed = if cd_val < 10 {
            ((48 + cd_val) as u8) as char
        } else {
            ((65 + cd_val - 10) as u8) as char
        };
        let cd_chars = chars_of(cd);
        let first = if cd_chars.len() > 0 {
            cd_chars[0]
        } else {
            '\0'
        };
        let expected = to_ascii_upper(first);
        assert(ascii_upper('\0') == '\0');
        computed == expected
    }
}

// ---------------------------------------------------------------------------
// Laws
// ---------------------------------------------------------------------------

/// Law: the mod-10 check digit computed for a serial is accepted with it.
pub proof fn lemma_mod10_computed_digit_accepted(v: Mod10, seq: Seq<char>)
    ensures
        v.check_value(seq) < 10,
        v.accepts(seq, seq![digit_char(v.check_value(seq))]),
{
    lemma_parse_digit_char(v.check_value(seq), u32::MAX as nat);
}

/// Law: all check digits that the mod-10 scheme accepts for one serial
/// denote one number.
pub proof fn lemma_mod10_check_digit_unique(v: Mod10, seq: Seq<char>, cd1: Seq<char>, cd2: Seq<char>)
    requires
        v.accepts(seq, cd1),
        v.accepts(seq, cd2),
    ensures
        parse_unsigned(cd1, u32::MAX as nat) == parse_unsigned(cd2, u32::MAX as nat),
{
}

/// Law: when the serial is a number, its remainder modulo 7 is accepted as
/// its check digit.
pub proof fn lemma_mod7_computed_digit_accepted(seq: Seq<char>, n: nat)
    requires
        parse_unsigned(seq, u64::MAX as nat) == Some(n),
    ensures
        Mod7.accepts(seq, seq![digit_char(n % 7)]),
{
    lemma_parse_digit_char(n % 7, u64::MAX as nat);
}

/// Law: all check digits that the mod-7 scheme accepts for one serial denote
/// one number.
pub proof fn lemma_mod7_check_digit_unique(seq: Seq<char>, cd1: Seq<char>, cd2: Seq<char>)
    requires
        Mod7.accepts(seq, cd1),
        Mod7.accepts(seq, cd2),
    ensures
        parse_unsigned(cd1, u64::MAX as nat) == parse_unsigned(cd2, u64::MAX as nat),
{
}

/// Law: for a serial of digits, the Luhn check digit computed for it is
/// accepted with it.
pub proof fn lemma_luhn_computed_digit_accepted(seq: Seq<char>)
    requires
        all_ascii_digits(seq),
    ensures
        Luhn.check_value(seq) < 10,
        Luhn.accepts(seq, seq![digit_char(Luhn.check_value(seq))]),
{
    lemma_parse_digit_char(Luhn.check_value(seq), u32::MAX as nat);
}

/// Law: all check digits that the Luhn scheme accepts for one serial denote
/// one number.
pub proof fn lemma_luhn_check_digit_unique(seq: Seq<char>, cd1: Seq<char>, cd2: Seq<char>)
    requires
        Luhn.accepts(seq, cd1),
        Luhn.accepts(seq, cd2),
    ensures
        parse_unsigned(cd1, u32::MAX as nat) == parse_unsigned(cd2, u32::MAX as nat),
{
}

/// Law: for a serial with eight digits, the S10 check digit computed for it
/// is accepted with it.
pub proof fn lemma_s10_computed_digit_accepted(seq: Seq<char>)
    requires
        digits_of(seq).len() == 8,
    ensures
        S10.check_value(seq) < 10,
        S10.accepts(seq, seq![digit_char(S10.check_value(seq))]),
{
    lemma_parse_digit_char(S10.check_value(seq), u32::MAX as nat);
}

/// Law: all check digits that the S10 scheme accepts for one serial denote
/// one number.
pub proof fn lemma_s10_check_digit_unique(seq: Seq<char>, cd1: Seq<char>, cd2: Seq<char>)
    requires
        S10.accepts(seq, cd1),
        S10.accepts(seq, cd2),
    ensures
        parse_unsigned(cd1, u32::MAX as nat) == parse_unsigned(cd2, u32::MAX as nat),
{
}

/// Law: for a serial with one digit per weighting, under a second modulus of
/// at most ten, the check digit computed for it is accepted with it.
pub proof fn lemma_sum_product_computed_digit_accepted(v: SumProduct, seq: Seq<char>)
    requires
        digits_of(seq).len() == v.weightings@.len(),
        v.modulo1 > 0,
        0 < v.modulo2 <= 10,
    ensures
        v.check_value(seq) < 10,
        v.accepts(seq, seq![digit_char(v.check_value(seq))]),
{
    lemma_parse_digit_char(v.check_value(seq), u32::MAX as nat);
}

/// Law: all check digits that a sum-of-products scheme accepts for one serial
/// denote one number.
pub proof fn lemma_sum_product_check_digit_unique(
    v: SumProduct,
    seq: Seq<char>,
    cd1: Seq<char>,
    cd2: Seq<char>,
)
    requires
        v.accepts(seq, cd1),
        v.accepts(seq, cd2),
    ensures
        parse_unsigned(cd1, u32::MAX as nat) == parse_unsigned(cd2, u32::MAX as nat),
{
}

/// Law: for a serial of digits and upper-case letters, the Mod 37,36 check
/// character computed for it is accepted with it.
pub proof fn lemma_mod37_36_computed_char_accepted(seq: Seq<char>)
    requires
        m3736_all_valued(seq),
    ensures
        Mod37_36.accepts(seq, seq![Mod37_36.check_char(seq)]),
{
    lemma_m3736_run_bound(seq);
    let x = m3736_check_of_run(m3736_run(seq));
    assert(x <= 37);
    let c = m3736_char(x);
    if x < 10 {
        assert((c as u32) == 48 + x);
    } else {
        assert((c as u32) == 65 + x - 10);
    }
    assert(ascii_upper(c) == c);
}

/// Law: the check characters that the Mod 37,36 scheme accepts for one serial
/// agree once put in upper case.
pub proof fn lemma_mod37_36_check_char_unique(seq: Seq<char>, cd1: Seq<char>, cd2: Seq<char>)
    requires
        Mod37_36.accepts(seq, cd1),
        Mod37_36.accepts(seq, cd2),
    ensures
        m3736_expected(cd1) == m3736_expected(cd2),
{
}

/// Two sequences of equal length that differ at position `k` and nowhere
/// else.
pub open spec fn differ_only_at<A>(s1: Seq<A>, s2: Seq<A>, k: int) -> bool {
    &&& s1.len() == s2.len()
    &&& 0 <= k < s1.len()
    &&& s1[k] != s2[k]
    &&& forall|j: int| 0 <= j < s1.len() && j != k ==> s1[j] == s2[j]
}

/// The running value of the Mod 37,36 computation never leaves 1 to 36.
proof fn lemma_m3736_run_positive(s: Seq<char>)
    requires
        m3736_all_valued(s),
    ensures
        1 <= m3736_run(s) <= 36,
    decreases s.len(),
{
    if s.len() > 0 {
        assert forall|i: int| 0 <= i < s.drop_last().len() implies (#[trigger] m3736_value(
            s.drop_last()[i],
        )) is Some by {
            assert(s.drop_last()[i] == s[i]);
        }
        lemma_m3736_run_positive(s.drop_last());
        assert(m3736_value(s[s.len() - 1]) is Some);
    }
}

/// One Mod 37,36 step tells apart different running values, and different
/// character values.
proof fn lemma_m3736_step_injective(a1: nat, v1: nat, a2: nat, v2: nat)
    requires
        1 <= a1 <= 36,
        1 <= a2 <= 36,
        v1 <= 35,
        v2 <= 35,
        a1 != a2 && v1 == v2 || a1 == a2 && v1 != v2,
    ensures
        m3736_step(a1, v1) != m3736_step(a2, v2),
        1 <= m3736_step(a1, v1) <= 36,
{
}

/// Distinct characters have distinct Mod 37,36 values.
proof fn lemma_m3736_value_injective(c1: char, c2: char)
    requires
        m3736_value(c1) is Some,
        m3736_value(c2) is Some,
        c1 != c2,
    ensures
        m3736_value(c1) != m3736_value(c2),
        m3736_value(c1).unwrap() <= 35,
{
    assert((c1 as u32) != (c2 as u32));
}

/// Changing one character changes the final running value.
proof fn lemma_m3736_run_differs(s1: Seq<char>, s2: Seq<char>, k: int)
    requires
        m3736_all_valued(s1),
        m3736_all_valued(s2),
        differ_only_at(s1, s2, k),
    ensures
        m3736_run(s1) != m3736_run(s2),
    decreases s1.len(),
{
    let n = s1.len();
    let p1 = s1.drop_last();
    let p2 = s2.drop_last();
    assert forall|i: int| 0 <= i < p1.len() implies (#[trigger] m3736_value(p1[i])) is Some by {
        assert(p1[i] == s1[i]);
    }
    assert forall|i: int| 0 <= i < p2.len() implies (#[trigger] m3736_value(p2[i])) is Some by {
        assert(p2[i] == s2[i]);
    }
    lemma_m3736_run_positive(p1);
    lemma_m3736_run_positive(p2);
    assert(m3736_value(s1[n - 1]) is Some);
    assert(m3736_value(s2[n - 1]) is Some);
    let v1 = m3736_value(s1.last()).unwrap();
    let v2 = m3736_value(s2.last()).unwrap();
    if k == n - 1 {
        assert(p1 =~= p2);
        lemma_m3736_value_injective(s1.last(), s2.last());
        lemma_m3736_value_injective(s2.last(), s1.last());
        lemma_m3736_step_injective(m3736_run(p1), v1, m3736_run(p2), v2);
    } else {
        assert(s1.last() == s2.last());
        assert forall|j: int| 0 <= j < p1.len() && j != k implies p1[j] == p2[j] by {
            assert(s1[j] == s2[j]);
        }
        lemma_m3736_run_differs(p1, p2, k);
        assert(v1 <= 35);
        lemma_m3736_step_injective(m3736_run(p1), v1, m3736_run(p2), v2);
    }
}

/// Law: changing one character of a serial of digits and upper-case letters
/// changes its Mod 37,36 check character, so no check accepts both.
pub proof fn lemma_mod37_36_detects_single_substitution(
    s1: Seq<char>,
    s2: Seq<char>,
    k: int,
    cd: Seq<char>,
)
    requires
        m3736_all_valued(s1),
        m3736_all_valued(s2),
        differ_only_at(s1, s2, k),
    ensures
        Mod37_36.check_char(s1) != Mod37_36.check_char(s2),
        !(Mod37_36.accepts(s1, cd) && Mod37_36.accepts(s2, cd)),
{
    lemma_m3736_run_differs(s1, s2, k);
    lemma_m3736_run_positive(s1);
    lemma_m3736_run_positive(s2);
    let x1 = m3736_check_of_run(m3736_run(s1));
    let x2 = m3736_check_of_run(m3736_run(s2));
    assert(x1 != x2);
    assert(x1 <= 35 && x2 <= 35);
    let c1 = m3736_char(x1);
    let c2 = m3736_char(x2);
    if x1 < 10 {
        assert((c1 as u32) == 48 + x1);
    } else {
        assert((c1 as u32) == 65 + x1 - 10);
    }
    if x2 < 10 {
        assert((c2 as u32) == 48 + x2);
    } else {
        assert((c2 as u32) == 65 + x2 - 10);
    }
    assert((c1 as u32) != (c2 as u32));
}

/// Different digits contribute different Luhn terms.
proof fn lemma_luhn_term_injective(d1: nat, d2: nat, double: bool)
    requires
        d1 <= 9,
        d2 <= 9,
        d1 != d2,
    ensures
        luhn_term(d1, double) != luhn_term(d2, double),
        luhn_term(d1, double) <= 9,
        luhn_term(d2, double) <= 9,
{
}

/// Changing one digit changes the Luhn sum by 1 to 9 either way.
proof fn lemma_luhn_total_differs(r1: Seq<char>, r2: Seq<char>, k: int)
    requires
        all_ascii_digits(r1),
        all_ascii_digits(r2),
        differ_only_at(r1, r2, k),
    ensures
        luhn_total(r1) != luhn_total(r2),
        -9 <= luhn_total(r1) - luhn_total(r2) <= 9,
    decreases r1.len(),
{
    let n = r1.len();
    let p1 = r1.drop_last();
    let p2 = r2.drop_last();
    assert(is_ascii_digit(r1[n - 1]));
    assert(is_ascii_digit(r2[n - 1]));
    if k == n - 1 {
        assert(p1 =~= p2);
        if (r1.last() as u32) == (r2.last() as u32) {
            vstd::utf8::char_u32_cast(r1.last(), r1.last() as u32);
            vstd::utf8::char_u32_cast(r2.last(), r2.last() as u32);
        }
        lemma_luhn_term_injective(digit_of(r1.last()), digit_of(r2.last()), (n - 1) % 2 == 0);
    } else {
        assert(r1.last() == r2.last());
        assert forall|i: int| 0 <= i < p1.len() implies is_ascii_digit(#[trigger] p1[i]) by {
            assert(p1[i] == r1[i]);
        }
        assert forall|i: int| 0 <= i < p2.len() implies is_ascii_digit(#[trigger] p2[i]) by {
            assert(p2[i] == r2[i]);
        }
        assert forall|j: int| 0 <= j < p1.len() && j != k implies p1[j] == p2[j] by {
            assert(r1[j] == r2[j]);
        }
        lemma_luhn_total_differs(p1, p2, k);
    }
}

/// Law: changing one digit of a serial of digits changes its Luhn check
/// digit, so no check digit accepts both, as long as the Luhn sums stay below
/// 2^32 (beyond, the `u32` sum wraps).
pub proof fn lemma_luhn_detects_single_substitution(
    s1: Seq<char>,
    s2: Seq<char>,
    k: int,
    cd: Seq<char>,
)
    requires
        all_ascii_digits(s1),
        all_ascii_digits(s2),
        differ_only_at(s1, s2, k),
        luhn_total(s1.reverse()) < u32_modulus(),
        luhn_total(s2.reverse()) < u32_modulus(),
    ensures
        Luhn.check_value(s1) != Luhn.check_value(s2),
        !(Luhn.accepts(s1, cd) && Luhn.accepts(s2, cd)),
{
    let n = s1.len();
    let r1 = s1.reverse();
    let r2 = s2.reverse();
    assert forall|i: int| 0 <= i < r1.len() implies is_ascii_digit(#[trigger] r1[i]) by {
        assert(r1[i] == s1[n - 1 - i]);
    }
    assert forall|i: int| 0 <= i < r2.len() implies is_ascii_digit(#[trigger] r2[i]) by {
        assert(r2[i] == s2[n - 1 - i]);
    }
    assert(r1[n - 1 - k] == s1[k]);
    assert(r2[n - 1 - k] == s2[k]);
    assert forall|j: int| 0 <= j < r1.len() && j != n - 1 - k implies r1[j] == r2[j] by {
        assert(r1[j] == s1[n - 1 - j]);
        assert(r2[j] == s2[n - 1 - j]);
    }
    lemma_luhn_total_differs(r1, r2, n - 1 - k);
    let t1 = luhn_total(r1);
    let t2 = luhn_total(r2);
    assert(t1 % u32_modulus() == t1);
    assert(t2 % u32_modulus() == t2);
    assert(t1 % 10 != t2 % 10);
}

/// The digits of `a + b` are those of `a`, then those of `b`.
pub proof fn lemma_digits_of_concat(a: Seq<char>, b: Seq<char>)
    ensures
        digits_of(a + b) == digits_of(a) + digits_of(b),
    decreases b.len(),
{
    if b.len() == 0 {
        assert(a + b =~= a);
        assert(digits_of(a) + digits_of(b) =~= digits_of(a));
    } else {
        lemma_digits_of_concat(a, b.drop_last());
        assert((a + b).drop_last() =~= a + b.drop_last());
        assert((a + b).last() == b.last());
        if is_ascii_digit(b.last()) {
            assert(digits_of(a) + digits_of(b.drop_last()).push(digit_of(b.last()))
                =~= (digits_of(a) + digits_of(b.drop_last())).push(digit_of(b.last())));
        }
    }
}

/// A string without ASCII digits has no digits to contribute.
proof fn lemma_digits_of_no_digits(s: Seq<char>)
    requires
        forall|i: int| 0 <= i < s.len() ==> !is_ascii_digit(#[trigger] s[i]),
    ensures
        digits_of(s) == Seq::<nat>::empty(),
    decreases s.len(),
{
    if s.len() > 0 {
        let p = s.drop_last();
        assert forall|i: int| 0 <= i < p.len() implies !is_ascii_digit(#[trigger] p[i]) by {
            assert(p[i] == s[i]);
        }
        lemma_digits_of_no_digits(p);
    }
}

/// Inserting characters that are not ASCII digits leaves the digits of a
/// string as they were.
proof fn lemma_digits_of_insert_non_digits(a: Seq<char>, ins: Seq<char>, b: Seq<char>)
    requires
        forall|i: int| 0 <= i < ins.len() ==> !is_ascii_digit(#[trigger] ins[i]),
    ensures
        digits_of(a + ins + b) == digits_of(a + b),
{
    lemma_digits_of_no_digits(ins);
    lemma_digits_of_concat(a, ins);
    lemma_digits_of_concat(a + ins, b);
    lemma_digits_of_concat(a, b);
    assert(digits_of(a) + digits_of(ins) =~= digits_of(a));
}

/// Law: the sum-of-products scheme reads only the digits of the serial, so
/// inserting characters that are not ASCII digits anywhere in it changes
/// neither what it accepts nor where it is defined.
pub proof fn lemma_sum_product_ignores_inserted_non_digits(
    v: SumProduct,
    a: Seq<char>,
    ins: Seq<char>,
    b: Seq<char>,
    cd: Seq<char>,
)
    requires
        forall|i: int| 0 <= i < ins.len() ==> !is_ascii_digit(#[trigger] ins[i]),
    ensures
        v.accepts(a + ins + b, cd) == v.accepts(a + b, cd),
        v.defined_on(a + ins + b, cd) == v.defined_on(a + b, cd),
{
    lemma_digits_of_insert_non_digits(a, ins, b);
}

/// Law: the S10 scheme reads only the digits of the serial, so inserting
/// characters that are not ASCII digits anywhere in it does not change what
/// it accepts.
pub proof fn lemma_s10_ignores_inserted_non_digits(
    a: Seq<char>,
    ins: Seq<char>,
    b: Seq<char>,
    cd: Seq<char>,
)
    requires
        forall|i: int| 0 <= i < ins.len() ==> !is_ascii_digit(#[trigger] ins[i]),
    ensures
        S10.accepts(a + ins + b, cd) == S10.accepts(a + b, cd),
{
    lemma_digits_of_insert_non_digits(a, ins, b);
}

// ---------------------------------------------------------------------------
// Laws on the values and positions each scheme reads
// ---------------------------------------------------------------------------

/// An ASCII upper-case letter.
pub open spec fn is_ascii_upper(c: char) -> bool {
    'A' <= c && c <= 'Z'
}

/// Law: in the Mod 37,36 scheme the digits `0` to `9` are worth 0 to 9 and
/// every upper-case letter `A` to `Z` is worth 10 to 35, in alphabet order.
pub proof fn lemma_mod37_36_character_values(c: char)
    ensures
        '0' <= c && c <= '9' ==> m3736_value(c) == Some(((c as u32) - ('0' as u32)) as nat),
        is_ascii_upper(c) ==> m3736_value(c) == Some(((c as u32) - ('A' as u32) + 10) as nat),
        !('0' <= c && c <= '9') && !is_ascii_upper(c) ==> m3736_value(c) is None,
{
}

/// Law: a serial made of digits and upper-case letters, any of them, always
/// gets a check character, itself a digit or an upper-case letter, and is
/// accepted with it.
pub proof fn lemma_mod37_36_accepts_every_alphanumeric_serial(seq: Seq<char>)
    requires
        forall|i: int| 0 <= i < seq.len() ==> ('0' <= #[trigger] seq[i] && seq[i] <= '9')
            || is_ascii_upper(seq[i]),
    ensures
        ('0' <= Mod37_36.check_char(seq) && Mod37_36.check_char(seq) <= '9') || is_ascii_upper(
            Mod37_36.check_char(seq),
        ),
        Mod37_36.accepts(seq, seq![Mod37_36.check_char(seq)]),
{
    assert forall|i: int| 0 <= i < seq.len() implies (#[trigger] m3736_value(seq[i])) is Some by {
        lemma_mod37_36_character_values(seq[i]);
    }
    lemma_mod37_36_computed_char_accepted(seq);
    lemma_m3736_run_positive(seq);
    let x = m3736_check_of_run(m3736_run(seq));
    let c = m3736_char(x);
    if x < 10 {
        assert((c as u32) == 48 + x);
    } else {
        assert((c as u32) == 65 + x - 10);
    }
}

/// Law: a mod-10 scheme that counts positions from the end gives, for a
/// serial, what the same scheme counting from the start gives for the serial
/// written backwards: the last character takes the even multiplier, the one
/// before it the odd one, and so on.
pub proof fn lemma_mod10_reverse_reads_backwards(
    evens: u32,
    odds: u32,
    seq: Seq<char>,
    cd: Seq<char>,
)
    ensures
        (Mod10 { evens_multiplier: evens, odds_multiplier: odds, reverse: true }).check_value(seq)
            == (Mod10 { evens_multiplier: evens, odds_multiplier: odds, reverse: false }).check_value(
            seq.reverse(),
        ),
        (Mod10 { evens_multiplier: evens, odds_multiplier: odds, reverse: true }).accepts(seq, cd)
            == (Mod10 { evens_multiplier: evens, odds_multiplier: odds, reverse: false }).accepts(
            seq.reverse(),
            cd,
        ),
{
    assert(seq.reverse().reverse() =~= seq);
}

/// Law: counting from the start, the first character takes the even
/// multiplier and the second the odd one.
pub proof fn lemma_mod10_first_positions(evens: u32, odds: u32, a: char, b: char)
    ensures
        (Mod10 { evens_multiplier: evens, odds_multiplier: odds, reverse: false }).check_value(
            seq![a],
        ) == complement_to_ten((mod10_char_value(a) * (evens as nat)) % u32_modulus()),
        (Mod10 { evens_multiplier: evens, odds_multiplier: odds, reverse: false }).check_value(
            seq![a, b],
        ) == complement_to_ten(
            (mod10_char_value(a) * (evens as nat) + mod10_char_value(b) * (odds as nat)) % u32_modulus(),
        ),
{
    let e = Seq::<char>::empty();
    assert(seq![a].drop_last() =~= e);
    assert(mod10_total(e, evens, odds) == 0);
    assert(mod10_total(seq![a], evens, odds) == mod10_total(e, evens, odds) + mod10_char_value(a)
        * (evens as nat));
    assert(seq![a, b].drop_last() =~= seq![a]);
    assert(mod10_total(seq![a, b], evens, odds) == mod10_total(seq![a], evens, odds)
        + mod10_char_value(b) * (odds as nat));
}

/// A digit doubled, its two digits summed.
pub open spec fn doubled_digit_sum(d: nat) -> nat {
    if 2 * d > 9 {
        (2 * d - 9) as nat
    } else {
        2 * d
    }
}

/// Luhn sums add up over a split after an even number of characters.
proof fn lemma_luhn_total_concat(p: Seq<char>, q: Seq<char>)
    requires
        p.len() % 2 == 0,
    ensures
        luhn_total(p + q) == luhn_total(p) + luhn_total(q),
    decreases q.len(),
{
    if q.len() == 0 {
        assert(p + q =~= p);
    } else {
        lemma_luhn_total_concat(p, q.drop_last());
        assert((p + q).drop_last() =~= p + q.drop_last());
        assert((p + q).last() == q.last());
    }
}

/// A Luhn sum of digits is at most nine per digit.
proof fn lemma_luhn_total_bound(r: Seq<char>)
    requires
        all_ascii_digits(r),
    ensures
        luhn_total(r) <= 9 * r.len(),
    decreases r.len(),
{
    if r.len() > 0 {
        assert forall|i: int| 0 <= i < r.drop_last().len() implies is_ascii_digit(
            #[trigger] r.drop_last()[i],
        ) by {
            assert(r.drop_last()[i] == r[i]);
        }
        lemma_luhn_total_bound(r.drop_last());
        assert(is_ascii_digit(r[r.len() - 1]));
    }
}

/// Law: the Luhn check digit of a one-digit serial doubles that digit (the
/// last digit is always doubled), and an empty serial has check digit 0.
pub proof fn lemma_luhn_last_digit_doubled(c: char)
    requires
        is_ascii_digit(c),
    ensures
        Luhn.check_value(Seq::<char>::empty()) == 0,
        Luhn.check_value(seq![c]) == (10 - doubled_digit_sum(digit_of(c)) % 10) % 10,
{
    let e = Seq::<char>::empty();
    assert(e.reverse() =~= e);
    assert(luhn_total(e) == 0);
    assert(Luhn.check_value(e) == complement_to_ten(0nat % u32_modulus()));
    assert(seq![c].reverse() =~= seq![c]);
    assert(seq![c].drop_last() =~= e);
    assert(luhn_total(seq![c]) == luhn_term(digit_of(c), true));
    assert(luhn_term(digit_of(c), true) == doubled_digit_sum(digit_of(c)));
    assert(digit_of(c) <= 9);
    let t = luhn_total(seq![c]);
    assert(t <= 18);
    assert(t % u32_modulus() == t);
}

/// Law: appending two digits `a`, `b` to a serial of digits adds `a` and `b`
/// doubled to its Luhn sum, whatever the serial's length: the check digit
/// moves down by that much, modulo 10 (for serials short enough that the sum
/// stays below 2^32).
pub proof fn lemma_luhn_append_pair(s: Seq<char>, a: char, b: char)
    requires
        all_ascii_digits(s),
        is_ascii_digit(a),
        is_ascii_digit(b),
        s.len() < 400_000_000,
    ensures
        Luhn.check_value(s + seq![a, b]) == (Luhn.check_value(s) + 20 - digit_of(a)
            - doubled_digit_sum(digit_of(b))) % 10,
{
    let r = s.reverse();
    let pair = seq![b, a];
    assert((s + seq![a, b]).reverse() =~= pair + r);
    lemma_luhn_total_concat(pair, r);
    let e = Seq::<char>::empty();
    assert(pair.drop_last() =~= seq![b]);
    assert(pair.last() == a);
    assert(seq![b].drop_last() =~= e);
    assert(luhn_total(e) == 0);
    assert(luhn_total(seq![b]) == luhn_term(digit_of(b), true));
    assert(luhn_total(pair) == luhn_total(seq![b]) + luhn_term(digit_of(a), false));
    assert(luhn_total(pair) == doubled_digit_sum(digit_of(b)) + digit_of(a));
    assert(all_ascii_digits(r)) by {
        assert forall|i: int| 0 <= i < r.len() implies is_ascii_digit(#[trigger] r[i]) by {
            assert(r[i] == s[s.len() - 1 - i]);
        }
    }
    lemma_luhn_total_bound(r);
    let t = luhn_total(r);
    let t2 = luhn_total(pair + r);
    assert(t2 == t + digit_of(a) + doubled_digit_sum(digit_of(b)));
    assert(t2 < u32_modulus());
    assert(t % u32_modulus() == t);
    assert(t2 % u32_modulus() == t2);
    let x = digit_of(a) + doubled_digit_sum(digit_of(b));
    lemma_complement_to_ten_shift(t, x);
}

/// Adding `x` to a sum moves its complement to ten down by `x`, modulo 10.
proof fn lemma_complement_to_ten_shift(t: nat, x: nat)
    requires
        x <= 18,
    ensures
        complement_to_ten(t + x) == (complement_to_ten(t) + 20 - x) % 10,
{
    let r = t % 10;
    lemma_add_mod_noop(t as int, x as int, 10);
    assert((r + x % 10) % 10 == (t + x) % 10);
    assert(((10 - (r + x) % 10) % 10) as int == ((((10 - r) % 10) as int) + 20 - x) % 10)
        by (nonlinear_arith)
        requires
            r < 10,
            x <= 18,
    ;
    assert((r + x % 10) % 10 == (r + x) % 10) by (nonlinear_arith)
        requires
            x <= 18,
    ;
}

/// Law: in a mod-10 sum a digit is worth its value and an upper-case letter
/// its character code minus 3, modulo 10 (`A` is worth 2, `Z` 7).
pub proof fn lemma_mod10_character_values(c: char)
    ensures
        is_ascii_digit(c) ==> mod10_char_value(c) == (c as u32) - 48,
        is_ascii_upper(c) ==> mod10_char_value(c) == ((c as u32) - 3) % 10,
{
}

/// The digits of a string of ASCII digits are the values of its characters.
proof fn lemma_digits_of_all_digits(s: Seq<char>)
    requires
        all_ascii_digits(s),
    ensures
        digits_of(s) == Seq::new(s.len(), |i: int| digit_of(s[i])),
    decreases s.len(),
{
    if s.len() > 0 {
        let p = s.drop_last();
        assert forall|i: int| 0 <= i < p.len() implies is_ascii_digit(#[trigger] p[i]) by {
            assert(p[i] == s[i]);
        }
        lemma_digits_of_all_digits(p);
        assert(is_ascii_digit(s[s.len() - 1]));
        assert(digits_of(s) =~= Seq::new(s.len(), |i: int| digit_of(s[i])));
    }
}

/// Law: the S10 check digit of eight digits `d0 ... d7` comes from the sum
/// `8 d0 + 6 d1 + 4 d2 + 2 d3 + 3 d4 + 5 d5 + 9 d6 + 7 d7`: with `r` its
/// remainder modulo 11, it is `11 - r`, except that a remainder of 0 gives 5
/// and a remainder of 1 gives 0.
#[verifier::rlimit(40)]
pub proof fn lemma_s10_weights_and_remainder(seq: Seq<char>)
    requires
        seq.len() == 8,
        all_ascii_digits(seq),
    ensures
        ({
            let sum = 8 * digit_of(seq[0]) + 6 * digit_of(seq[1]) + 4 * digit_of(seq[2]) + 2
                * digit_of(seq[3]) + 3 * digit_of(seq[4]) + 5 * digit_of(seq[5]) + 9 * digit_of(
                seq[6],
            ) + 7 * digit_of(seq[7]);
            let r = sum % 11;
            S10.check_value(seq) == if r == 0 {
                5
            } else if r == 1 {
                0
            } else {
                11 - r
            }
        }),
{
    lemma_digits_of_all_digits(seq);
    let ds = digits_of(seq);
    let ws = s10_weights();
    reveal_with_fuel(weighted_sum, 9);
    assert(ds.take(0) =~= Seq::<nat>::empty());
    assert forall|k: int| 1 <= k <= 8 implies #[trigger] ds.take(k).drop_last() =~= ds.take(k - 1) by {}
    assert(weighted_sum(ds.take(1), ws) == ds[0] * 8);
    assert(weighted_sum(ds.take(2), ws) == weighted_sum(ds.take(1), ws) + ds[1] * 6);
    assert(weighted_sum(ds.take(3), ws) == weighted_sum(ds.take(2), ws) + ds[2] * 4);
    assert(weighted_sum(ds.take(4), ws) == weighted_sum(ds.take(3), ws) + ds[3] * 2);
    assert(weighted_sum(ds.take(5), ws) == weighted_sum(ds.take(4), ws) + ds[4] * 3);
    assert(weighted_sum(ds.take(6), ws) == weighted_sum(ds.take(5), ws) + ds[5] * 5);
    assert(weighted_sum(ds.take(7), ws) == weighted_sum(ds.take(6), ws) + ds[6] * 9);
    assert(weighted_sum(ds.take(8), ws) == weighted_sum(ds.take(7), ws) + ds[7] * 7);
    assert(ds.take(8) =~= ds);
    let sum = 8 * digit_of(seq[0]) + 6 * digit_of(seq[1]) + 4 * digit_of(seq[2]) + 2 * digit_of(
        seq[3],
    ) + 3 * digit_of(seq[4]) + 5 * digit_of(seq[5]) + 9 * digit_of(seq[6]) + 7 * digit_of(seq[7]);
    assert(ds[0] == digit_of(seq[0]) && ds[1] == digit_of(seq[1]) && ds[2] == digit_of(seq[2])
        && ds[3] == digit_of(seq[3]));
    assert(ds[4] == digit_of(seq[4]) && ds[5] == digit_of(seq[5]) && ds[6] == digit_of(seq[6])
        && ds[7] == digit_of(seq[7]));
    assert(weighted_sum(ds, ws) == ds[0] * 8 + ds[1] * 6 + ds[2] * 4 + ds[3] * 2 + ds[4] * 3 + ds[5]
        * 5 + ds[6] * 9 + ds[7] * 7);
    let (d0, d1, d2, d3) = (ds[0], ds[1], ds[2], ds[3]);
    let (d4, d5, d6, d7) = (ds[4], ds[5], ds[6], ds[7]);
    assert(d0 * 8 + d1 * 6 + d2 * 4 + d3 * 2 + d4 * 3 + d5 * 5 + d6 * 9 + d7 * 7 == 8 * d0 + 6 * d1
        + 4 * d2 + 2 * d3 + 3 * d4 + 5 * d5 + 9 * d6 + 7 * d7) by (nonlinear_arith);
    assert(weighted_sum(ds, ws) == sum);
    assert(S10.check_value(seq) == s10_check_of_sum(sum));
}

/// Law: the digit at position `i` counts with the weight at position `i`:
/// replacing it by `x` changes the weighted sum by `(x - d) * w[i]`.
pub proof fn lemma_weighted_sum_update(ds: Seq<nat>, ws: Seq<u32>, i: int, x: nat)
    requires
        0 <= i < ds.len(),
    ensures
        weighted_sum(ds.update(i, x), ws) == weighted_sum(ds, ws) - ds[i] * (ws[i] as nat) + x * (
        ws[i] as nat),
    decreases ds.len(),
{
    let u = ds.update(i, x);
    if i == ds.len() - 1 {
        assert(u.drop_last() =~= ds.drop_last());
    } else {
        lemma_weighted_sum_update(ds.drop_last(), ws, i, x);
        assert(u.drop_last() =~= ds.drop_last().update(i, x));
        assert(u.last() == ds.last());
    }
}

/// Law: in a mod-10 sum counted from the start, the character at position
/// `i` counts with the even multiplier when `i` is even and the odd one when
/// `i` is odd: replacing it by `c` changes the sum by the difference of the
/// two characters' values times that multiplier.
pub proof fn lemma_mod10_total_update(chars: Seq<char>, evens: u32, odds: u32, i: int, c: char)
    requires
        0 <= i < chars.len(),
    ensures
        ({
            let m: nat = if i % 2 == 0 {
                evens as nat
            } else {
                odds as nat
            };
            mod10_total(chars.update(i, c), evens, odds) == mod10_total(chars, evens, odds)
                - mod10_char_value(chars[i]) * m + mod10_char_value(c) * m
        }),
    decreases chars.len(),
{
    let u = chars.update(i, c);
    if i == chars.len() - 1 {
        assert(u.drop_last() =~= chars.drop_last());
    } else {
        lemma_mod10_total_update(chars.drop_last(), evens, odds, i, c);
        assert(u.drop_last() =~= chars.drop_last().update(i, c));
        assert(u.last() == chars.last());
    }
}

/// Law (the ISO 7064 hybrid-system check): running the Mod 37,36 computation
/// over a serial followed by its own check character ends at 2, that is, the
/// check character's value added to the serial's running value gives 1
/// modulo 36.
pub proof fn lemma_mod37_36_check_closes_the_run(seq: Seq<char>)
    requires
        m3736_all_valued(seq),
    ensures
        m3736_value(Mod37_36.check_char(seq)) is Some,
        (m3736_value(Mod37_36.check_char(seq)).unwrap() + m3736_run(seq)) % 36 == 1,
        m3736_run(seq.push(Mod37_36.check_char(seq))) == 2,
{
    lemma_m3736_run_positive(seq);
    let x = m3736_check_of_run(m3736_run(seq));
    let c = m3736_char(x);
    if x < 10 {
        assert((c as u32) == 48 + x);
    } else {
        assert((c as u32) == 65 + x - 10);
    }
    assert(m3736_value(c) == Some(x));
    assert(seq.push(c).drop_last() =~= seq);
}

} // verus!
