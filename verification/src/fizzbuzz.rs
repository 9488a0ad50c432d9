//! A configurable fizz-buzz engine: a list of divisibility rules is applied
//! to a list of values; every value is replaced by the words of the rules
//! that match it, joined in order, or by its decimal text when none match.

use vstd::prelude::*;
use vstd::arithmetic::div_mod::{
    lemma_fundamental_div_mod, lemma_mod_multiples_basic,
};
use vstd::math::abs;
use vstd::string::StringExecFns;

verus! {

/// `m` divides `n`.
pub open spec fn spec_divides(m: int, n: int) -> bool {
    exists|k: int| n == #[trigger] (k * m)
}

/// For a positive modulus, divisibility is a zero remainder.
pub proof fn lemma_divides_iff_mod(n: int, m: int)
    requires
        m > 0,
    ensures
        spec_divides(m, n) == (n % m == 0),
{
    if n % m == 0 {
        lemma_fundamental_div_mod(n, m);
        assert(n == m * (n / m));
        assert(m * (n / m) == (n / m) * m) by (nonlinear_arith);
        assert(n == (n / m) * m);
    }
    if spec_divides(m, n) {
        let k = choose|k: int| n == #[trigger] (k * m);
        lemma_mod_multiples_basic(k, m);
    }
}

/// Divisibility is unaffected by the signs of either side.
pub proof fn lemma_divides_abs(n: int, m: int)
    requires
        m != 0,
    ensures
        spec_divides(abs(m) as int, abs(n) as int) == spec_divides(m, n),
{
    let an = abs(n) as int;
    let am = abs(m) as int;
    if spec_divides(am, an) {
        let k = choose|k: int| an == #[trigger] (k * am);
        let k2: int = if (n >= 0) == (m >= 0) {
            k
        } else {
            -k
        };
        assert(n == k2 * m) by (nonlinear_arith)
            requires
                an == k * am,
                am == (if m >= 0 { m } else { -m }),
                an == (if n >= 0 { n } else { -n }),
                k2 == (if (n >= 0) == (m >= 0) { k } else { -k }),
        {}
    }
    if spec_divides(m, n) {
        let k = choose|k: int| n == #[trigger] (k * m);
        let k2: int = if (n >= 0) == (m >= 0) {
            k
        } else {
            -k
        };
        assert(an == k2 * am) by (nonlinear_arith)
            requires
                n == k * m,
                am == (if m >= 0 { m } else { -m }),
                an == (if n >= 0 { n } else { -n }),
                k2 == (if (n >= 0) == (m >= 0) { k } else { -k }),
        {}
    }
}

/// The character for one decimal digit.
pub open spec fn digit_char(d: int) -> char {
    if d == 0 {
        '0'
    } else if d == 1 {
        '1'
    } else if d == 2 {
        '2'
    } else if d == 3 {
        '3'
    } else if d == 4 {
        '4'
    } else if d == 5 {
        '5'
    } else if d == 6 {
        '6'
    } else if d == 7 {
        '7'
    } else if d == 8 {
        '8'
    } else {
        '9'
    }
}

/// The decimal digits of a natural number, most significant first, with no
/// leading zeros (except for zero itself).
pub open spec fn spec_digits(n: nat) -> Seq<char>
    decreases n,
{
    if n < 10 {
        seq![digit_char(n as int)]
    } else {
        spec_digits(n / 10) + seq![digit_char((n % 10) as int)]
    }
}

/// The decimal text of an integer: a leading minus sign when negative.
pub open spec fn spec_decimal(n: int) -> Seq<char> {
    if n < 0 {
        seq!['-'] + spec_digits((-n) as nat)
    } else {
        spec_digits(n as nat)
    }
}

/// Relies on `u64`'s `ToString`/`Display` implementation: plain decimal
/// digits, no sign, no padding, no leading zeros.
#[verifier::external_body]
pub(crate) fn u64_to_text(n: u64) -> (r: String)
    ensures
        r@ == spec_digits(n as nat),
{
    n.to_string()
}

/// A value the fizz-buzz rules can speak about: it has a mathematical value,
/// can be built from a small constant, tested for divisibility, and printed.
pub trait Numeric: Sized + Copy {
    /// The mathematical value.
    spec fn as_int(&self) -> int;

    /// The value `v` in this type.
    fn from_small(v: u8) -> (r: Self)
        ensures
            r.as_int() == v as int,
    ;

    /// Whether `m` divides the value.
    fn divisible_by(&self, m: &Self) -> (r: bool)
        requires
            m.as_int() != 0,
        ensures
            r == spec_divides(m.as_int(), self.as_int()),
    ;

    /// The value in decimal text.
    fn to_text(&self) -> (r: String)
        ensures
            r@ == spec_decimal(self.as_int()),
    ;
}

impl Numeric for u8 {
    open spec fn as_int(&self) -> int {
        *self as int
    }

    fn from_small(v: u8) -> (r: Self) {
        v
    }

    fn divisible_by(&self, m: &Self) -> (r: bool) {
        proof {
            lemma_divides_iff_mod(*self as int, *m as int);
        }
        *self % *m == 0
    }

    fn to_text(&self) -> (r: String) {
        u64_to_text(*self as u64)
    }
}

impl Numeric for u64 {
    open spec fn as_int(&self) -> int {
        *self as int
    }

    fn from_small(v: u8) -> (r: Self) {
        v as u64
    }

    fn divisible_by(&self, m: &Self) -> (r: bool) {
        proof {
            lemma_divides_iff_mod(*self as int, *m as int);
        }
        *self % *m == 0
    }

    fn to_text(&self) -> (r: String) {
        u64_to_text(*self)
    }
}

impl Numeric for i32 {
    open spec fn as_int(&self) -> int {
        *self as int
    }

    fn from_small(v: u8) -> (r: Self) {
        v as i32
    }

    fn divisible_by(&self, m: &Self) -> (r: bool) {
        let a: u64 = if *self < 0 {
            (-(*self as i64)) as u64
        } else {
            *self as u64
        };
        let b: u64 = if *m < 0 {
            (-(*m as i64)) as u64
        } else {
            *m as u64
        };
        proof {
            assert(a == abs(self.as_int()));
            assert(b == abs(m.as_int()));
            lemma_divides_iff_mod(a as int, b as int);
            lemma_divides_abs(self.as_int(), m.as_int());
        }
        a % b == 0
    }

    fn to_text(&self) -> (r: String) {
        if *self < 0 {
            let digits = u64_to_text((-(*self as i64)) as u64);
            let mut s = "-".to_owned();
            s.append(digits.as_str());
            proof {
                reveal_strlit("-");
                assert(s@ =~= spec_decimal(self.as_int()));
            }
            s
        } else {
            u64_to_text(*self as u64)
        }
    }
}

/// One substitution rule: values the modulus divides are replaced by the
/// word.
pub struct Matcher<T: Numeric> {
    modulus: T,
    substitute_with: String,
}

impl<T: Numeric> Matcher<T> {
    /// The modulus of the rule.
    pub closed spec fn modulus_val(&self) -> int {
        self.modulus.as_int()
    }

    /// The substitution word of the rule.
    pub closed spec fn word(&self) -> Seq<char> {
        self.substitute_with@
    }

    /// A usable rule never has a zero modulus.
    pub open spec fn wf(&self) -> bool {
        self.modulus_val() != 0
    }

    /// A rule that substitutes `substitute_with` for multiples of `modulus`.
    pub fn new(modulus: T, substitute_with: &str) -> (r: Matcher<T>)
        requires
            modulus.as_int() != 0,
        ensures
            r.wf(),
            r.modulus_val() == modulus.as_int(),
            r.word() == substitute_with@,
    {
        Matcher { modulus, substitute_with: substitute_with.to_owned() }
    }
}

/// A rule as a pair: modulus, then substitution word.
pub type Rule = (int, Seq<char>);

/// Some rule in the list matches `v`.
pub open spec fn any_match(rules: Seq<Rule>, v: int) -> bool {
    exists|i: int| 0 <= i < rules.len() && spec_divides(rules[i].0, v)
}

/// The words of the rules from position `i` on that match `v`, joined.
pub open spec fn subs_from(rules: Seq<Rule>, i: int, v: int) -> Seq<char>
    decreases rules.len() - i,
{
    if i < 0 || i >= rules.len() {
        Seq::empty()
    } else {
        (if spec_divides(rules[i].0, v) {
            rules[i].1
        } else {
            Seq::empty()
        }) + subs_from(rules, i + 1, v)
    }
}

/// What the engine prints for one value: the joined words of the matching
/// rules, or the decimal text of the value when no rule matches.
pub open spec fn spec_apply_one(rules: Seq<Rule>, v: int) -> Seq<char> {
    if any_match(rules, v) {
        subs_from(rules, 0, v)
    } else {
        spec_decimal(v)
    }
}

/// An ordered list of substitution rules.
pub struct Fizzy<T: Numeric> {
    matchers: Vec<Matcher<T>>,
}

impl<T: Numeric> Fizzy<T> {
    /// The rules, in application order.
    pub closed spec fn rules(&self) -> Seq<Rule> {
        self.matchers@.map_values(|m: Matcher<T>| (m.modulus_val(), m.word()))
    }

    /// Every rule has a nonzero modulus.
    pub open spec fn wf(&self) -> bool {
        forall|i: int| 0 <= i < self.rules().len() ==> (#[trigger] self.rules()[i]).0 != 0
    }

    /// An engine with no rules.
    pub fn new() -> (r: Self)
        ensures
            r.wf(),
            r.rules() == Seq::<Rule>::empty(),
    {
        Self::default()
    }

    /// Appends one rule after the existing ones.
    pub fn add_matcher(self, matcher: Matcher<T>) -> (r: Self)
        requires
            matcher.wf(),
        ensures
            r.rules() == self.rules().push((matcher.modulus_val(), matcher.word())),
            self.wf() ==> r.wf(),
    {
        let mut matchers = self.matchers;
        proof {
            assert(matchers@.map_values(|m: Matcher<T>| (m.modulus_val(), m.word()))
                == self.rules());
        }
        matchers.push(matcher);
        let r = Fizzy { matchers };
        proof {
            assert(r.rules() =~= self.rules().push((matcher.modulus_val(), matcher.word())));
        }
        r
    }

    /// What one value becomes under the rules.
    fn apply_one(&self, v: &T) -> (r: String)
        requires
            self.wf(),
        ensures
            r@ == spec_apply_one(self.rules(), v.as_int()),
    {
        let ghost rules = self.rules();
        let ghost vi = v.as_int();
        let mut acc = String::new();
        let mut matched = false;
        let n = self.matchers.len();
        for j in 0..n
            invariant
                self.wf(),
                rules == self.rules(),
                vi == v.as_int(),
                n == self.matchers@.len(),
                n == rules.len(),
                matched == any_match(rules.take(j as int), vi),
                acc@ + subs_from(rules, j as int, vi) == subs_from(rules, 0, vi),
        {
            proof {
                assert(rules[j as int] == (self.matchers@[j as int].modulus_val(),
                    self.matchers@[j as int].word()));
            }
            let matcher = &self.matchers[j];
            if v.divisible_by(&matcher.modulus) {
                matched = true;
                acc.append(matcher.substitute_with.as_str());
                proof {
                    assert(rules.take(j + 1)[j as int] == rules[j as int]);
                    assert(any_match(rules.take(j + 1), vi));
                    assert(acc@ + subs_from(rules, j + 1, vi) =~= subs_from(rules, 0, vi));
                }
            } else {
                proof {
                    assert forall|i: int|
                        0 <= i < j + 1 && spec_divides(#[trigger] rules.take(j + 1)[i].0, vi)
                        implies any_match(rules.take(j as int), vi) by {
                        if i < j {
                            assert(rules.take(j as int)[i] == rules.take(j + 1)[i]);
                        }
                    }
                    assert(any_match(rules.take(j + 1), vi) == any_match(rules.take(j as int), vi));
                    assert(acc@ + subs_from(rules, j + 1, vi) =~= acc@ + subs_from(rules, j as int, vi));
                }
            }
        }
        proof {
            assert(rules.take(n as int) =~= rules);
            assert(acc@ + subs_from(rules, n as int, vi) =~= acc@);
        }
        if matched {
            acc
        } else {
            v.to_text()
        }
    }

    /// Applies the rules to every value in order.
    pub fn apply(self, items: Vec<T>) -> (r: Vec<String>)
        requires
            self.wf(),
        ensures
            r@.len() == items@.len(),
            forall|i: int| 0 <= i < items@.len() ==> (#[trigger] r@[i])@ == spec_apply_one(
                self.rules(), items@[i].as_int()),
    {
        let mut out: Vec<String> = Vec::new();
        let n = items.len();
        for idx in 0..n
            invariant
                self.wf(),
                n == items@.len(),
                out@.len() == idx,
                forall|i: int| 0 <= i < idx ==> (#[trigger] out@[i])@ == spec_apply_one(
                    self.rules(), items@[i].as_int()),
        {
            let s = self.apply_one(&items[idx]);
            out.push(s);
        }
        out
    }
}

impl<T: Numeric> Default for Fizzy<T> {
    /// An engine with no rules.
    fn default() -> (r: Self)
        ensures
            r.wf(),
            r.rules() == Seq::<Rule>::empty(),
    {
        let r = Fizzy { matchers: Vec::new() };
        proof {
            assert(r.rules() =~= Seq::<Rule>::empty());
        }
        r
    }
}

/// The classic engine: "fizz" for multiples of three, "buzz" for multiples
/// of five, and so "fizzbuzz" for multiples of both.
pub fn fizz_buzz<T: Numeric>() -> (r: Fizzy<T>)
    ensures
        r.wf(),
        r.rules().len() == 2,
        r.rules()[0] == (3int, "fizz"@),
        r.rules()[1] == (5int, "buzz"@),
{
    Fizzy::new()
        .add_matcher(Matcher::new(T::from_small(3), "fizz"))
        .add_matcher(Matcher::new(T::from_small(5), "buzz"))
}

} // verus!
