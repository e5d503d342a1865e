//! The formula text language: parsing text into a `Formula` and
//! rendering a `Formula` back to text.
//!
//! The grammar, alternatives tried in this order and disjoint in their
//! first character:
//!
//! ```text
//! formula := string | number | ref | op
//! string  := '"' char-except-quote* '"'
//! number  := '-'? digit* '.' digit+
//! ref     := letter+ nonzero-digit digit*
//! op      := op_name '(' (formula (',' ws* formula)*)? ')'
//! op_name := "add" | "sub" | "mul" | "div" | "avg"
//! ```
//!
//! Empty input is handled before the grammar and denotes the empty atom.
//! The whole input must be consumed. The keyword `mul` maps to
//! multiplication.

use vstd::prelude::*;

use crate::coord::{is_upper, letters_val, spec_format_natural, Coord};
use crate::digits::{
    all_digits, digit_ch, digit_val, digits_val, is_digit, lemma_digits_val_nonneg,
    lemma_digits_val_prefix_le,
};
use crate::formula::{AtomV, Formula, FormulaAtom, FormulaOp, FormulaV};
use crate::number::{rat_norm, Number};

verus! {

/// The number of decimal digits that open `s`.
pub open spec fn count_digits(s: Seq<char>) -> int
    decreases s.len(),
{
    if s.len() == 0 {
        0
    } else if is_digit(s[0]) {
        1 + count_digits(s.drop_first())
    } else {
        0
    }
}

/// The number of upper-case letters that open `s`.
pub open spec fn count_letters(s: Seq<char>) -> int
    decreases s.len(),
{
    if s.len() == 0 {
        0
    } else if is_upper(s[0]) {
        1 + count_letters(s.drop_first())
    } else {
        0
    }
}

pub open spec fn is_ws(c: char) -> bool {
    c == ' ' || c == '\t'
}

/// The number of blanks and tabs that open `s`.
pub open spec fn count_ws(s: Seq<char>) -> int
    decreases s.len(),
{
    if s.len() == 0 {
        0
    } else if is_ws(s[0]) {
        1 + count_ws(s.drop_first())
    } else {
        0
    }
}

/// The position of the first double quote in `s`, or -1 when none occurs.
pub open spec fn first_quote_idx(s: Seq<char>) -> int
    decreases s.len(),
{
    if s.len() == 0 {
        -1
    } else if s[0] == '"' {
        0
    } else {
        let r = first_quote_idx(s.drop_first());
        if r < 0 {
            -1
        } else {
            r + 1
        }
    }
}

pub proof fn lemma_count_digits(s: Seq<char>)
    ensures
        0 <= count_digits(s) <= s.len(),
        forall|j: int| 0 <= j < count_digits(s) ==> is_digit(#[trigger] s[j]),
        count_digits(s) < s.len() ==> !is_digit(s[count_digits(s)]),
    decreases s.len(),
{
    if s.len() > 0 && is_digit(s[0]) {
        lemma_count_digits(s.drop_first());
        assert(forall|j: int| 1 <= j < s.len() ==> #[trigger] s[j] == s.drop_first()[j - 1]);
    }
}

pub proof fn lemma_count_letters(s: Seq<char>)
    ensures
        0 <= count_letters(s) <= s.len(),
        forall|j: int| 0 <= j < count_letters(s) ==> is_upper(#[trigger] s[j]),
        count_letters(s) < s.len() ==> !is_upper(s[count_letters(s)]),
    decreases s.len(),
{
    if s.len() > 0 && is_upper(s[0]) {
        lemma_count_letters(s.drop_first());
        assert(forall|j: int| 1 <= j < s.len() ==> #[trigger] s[j] == s.drop_first()[j - 1]);
    }
}

pub proof fn lemma_count_ws(s: Seq<char>)
    ensures
        0 <= count_ws(s) <= s.len(),
        forall|j: int| 0 <= j < count_ws(s) ==> is_ws(#[trigger] s[j]),
        count_ws(s) < s.len() ==> !is_ws(s[count_ws(s)]),
    decreases s.len(),
{
    if s.len() > 0 && is_ws(s[0]) {
        lemma_count_ws(s.drop_first());
        assert(forall|j: int| 1 <= j < s.len() ==> #[trigger] s[j] == s.drop_first()[j - 1]);
    }
}

pub proof fn lemma_first_quote_idx(s: Seq<char>)
    ensures
        first_quote_idx(s) == -1 ==> forall|j: int| 0 <= j < s.len() ==> (#[trigger] s[j]) != '"',
        first_quote_idx(s) >= 0 ==> {
            let r = first_quote_idx(s);
            &&& 0 <= r < s.len()
            &&& s[r] == '"'
            &&& forall|j: int| 0 <= j < r ==> (#[trigger] s[j]) != '"'
        },
    decreases s.len(),
{
    if s.len() > 0 && s[0] != '"' {
        lemma_first_quote_idx(s.drop_first());
        assert(forall|j: int| 1 <= j < s.len() ==> #[trigger] s[j] == s.drop_first()[j - 1]);
    }
}

/// Ten to the `k`.
pub open spec fn pow10(k: nat) -> nat
    decreases k,
{
    if k == 0 {
        1
    } else {
        10 * pow10((k - 1) as nat)
    }
}

pub proof fn lemma_pow10_le(a: nat, b: nat)
    requires
        a <= b,
    ensures
        1 <= pow10(a) <= pow10(b),
    decreases b,
{
    if a == b {
        if a > 0 {
            lemma_pow10_le((a - 1) as nat, (b - 1) as nat);
        }
    } else {
        lemma_pow10_le(a, (b - 1) as nat);
    }
}

pub proof fn lemma_pow10_18()
    ensures
        pow10(18) == 1000000000000000000,
{
    assert(pow10(0) == 1);
    assert(pow10(1) == 10);
    assert(pow10(2) == 100);
    assert(pow10(3) == 1000);
    assert(pow10(4) == 10000);
    assert(pow10(5) == 100000);
    assert(pow10(6) == 1000000);
    assert(pow10(7) == 10000000);
    assert(pow10(8) == 100000000);
    assert(pow10(9) == 1000000000);
    assert(pow10(10) == 10000000000);
    assert(pow10(11) == 100000000000);
    assert(pow10(12) == 1000000000000);
    assert(pow10(13) == 10000000000000);
    assert(pow10(14) == 100000000000000);
    assert(pow10(15) == 1000000000000000);
    assert(pow10(16) == 10000000000000000);
    assert(pow10(17) == 100000000000000000);
    assert(pow10(18) == 1000000000000000000);
}

/// What parsing one number token at the head of `s` yields, with how
/// many characters it spans: an optional minus, any integer digits, a
/// mandatory point, at least one fractional digit. A literal whose
/// digits or scale exceed the engine's exact range is not accepted.
pub open spec fn parse_number_s(s: Seq<char>) -> Option<(FormulaV, int)> {
    let neg = s.len() > 0 && s[0] == '-';
    let sign: int = if neg {
        1
    } else {
        0
    };
    let s1 = s.skip(sign);
    let d1 = count_digits(s1);
    if d1 >= s1.len() || s1[d1] != '.' {
        None
    } else {
        let s2 = s1.skip(d1 + 1);
        let d2 = count_digits(s2);
        if d2 == 0 {
            None
        } else {
            let m = digits_val(s1.subrange(0, d1) + s2.subrange(0, d2));
            if m > i64::MAX as int || d2 > 18 {
                None
            } else {
                let num = rat_norm(if neg {
                    -m
                } else {
                    m
                }, pow10(d2 as nat) as int);
                Some((FormulaV::Atom(AtomV::Num(num)), sign + d1 + 1 + d2))
            }
        }
    }
}

/// What parsing one cell reference at the head of `s` yields: letters,
/// then a row whose first digit is not zero. A reference beyond the
/// machine's coordinate range is not accepted.
pub open spec fn parse_ref_s(s: Seq<char>) -> Option<(FormulaV, int)> {
    let l = count_letters(s);
    if l == 0 || l >= s.len() || !is_digit(s[l]) || digit_val(s[l]) < 1 {
        None
    } else {
        let d = count_digits(s.skip(l));
        let col = letters_val(s.subrange(0, l)) - 1;
        let row = digits_val(s.subrange(l, l + d));
        if col > usize::MAX as int || row > usize::MAX as int {
            None
        } else {
            Some((FormulaV::Ref(Coord(col as usize, (row - 1) as usize)), l + d))
        }
    }
}

/// The operator a three-letter keyword names. `mul` means
/// multiplication.
pub open spec fn spec_op_name(s: Seq<char>) -> Option<FormulaOp>
    recommends
        s.len() == 3,
{
    if s[0] == 'a' && s[1] == 'd' && s[2] == 'd' {
        Some(FormulaOp::Add)
    } else if s[0] == 's' && s[1] == 'u' && s[2] == 'b' {
        Some(FormulaOp::Sub)
    } else if s[0] == 'm' && s[1] == 'u' && s[2] == 'l' {
        Some(FormulaOp::Mul)
    } else if s[0] == 'd' && s[1] == 'i' && s[2] == 'v' {
        Some(FormulaOp::Div)
    } else if s[0] == 'a' && s[1] == 'v' && s[2] == 'g' {
        Some(FormulaOp::Avg)
    } else {
        None
    }
}

/// What parsing one formula at the head of `s` yields, with how many
/// characters it spans. The first character decides the alternative:
/// a quote opens a string, a minus, digit or point a number, an
/// upper-case letter a reference, and anything else must open an
/// operator application.
pub open spec fn parse_formula_s(s: Seq<char>) -> Option<(FormulaV, int)>
    decreases s.len(), 0int,
{
    if s.len() == 0 {
        None
    } else if s[0] == '"' {
        let q = first_quote_idx(s.skip(1));
        if q < 0 {
            None
        } else {
            Some((FormulaV::Atom(AtomV::Text(s.subrange(1, 1 + q))), q + 2))
        }
    } else if s[0] == '-' || is_digit(s[0]) || s[0] == '.' {
        parse_number_s(s)
    } else if is_upper(s[0]) {
        parse_ref_s(s)
    } else if s.len() < 5 {
        None
    } else {
        match spec_op_name(s.subrange(0, 3)) {
            None => None,
            Some(op) => {
                if s[3] != '(' {
                    None
                } else if s[4] == ')' {
                    Some((FormulaV::Op(op, Seq::empty()), 5))
                } else {
                    match parse_args_s(s.skip(4)) {
                        None => None,
                        Some((args, c)) => {
                            if 4 + c < s.len() && s[4 + c] == ')' {
                                Some((FormulaV::Op(op, args), 4 + c + 1))
                            } else {
                                None
                            }
                        },
                    }
                }
            },
        }
    }
}

/// What parsing a comma-separated argument list at the head of `s`
/// yields: one formula, then zero or more of a comma, optional blanks,
/// and another formula.
pub open spec fn parse_args_s(s: Seq<char>) -> Option<(Seq<FormulaV>, int)>
    decreases s.len(), 1int,
    via parse_args_s_decreases
{
    match parse_formula_s(s) {
        None => None,
        Some((f, c)) => {
            if c < 1 {
                None
            } else if c < s.len() && s[c] == ',' {
                let w = count_ws(s.skip(c + 1));
                if c + 1 + w >= s.len() {
                    None
                } else {
                    match parse_args_s(s.skip(c + 1 + w)) {
                        None => None,
                        Some((rest, c2)) => Some((seq![f] + rest, c + 1 + w + c2)),
                    }
                }
            } else {
                Some((seq![f], c))
            }
        },
    }
}

#[via_fn]
proof fn parse_args_s_decreases(s: Seq<char>) {
    assert forall|j: int| 0 <= j <= s.len() implies count_ws(#[trigger] s.skip(j)) >= 0 by {
        lemma_count_ws(s.skip(j));
    }
}

/// What parsing formula text yields. Empty text is the empty atom; any
/// other text must match the grammar in full.
pub open spec fn spec_parse_formula(s: Seq<char>) -> Option<FormulaV> {
    if s.len() == 0 {
        Some(FormulaV::Atom(AtomV::Empty))
    } else {
        match parse_formula_s(s) {
            None => None,
            Some((f, c)) => if c == s.len() {
                Some(f)
            } else {
                None
            },
        }
    }
}

/// A parse failure, carrying the position at which the text stopped
/// matching the grammar.
#[derive(Debug, Clone, Copy, PartialEq, Eq, Structural)]
pub struct ParseError {
    pub pos: usize,
}

/// Whether `c` is an upper-case letter.
fn upper_ch(c: char) -> (b: bool)
    ensures
        b == is_upper(c),
{
    let u = c as u32;
    65 <= u && u <= 90
}

/// Whether `c` is a blank or a tab.
fn ws_ch(c: char) -> (b: bool)
    ensures
        b == is_ws(c),
{
    c == ' ' || c == '\t'
}

/// The end of the run of decimal digits starting at `from`.
fn scan_digits(s: &str, from: usize) -> (j: usize)
    requires
        from <= s@.len(),
    ensures
        from <= j <= s@.len(),
        j - from == count_digits(s@.skip(from as int)),
{
    let n = s.unicode_len();
    let mut j = from;
    while j < n && digit_ch(s.get_char(j))
        invariant
            n == s@.len(),
            from <= j <= n,
            forall|t: int| from <= t < j ==> is_digit(#[trigger] s@[t]),
        decreases n - j,
    {
        j += 1;
    }
    proof {
        let suf = s@.skip(from as int);
        lemma_count_digits(suf);
        assert(forall|t: int| 0 <= t < suf.len() ==> #[trigger] suf[t] == s@[t + from]);
        let c = count_digits(suf);
        if c < j - from {
            assert(!is_digit(suf[c]));
            assert(is_digit(s@[c + from]));
        }
        if c > j - from {
            assert(is_digit(suf[j - from]));
        }
    }
    j
}

/// The end of the run of upper-case letters starting at `from`.
fn scan_letters(s: &str, from: usize) -> (j: usize)
    requires
        from <= s@.len(),
    ensures
        from <= j <= s@.len(),
        j - from == count_letters(s@.skip(from as int)),
{
    let n = s.unicode_len();
    let mut j = from;
    while j < n && upper_ch(s.get_char(j))
        invariant
            n == s@.len(),
            from <= j <= n,
            forall|t: int| from <= t < j ==> is_upper(#[trigger] s@[t]),
        decreases n - j,
    {
        j += 1;
    }
    proof {
        let suf = s@.skip(from as int);
        lemma_count_letters(suf);
        assert(forall|t: int| 0 <= t < suf.len() ==> #[trigger] suf[t] == s@[t + from]);
        let c = count_letters(suf);
        if c < j - from {
            assert(!is_upper(suf[c]));
            assert(is_upper(s@[c + from]));
        }
        if c > j - from {
            assert(is_upper(suf[j - from]));
        }
    }
    j
}

/// The end of the run of blanks and tabs starting at `from`.
fn scan_ws(s: &str, from: usize) -> (j: usize)
    requires
        from <= s@.len(),
    ensures
        from <= j <= s@.len(),
        j - from == count_ws(s@.skip(from as int)),
{
    let n = s.unicode_len();
    let mut j = from;
    while j < n && ws_ch(s.get_char(j))
        invariant
            n == s@.len(),
            from <= j <= n,
            forall|t: int| from <= t < j ==> is_ws(#[trigger] s@[t]),
        decreases n - j,
    {
        j += 1;
    }
    proof {
        let suf = s@.skip(from as int);
        lemma_count_ws(suf);
        assert(forall|t: int| 0 <= t < suf.len() ==> #[trigger] suf[t] == s@[t + from]);
        let c = count_ws(suf);
        if c < j - from {
            assert(!is_ws(suf[c]));
            assert(is_ws(s@[c + from]));
        }
        if c > j - from {
            assert(is_ws(suf[j - from]));
        }
    }
    j
}

/// The operator a three-letter keyword names.
fn exec_op_name(a: char, b: char, c: char) -> (r: Option<FormulaOp>)
    ensures
        r == spec_op_name(seq![a, b, c]),
{
    if a == 'a' && b == 'd' && c == 'd' {
        Some(FormulaOp::Add)
    } else if a == 's' && b == 'u' && c == 'b' {
        Some(FormulaOp::Sub)
    } else if a == 'm' && b == 'u' && c == 'l' {
        Some(FormulaOp::Mul)
    } else if a == 'd' && b == 'i' && c == 'v' {
        Some(FormulaOp::Div)
    } else if a == 'a' && b == 'v' && c == 'g' {
        Some(FormulaOp::Avg)
    } else {
        None
    }
}

/// Parses one number literal starting at `from`.
#[verifier::rlimit(50)]
fn parse_number_at(s: &str, from: usize) -> (r: Result<(Formula, usize), ParseError>)
    requires
        from < s@.len(),
    ensures
        match r {
            Ok((f, j)) => {
                &&& parse_number_s(s@.skip(from as int)) == Some((f.dv(), j - from as int))
                &&& from < j <= s@.len()
            },
            Err(_) => parse_number_s(s@.skip(from as int)) is None,
        },
{
    let ghost u = s@.skip(from as int);
    let n = s.unicode_len();
    let neg = s.get_char(from) == '-';
    let i0 = if neg {
        from + 1
    } else {
        from
    };
    proof {
        assert(u[0] == s@[from as int]);
        assert(u.skip(if neg { 1int } else { 0int }) =~= s@.skip(i0 as int));
    }
    let i1 = scan_digits(s, i0);
    if i1 == n || s.get_char(i1) != '.' {
        proof {
            if i1 < n {
                assert(s@.skip(i0 as int)[i1 - i0] == s@[i1 as int]);
            }
        }
        return Err(ParseError { pos: i1 });
    }
    proof {
        assert(s@.skip(i0 as int)[i1 - i0] == s@[i1 as int]);
        assert(s@.skip(i0 as int).skip(i1 - i0 + 1) =~= s@.skip(i1 as int + 1));
    }
    let i2 = i1 + 1;
    let i3 = scan_digits(s, i2);
    if i3 == i2 {
        return Err(ParseError { pos: i2 });
    }
    let k = i3 - i2;
    if k > 18 {
        return Err(ParseError { pos: i3 });
    }
    let ghost md = s@.subrange(i0 as int, i1 as int) + s@.subrange(i2 as int, i3 as int);
    proof {
        lemma_count_digits(s@.skip(i0 as int));
        lemma_count_digits(s@.skip(i2 as int));
        assert(forall|t: int|
            0 <= t < s@.len() - i0 ==> #[trigger] s@.skip(i0 as int)[t] == s@[t + i0]);
        assert(forall|t: int|
            0 <= t < s@.len() - i2 ==> #[trigger] s@.skip(i2 as int)[t] == s@[t + i2]);
        assert(s@.skip(i1 as int + 1) =~= s@.skip(i2 as int));
        assert(s@.skip(i0 as int).subrange(0, i1 - i0) =~= s@.subrange(i0 as int, i1 as int));
        assert(s@.skip(i1 as int + 1).subrange(0, i3 - i2) =~= s@.subrange(i2 as int, i3 as int));
        assert(forall|t: int|
            0 <= t < i1 - i0 ==> #[trigger] md[t] == s@.skip(i0 as int)[t]);
        assert(forall|t: int|
            i1 - i0 <= t < md.len() ==> #[trigger] md[t] == s@.skip(i1 as int + 1)[t - (i1 - i0)]);
        assert(all_digits(md));
        lemma_digits_val_nonneg(md);
    }
    // The mantissa: integer digits, then fractional digits.
    let mut m: u128 = 0;
    let mut t: usize = 0;
    let total = (i1 - i0) + k;
    while t < total
        invariant
            u == s@.skip(from as int),
            from < s@.len(),
            neg == (s@[from as int] == '-'),
            i0 as int == from + (if neg { 1int } else { 0int }),
            i1 - i0 == count_digits(s@.skip(i0 as int)),
            s@[i1 as int] == '.',
            k == i3 - i2,
            1 <= k <= 18,
            i3 - i2 == count_digits(s@.skip(i2 as int)),
            md == s@.subrange(i0 as int, i1 as int) + s@.subrange(i2 as int, i3 as int),
            from <= i0 <= i1 < i2 <= i3 <= s@.len(),
            i2 == i1 + 1,
            all_digits(md),
            total == md.len(),
            0 <= t <= total,
            m == digits_val(md.subrange(0, t as int)),
            m <= i64::MAX as u128,
        decreases total - t,
    {
        let c = if t < i1 - i0 {
            s.get_char(i0 + t)
        } else {
            s.get_char(i2 + (t - (i1 - i0)))
        };
        proof {
            assert(md[t as int] == c);
            let a = md.subrange(0, t as int);
            let b = md.subrange(0, t as int + 1);
            assert(b.drop_last() =~= a);
            assert(b.last() == md[t as int]);
            lemma_digits_val_nonneg(a);
            assert(forall|j: int| 0 <= j < b.len() ==> is_digit(#[trigger] b[j]));
        }
        let next = m * 10 + (c as u32 - 48) as u128;
        if next > i64::MAX as u128 {
            proof {
                lemma_digits_val_prefix_le(md, t as int + 1);
                let sign: int = if neg { 1 } else { 0 };
                assert(u.skip(sign) =~= s@.skip(i0 as int));
                assert(u.skip(sign)[i1 - i0] == s@[i1 as int]);
                assert(u.skip(sign).skip(i1 - i0 + 1) =~= s@.skip(i2 as int));
                assert(s@.skip(i0 as int).subrange(0, i1 - i0) =~= s@.subrange(
                    i0 as int,
                    i1 as int,
                ));
                assert(s@.skip(i2 as int).subrange(0, i3 - i2) =~= s@.subrange(
                    i2 as int,
                    i3 as int,
                ));
            }
            return Err(ParseError { pos: i0 + t });
        }
        m = next;
        t += 1;
    }
    proof {
        assert(md.subrange(0, total as int) =~= md);
    }
    // The scale: ten to the number of fractional digits.
    let mut den: u64 = 1;
    let mut t: usize = 0;
    while t < k
        invariant
            0 <= t <= k <= 18,
            den == pow10(t as nat),
            den <= 1000000000000000000u64,
        decreases k - t,
    {
        proof {
            lemma_pow10_18();
            lemma_pow10_le(t as nat + 1, 18);
            assert(pow10(t as nat + 1) == 10 * pow10(t as nat));
        }
        den = den * 10;
        t += 1;
    }
    let num: i64 = if neg {
        -(m as i64)
    } else {
        m as i64
    };
    proof {
        lemma_pow10_le(k as nat, 18);
        crate::number::lemma_rat_norm_fits(num as int, den as int);
    }
    match Number::from_ratio(num, den as i64) {
        Some(x) => {
            proof {
                let sign: int = if neg { 1 } else { 0 };
                assert(u.skip(sign) =~= s@.skip(i0 as int));
                assert(u.skip(sign).skip(i1 - i0 + 1) =~= s@.skip(i1 as int + 1));
            }
            Ok((Formula::Atom(FormulaAtom::Number(x)), i3))
        },
        None => {
            proof {
                assert(false);
            }
            Err(ParseError { pos: i3 })
        },
    }
}

/// Parses one cell reference starting at `from`.
fn parse_ref_at(s: &str, from: usize) -> (r: Result<(Formula, usize), ParseError>)
    requires
        from < s@.len(),
    ensures
        match r {
            Ok((f, j)) => {
                &&& parse_ref_s(s@.skip(from as int)) == Some((f.dv(), j - from as int))
                &&& from < j <= s@.len()
            },
            Err(_) => parse_ref_s(s@.skip(from as int)) is None,
        },
{
    let ghost u = s@.skip(from as int);
    let n = s.unicode_len();
    let i1 = scan_letters(s, from);
    if i1 == from || i1 == n || !digit_ch(s.get_char(i1)) {
        proof {
            if i1 < n {
                assert(u[i1 - from] == s@[i1 as int]);
            }
        }
        return Err(ParseError { pos: i1 });
    }
    proof {
        assert(u[i1 - from] == s@[i1 as int]);
    }
    if s.get_char(i1) as u32 == 48 {
        return Err(ParseError { pos: i1 });
    }
    proof {
        assert(u.skip(i1 - from) =~= s@.skip(i1 as int));
    }
    let i2 = scan_digits(s, i1);
    let pre = s.substring_char(from, i1);
    proof {
        assert(pre@ =~= u.subrange(0, i1 - from));
        lemma_count_letters(u);
        assert(forall|t: int| 0 <= t < u.len() ==> #[trigger] u[t] == s@[t + from]);
    }
    let col = match crate::coord::natural_col_to_numeric(pre) {
        Some(c) => c,
        None => {
            proof {
                crate::coord::lemma_letters_val_nonneg(pre@);
            }
            return Err(ParseError { pos: from });
        },
    };
    // The row value.
    let ghost row_digits = u.subrange(i1 - from, i2 - from);
    proof {
        assert(row_digits =~= s@.subrange(i1 as int, i2 as int));
        lemma_count_digits(s@.skip(i1 as int));
        assert(forall|t: int|
            0 <= t < row_digits.len() ==> #[trigger] row_digits[t] == s@[t + i1]);
        assert(all_digits(row_digits));
    }
    let mut row: u128 = 0;
    let mut t: usize = i1;
    while t < i2
        invariant
            u == s@.skip(from as int),
            from < s@.len(),
            i1 - from == count_letters(u),
            is_digit(s@[i1 as int]),
            digit_val(s@[i1 as int]) >= 1,
            i2 - i1 == count_digits(s@.skip(i1 as int)),
            row_digits == s@.subrange(i1 as int, i2 as int),
            from < i1 <= t <= i2 <= s@.len(),
            all_digits(row_digits),
            forall|j: int| 0 <= j < row_digits.len() ==> #[trigger] row_digits[j] == s@[j + i1],
            row == digits_val(row_digits.subrange(0, t - i1 as int)),
            row <= usize::MAX as u128,
        decreases i2 - t,
    {
        let c = s.get_char(t);
        proof {
            let a = row_digits.subrange(0, t - i1 as int);
            let b = row_digits.subrange(0, t - i1 as int + 1);
            assert(b.drop_last() =~= a);
            assert(b.last() == row_digits[t - i1 as int]);
            assert(row_digits[t - i1 as int] == s@[t as int]);
            lemma_digits_val_nonneg(a);
            assert(forall|j: int| 0 <= j < b.len() ==> is_digit(#[trigger] b[j]));
        }
        let next = row * 10 + (c as u32 - 48) as u128;
        if next > usize::MAX as u128 {
            proof {
                lemma_digits_val_prefix_le(row_digits, t - i1 as int + 1);
                assert(u[i1 - from] == s@[i1 as int]);
                assert(u.skip(i1 - from) =~= s@.skip(i1 as int));
                assert(u.subrange(i1 - from, i2 - from) =~= row_digits);
            }
            return Err(ParseError { pos: t });
        }
        row = next;
        t += 1;
    }
    proof {
        assert(row_digits.subrange(0, i2 - i1 as int) =~= row_digits);
        crate::digits::lemma_digits_val_pos(row_digits);
    }
    Ok((Formula::Ref(Coord(col, (row - 1) as usize)), i2))
}

/// Parses one formula starting at `from`.
fn parse_formula_at(s: &str, from: usize) -> (r: Result<(Formula, usize), ParseError>)
    requires
        from <= s@.len(),
    ensures
        match r {
            Ok((f, j)) => {
                &&& parse_formula_s(s@.skip(from as int)) == Some((f.dv(), j - from as int))
                &&& from < j <= s@.len()
            },
            Err(_) => parse_formula_s(s@.skip(from as int)) is None,
        },
    decreases s@.len() - from, 0int,
{
    let ghost u = s@.skip(from as int);
    let n = s.unicode_len();
    if from == n {
        return Err(ParseError { pos: from });
    }
    let c0 = s.get_char(from);
    proof {
        assert(u[0] == s@[from as int]);
    }
    if c0 == '"' {
        // Find the closing quote.
        let mut j = from + 1;
        while j < n && s.get_char(j) != '"'
            invariant
                n == s@.len(),
                from + 1 <= j <= n,
                forall|t: int| from + 1 <= t < j ==> (#[trigger] s@[t]) != '"',
            decreases n - j,
        {
            j += 1;
        }
        proof {
            let tail = u.skip(1);
            assert(tail =~= s@.skip(from as int + 1));
            lemma_first_quote_idx(tail);
            assert(forall|t: int| 0 <= t < tail.len() ==> #[trigger] tail[t] == s@[t + from + 1]);
            let q = first_quote_idx(tail);
            if j < n {
                assert(tail[j - from - 1] == '"');
                if q < 0 {
                } else {
                    if q < j - from - 1 {
                        assert(s@[q + from + 1] == '"');
                    }
                    if q > j - from - 1 {
                        assert(tail[j - from - 1] != '"');
                    }
                }
            } else {
                if q >= 0 {
                    assert(s@[q + from + 1] == '"');
                }
            }
        }
        if j == n {
            return Err(ParseError { pos: j });
        }
        let content = s.substring_char(from + 1, j);
        let text = String::from_str(content);
        proof {
            assert(text@ =~= u.subrange(1, 1 + (j - from - 1)));
        }
        return Ok((Formula::Atom(FormulaAtom::String(text)), j + 1));
    }
    let is_num_start = c0 == '-' || digit_ch(c0) || c0 == '.';
    if is_num_start {
        return parse_number_at(s, from);
    }
    if upper_ch(c0) {
        return parse_ref_at(s, from);
    }
    if n - from < 5 {
        return Err(ParseError { pos: from });
    }
    let a = s.get_char(from);
    let b = s.get_char(from + 1);
    let c = s.get_char(from + 2);
    proof {
        assert(u.subrange(0, 3) =~= seq![a, b, c]);
        assert(u[1] == s@[from as int + 1] && u[2] == s@[from as int + 2]);
        assert(u[3] == s@[from as int + 3] && u[4] == s@[from as int + 4]);
    }
    let op = match exec_op_name(a, b, c) {
        Some(op) => op,
        None => {
            return Err(ParseError { pos: from });
        },
    };
    if s.get_char(from + 3) != '(' {
        return Err(ParseError { pos: from + 3 });
    }
    if s.get_char(from + 4) == ')' {
        proof {
            assert(crate::formula::seq_dv(Seq::<Formula>::empty()) =~= Seq::<FormulaV>::empty());
        }
        return Ok((Formula::Op(op, Vec::new()), from + 5));
    }
    proof {
        assert(u.skip(4) =~= s@.skip(from as int + 4));
    }
    match parse_args_at(s, from + 4) {
        Err(e) => Err(e),
        Ok((args, j)) => {
            proof {
                if j < n {
                    assert(u[j - from] == s@[j as int]);
                }
            }
            if j < n && s.get_char(j) == ')' {
                Ok((Formula::Op(op, args), j + 1))
            } else {
                Err(ParseError { pos: j })
            }
        },
    }
}

/// Parses a comma-separated argument list starting at `from`.
fn parse_args_at(s: &str, from: usize) -> (r: Result<(Vec<Formula>, usize), ParseError>)
    requires
        from <= s@.len(),
    ensures
        match r {
            Ok((args, j)) => {
                &&& parse_args_s(s@.skip(from as int)) == Some((
                    crate::formula::seq_dv(args@),
                    j - from as int,
                ))
                &&& from < j <= s@.len()
            },
            Err(_) => parse_args_s(s@.skip(from as int)) is None,
        },
    decreases s@.len() - from, 1int,
{
    let ghost u = s@.skip(from as int);
    let n = s.unicode_len();
    match parse_formula_at(s, from) {
        Err(e) => Err(e),
        Ok((f, j)) => {
            proof {
                if j < n {
                    assert(u[j - from] == s@[j as int]);
                }
            }
            if j < n && s.get_char(j) == ',' {
                proof {
                    assert(u.skip(j - from + 1) =~= s@.skip(j as int + 1));
                }
                let w_end = scan_ws(s, j + 1);
                if w_end == n {
                    return Err(ParseError { pos: w_end });
                }
                proof {
                    assert(u.skip(w_end - from) =~= s@.skip(w_end as int));
                }
                match parse_args_at(s, w_end) {
                    Err(e) => Err(e),
                    Ok((rest, j2)) => {
                        let ghost restv = rest@;
                        let ghost fv = f.dv();
                        let mut args = rest;
                        args.insert(0, f);
                        proof {
                            restv.insert_ensures(0, f);
                            crate::formula::lemma_seq_dv(args@);
                            crate::formula::lemma_seq_dv(restv);
                            assert(args@.len() == restv.len() + 1);
                            assert(args@[0].dv() == fv);
                            assert(forall|i: int|
                                1 <= i < args@.len() ==> #[trigger] args@[i] == restv[i - 1]);
                            assert(crate::formula::seq_dv(args@) =~= seq![fv]
                                + crate::formula::seq_dv(restv));
                        }
                        Ok((args, j2))
                    },
                }
            } else {
                let mut args: Vec<Formula> = Vec::new();
                args.push(f);
                proof {
                    crate::formula::lemma_seq_dv(args@);
                    assert(crate::formula::seq_dv(args@) =~= seq![f.dv()]);
                }
                Ok((args, j))
            }
        },
    }
}

/// A reference formula survives a round trip through the serializer and
/// the parser, for every coordinate whose 1-based row number still fits
/// the machine's row range.
pub proof fn lemma_ref_round_trip(c: Coord)
    requires
        c.1 < usize::MAX,
    ensures
        spec_parse_formula(spec_format(FormulaV::Ref(c))) == Some(FormulaV::Ref(c)),
{
    let letters = crate::coord::letters_of(c.0 as nat + 1);
    let row = crate::digits::dec_digits(c.1 as nat + 1);
    let s = spec_format_natural(c);
    crate::coord::lemma_letters_of_val(c.0 as nat + 1);
    crate::digits::lemma_dec_digits_val(c.1 as nat + 1);
    assert(s.len() == letters.len() + row.len());
    assert(forall|j: int| 0 <= j < letters.len() ==> #[trigger] s[j] == letters[j]);
    assert(forall|j: int| letters.len() <= j < s.len() ==> #[trigger] s[j] == row[j
        - letters.len()]);
    let l0 = letters.len() as int;
    assert(is_upper(s[0]));
    assert(!is_digit(s[0]) && s[0] != '"' && s[0] != '-' && s[0] != '.');
    // The letter run is exactly the column part.
    lemma_count_letters(s);
    let l = count_letters(s);
    assert(is_digit(s[l0]) && !is_upper(s[l0]));
    if l < l0 {
        assert(is_upper(s[l]));
    }
    if l > l0 {
        assert(is_upper(s[l0]));
    }
    assert(l == l0);
    // The digit run is exactly the row part.
    lemma_count_digits(s.skip(l));
    assert(forall|t: int| 0 <= t < s.len() - l ==> #[trigger] s.skip(l)[t] == s[t + l]);
    let d = count_digits(s.skip(l));
    if d < row.len() {
        assert(is_digit(s.skip(l)[d]));
    }
    assert(d == row.len());
    assert(s.subrange(0, l) =~= letters);
    assert(s.subrange(l, l + d) =~= row);
    assert(digit_val(s[l]) >= 1);
    assert(crate::coord::letters_val(s.subrange(0, l)) - 1 == c.0 as int);
    assert(digits_val(s.subrange(l, l + d)) == c.1 as int + 1);
    assert(parse_ref_s(s) == Some((FormulaV::Ref(c), s.len() as int)));
}

/// A string atom without embedded quotes survives a round trip through
/// the serializer and the parser. (An embedded quote is not escaped by
/// the serializer, so such text cannot round-trip.)
pub proof fn lemma_string_round_trip(t: Seq<char>)
    requires
        forall|i: int| 0 <= i < t.len() ==> (#[trigger] t[i]) != '"',
    ensures
        spec_parse_formula(spec_format(FormulaV::Atom(AtomV::Text(t)))) == Some(
            FormulaV::Atom(AtomV::Text(t)),
        ),
{
    let s = spec_format(FormulaV::Atom(AtomV::Text(t)));
    assert(s.len() == t.len() + 2);
    assert(s[0] == '"');
    let tail = s.skip(1);
    assert(tail =~= t + seq!['"']);
    lemma_first_quote_idx(tail);
    assert(forall|j: int| 0 <= j < t.len() ==> #[trigger] tail[j] == t[j]);
    assert(tail[t.len() as int] == '"');
    let q = first_quote_idx(tail);
    if q < 0 {
        assert(tail[t.len() as int] != '"');
    }
    if 0 <= q < t.len() {
        assert(tail[q] == t[q]);
    }
    if q > t.len() {
        assert(tail[t.len() as int] != '"');
    }
    assert(q == t.len());
    assert(s.subrange(1, 1 + q) =~= t);
}

/// The keyword of an operator.
pub open spec fn op_keyword(op: FormulaOp) -> Seq<char> {
    match op {
        FormulaOp::Add => seq!['a', 'd', 'd'],
        FormulaOp::Sub => seq!['s', 'u', 'b'],
        FormulaOp::Mul => seq!['m', 'u', 'l'],
        FormulaOp::Div => seq!['d', 'i', 'v'],
        FormulaOp::Avg => seq!['a', 'v', 'g'],
    }
}

/// The canonical text of a formula, the parser's best-effort inverse: an
/// empty atom is empty text, a string atom is quoted (embedded quotes
/// are not escaped), a number is rendered per `spec_fmt_rat`, a
/// reference per `spec_format_natural`, and an operator application is
/// its keyword around a parenthesized, comma-separated argument list.
pub open spec fn spec_format(f: FormulaV) -> Seq<char>
    decreases f,
{
    match f {
        FormulaV::Atom(AtomV::Empty) => Seq::empty(),
        FormulaV::Atom(AtomV::Text(t)) => seq!['"'] + t + seq!['"'],
        FormulaV::Atom(AtomV::Num(r)) => crate::number::spec_fmt_rat(r),
        FormulaV::Ref(c) => spec_format_natural(c),
        FormulaV::Op(op, args) => op_keyword(op) + seq!['('] + spec_format_args(args) + seq![')'],
    }
}

/// The rendered argument list, arguments joined with a comma and blank.
pub open spec fn spec_format_args(args: Seq<FormulaV>) -> Seq<char>
    decreases args,
{
    if args.len() == 0 {
        Seq::empty()
    } else {
        spec_format(args[0]) + spec_format_tail(args.drop_first())
    }
}

/// The rendered argument list after its first argument.
pub open spec fn spec_format_tail(args: Seq<FormulaV>) -> Seq<char>
    decreases args,
{
    if args.len() == 0 {
        Seq::empty()
    } else {
        seq![','] + seq![' '] + spec_format(args[0]) + spec_format_tail(args.drop_first())
    }
}

/// Appends an operator's keyword to `out`.
fn push_op_keyword(out: &mut String, op: FormulaOp)
    ensures
        final(out)@ == old(out)@ + op_keyword(op),
{
    match op {
        FormulaOp::Add => {
            proof {
                reveal_strlit("add");
                assert("add"@ =~= op_keyword(FormulaOp::Add));
            }
            out.append("add");
        },
        FormulaOp::Sub => {
            proof {
                reveal_strlit("sub");
                assert("sub"@ =~= op_keyword(FormulaOp::Sub));
            }
            out.append("sub");
        },
        FormulaOp::Mul => {
            proof {
                reveal_strlit("mul");
                assert("mul"@ =~= op_keyword(FormulaOp::Mul));
            }
            out.append("mul");
        },
        FormulaOp::Div => {
            proof {
                reveal_strlit("div");
                assert("div"@ =~= op_keyword(FormulaOp::Div));
            }
            out.append("div");
        },
        FormulaOp::Avg => {
            proof {
                reveal_strlit("avg");
                assert("avg"@ =~= op_keyword(FormulaOp::Avg));
            }
            out.append("avg");
        },
    }
}

/// Appends the canonical text of a formula to `out`.
fn push_formula(out: &mut String, f: &Formula)
    ensures
        final(out)@ == old(out)@ + spec_format(f.dv()),
    decreases *f,
{
    let ghost base = out@;
    match f {
        Formula::Atom(FormulaAtom::Empty) => {
            proof {
                assert(base + spec_format(f.dv()) =~= base);
            }
        },
        Formula::Atom(FormulaAtom::String(t)) => {
            proof {
                reveal_strlit("\"");
            }
            out.append("\"");
            out.append(t.as_str());
            out.append("\"");
            proof {
                assert(out@ =~= base + spec_format(f.dv()));
            }
        },
        Formula::Atom(FormulaAtom::Number(n)) => {
            crate::number::push_number(out, n);
        },
        Formula::Ref(c) => {
            let txt = c.format_natural();
            out.append(txt.as_str());
        },
        Formula::Op(op, args) => {
            let ghost argsv = crate::formula::seq_dv(args@);
            let ghost target = base + spec_format(f.dv());
            proof {
                crate::formula::lemma_seq_dv(args@);
                reveal_strlit("(");
                reveal_strlit(")");
            }
            push_op_keyword(out, *op);
            out.append("(");
            if args.len() == 0 {
                proof {
                    assert(spec_format_args(argsv) =~= Seq::<char>::empty());
                    assert(out@ =~= base + op_keyword(*op) + seq!['('] + spec_format_args(argsv));
                }
            } else {
                proof {
                    assert(decreases_to!(*f => (*f)->Op_1));
                    assert((*f)->Op_1 == *args);
                    assert(decreases_to!(*args => args@));
                    assert(decreases_to!(args@ => args@[0]));
                }
                push_formula(out, &args[0]);
                proof {
                    assert(argsv.drop_first() =~= argsv.skip(1));
                    assert(out@ + spec_format_tail(argsv.skip(1)) =~= base + op_keyword(*op)
                        + seq!['('] + spec_format_args(argsv));
                }
                let mut i: usize = 1;
                while i < args.len()
                    invariant
                        *f == Formula::Op(*op, *args),
                        argsv == crate::formula::seq_dv(args@),
                        argsv.len() == args@.len(),
                        forall|j: int| 0 <= j < args@.len() ==> #[trigger] argsv[j] == args@[j].dv(),
                        1 <= i <= args@.len(),
                        out@ + spec_format_tail(argsv.skip(i as int)) =~= base + op_keyword(*op)
                            + seq!['('] + spec_format_args(argsv),
                    decreases args@.len() - i,
                {
                    proof {
                        reveal_strlit(",");
                        reveal_strlit(" ");
                        assert(decreases_to!(*f => (*f)->Op_1));
                        assert((*f)->Op_1 == *args);
                        assert(decreases_to!(*args => args@));
                        assert(decreases_to!(args@ => args@[i as int]));
                    }
                    out.append(",");
                    out.append(" ");
                    let ghost before = out@;
                    push_formula(out, &args[i]);
                    proof {
                        let tail_i = argsv.skip(i as int);
                        assert(tail_i[0] == argsv[i as int]);
                        assert(tail_i.drop_first() =~= argsv.skip(i as int + 1));
                        assert(out@ + spec_format_tail(argsv.skip(i as int + 1)) =~= base
                            + op_keyword(*op) + seq!['('] + spec_format_args(argsv));
                    }
                    i += 1;
                }
                proof {
                    assert(argsv.skip(args@.len() as int) =~= Seq::<FormulaV>::empty());
                    assert(out@ =~= base + op_keyword(*op) + seq!['('] + spec_format_args(argsv));
                }
            }
            out.append(")");
            proof {
                assert(out@ =~= target);
            }
        },
    }
}

/// Renders a formula back to its canonical text, the parser's
/// best-effort inverse.
pub fn format_formula(f: &Formula) -> (r: String)
    ensures
        r@ == spec_format(f.dv()),
{
    let mut out = String::new();
    push_formula(&mut out, f);
    proof {
        assert(Seq::<char>::empty() + spec_format(f.dv()) =~= spec_format(f.dv()));
    }
    out
}

/// Parses formula text. Empty text is the empty atom; any other text
/// must match the grammar in full, and the error carries the position at
/// which matching stopped.
pub fn parse_formula(s: &str) -> (r: Result<Formula, ParseError>)
    ensures
        match r {
            Ok(f) => spec_parse_formula(s@) == Some(f.dv()),
            Err(_) => spec_parse_formula(s@) is None,
        },
{
    let n = s.unicode_len();
    if n == 0 {
        return Ok(Formula::Atom(FormulaAtom::Empty));
    }
    proof {
        assert(s@.skip(0) =~= s@);
    }
    match parse_formula_at(s, 0) {
        Err(e) => Err(e),
        Ok((f, j)) => {
            if j == n {
                Ok(f)
            } else {
                Err(ParseError { pos: j })
            }
        },
    }
}

} // verus!
