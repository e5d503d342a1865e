//! Decimal digit text: the value of a digit string and the canonical
//! decimal rendering of a natural number, with the lemmas that make the
//! two inverse to each other.

use vstd::prelude::*;

verus! {

/// The character for one decimal digit value.
pub open spec fn digit_char(d: int) -> char {
    if d == 0 {
        '0'
    } else if d == 1 {
        '1'
    } else if d == 2 {
        '2'
    } else if d == 3 {
        '3'
    } else if d == 4 {
        '4'
    } else if d == 5 {
        '5'
    } else if d == 6 {
        '6'
    } else if d == 7 {
        '7'
    } else if d == 8 {
        '8'
    } else {
        '9'
    }
}

pub open spec fn is_digit(c: char) -> bool {
    48 <= c as u32 <= 57
}

/// The value of one decimal digit character.
pub open spec fn digit_val(c: char) -> int {
    c as u32 - 48
}

/// Decimal text of `n`, most significant digit first; `0` renders as "0",
/// every other number starts with a nonzero digit.
pub open spec fn dec_digits(n: nat) -> Seq<char>
    decreases n,
{
    if n < 10 {
        seq![digit_char(n as int)]
    } else {
        dec_digits(n / 10) + seq![digit_char((n % 10) as int)]
    }
}

pub open spec fn all_digits(s: Seq<char>) -> bool {
    forall|i: int| 0 <= i < s.len() ==> is_digit(#[trigger] s[i])
}

/// The numeric value of digit text, most significant digit first.
pub open spec fn digits_val(s: Seq<char>) -> int
    decreases s.len(),
{
    if s.len() == 0 {
        0
    } else {
        digits_val(s.drop_last()) * 10 + digit_val(s.last())
    }
}

pub proof fn lemma_digit_char_val(d: int)
    requires
        0 <= d < 10,
    ensures
        is_digit(digit_char(d)),
        digit_val(digit_char(d)) == d,
{
}

pub proof fn lemma_char_digit_round_trip(c: char)
    requires
        is_digit(c),
    ensures
        digit_char(digit_val(c)) == c,
{
    assert(c as u32 == 48 ==> c == '0');
    assert(c as u32 == 49 ==> c == '1');
    assert(c as u32 == 50 ==> c == '2');
    assert(c as u32 == 51 ==> c == '3');
    assert(c as u32 == 52 ==> c == '4');
    assert(c as u32 == 53 ==> c == '5');
    assert(c as u32 == 54 ==> c == '6');
    assert(c as u32 == 55 ==> c == '7');
    assert(c as u32 == 56 ==> c == '8');
    assert(c as u32 == 57 ==> c == '9');
}

pub proof fn lemma_digits_val_nonneg(s: Seq<char>)
    requires
        all_digits(s),
    ensures
        digits_val(s) >= 0,
    decreases s.len(),
{
    if s.len() > 0 {
        lemma_digits_val_nonneg(s.drop_last());
    }
}

/// The canonical rendering of a value is digit text with that value,
/// without a leading zero.
pub proof fn lemma_dec_digits_val(n: nat)
    ensures
        all_digits(dec_digits(n)),
        dec_digits(n).len() >= 1,
        digits_val(dec_digits(n)) == n,
        n >= 1 ==> digit_val(dec_digits(n)[0]) >= 1,
    decreases n,
{
    if n < 10 {
        lemma_digit_char_val(n as int);
        assert(dec_digits(n) =~= seq![digit_char(n as int)]);
        assert(dec_digits(n).drop_last() =~= Seq::<char>::empty());
        assert(digits_val(Seq::<char>::empty()) == 0);
        assert(dec_digits(n).last() == digit_char(n as int));
    } else {
        lemma_dec_digits_val(n / 10);
        lemma_digit_char_val((n % 10) as int);
        let prefix = dec_digits(n / 10);
        let whole = prefix + seq![digit_char((n % 10) as int)];
        assert(whole.drop_last() =~= prefix);
        assert(whole.last() == digit_char((n % 10) as int));
        assert(digits_val(whole) == digits_val(prefix) * 10 + (n % 10));
        assert(n / 10 * 10 + n % 10 == n) by {
            vstd::arithmetic::div_mod::lemma_fundamental_div_mod(n as int, 10);
        }
        assert(whole[0] == prefix[0]);
    }
}

/// Digit text with a nonzero leading digit has a positive value.
pub proof fn lemma_digits_val_pos(s: Seq<char>)
    requires
        all_digits(s),
        s.len() >= 1,
        digit_val(s[0]) >= 1,
    ensures
        digits_val(s) >= 1,
    decreases s.len(),
{
    if s.len() == 1 {
        assert(s.drop_last() =~= Seq::<char>::empty());
        assert(digits_val(Seq::<char>::empty()) == 0);
        assert(s.last() == s[0]);
    } else {
        lemma_digits_val_pos(s.drop_last());
        assert(s.drop_last()[0] == s[0]);
        lemma_digits_val_nonneg(s);
    }
}

/// Digit text without a leading zero is the canonical rendering of its
/// own value.
pub proof fn lemma_digits_canonical(s: Seq<char>)
    requires
        all_digits(s),
        s.len() >= 1,
        s.len() == 1 || digit_val(s[0]) >= 1,
    ensures
        digits_val(s) >= 0,
        dec_digits(digits_val(s) as nat) == s,
    decreases s.len(),
{
    lemma_digits_val_nonneg(s);
    let c = s.last();
    let d = digit_val(c);
    lemma_char_digit_round_trip(c);
    if s.len() == 1 {
        assert(s.drop_last() =~= Seq::<char>::empty());
        assert(digits_val(Seq::<char>::empty()) == 0);
        assert(digits_val(s) == d);
        assert(dec_digits(d as nat) =~= seq![digit_char(d)]);
        assert(seq![digit_char(d)] =~= s);
    } else {
        let prefix = s.drop_last();
        lemma_digits_val_pos(prefix);
        let v = digits_val(s);
        let pv = digits_val(prefix);
        assert(v == pv * 10 + d);
        assert(v >= 10);
        assert(v / 10 == pv && v % 10 == d) by {
            vstd::arithmetic::div_mod::lemma_fundamental_div_mod_converse(v, 10, pv, d);
        }
        lemma_digits_canonical(prefix);
        assert(dec_digits(v as nat) =~= dec_digits((v as nat) / 10) + seq![digit_char(v % 10)]);
        assert((v as nat) / 10 == pv as nat);
        assert(dec_digits(v as nat) =~= prefix + seq![c]);
        assert(prefix + seq![c] =~= s);
    }
}

/// Extending digit text on the right never lowers its value.
pub proof fn lemma_digits_val_prefix_le(s: Seq<char>, i: int)
    requires
        all_digits(s),
        0 <= i <= s.len(),
    ensures
        digits_val(s.subrange(0, i)) <= digits_val(s),
    decreases s.len() - i,
{
    if i == s.len() {
        assert(s.subrange(0, i) =~= s);
    } else {
        let a = s.subrange(0, i);
        let b = s.subrange(0, i + 1);
        assert(b.drop_last() =~= a);
        lemma_digits_val_nonneg(a);
        assert(forall|j: int| 0 <= j < b.len() ==> is_digit(#[trigger] b[j]));
        assert(digits_val(b) == digits_val(a) * 10 + digit_val(b.last()));
        lemma_digits_val_prefix_le(s, i + 1);
    }
}

/// Appends the character of one digit value to `out`.
pub fn push_digit(out: &mut String, d: u8)
    requires
        d < 10,
    ensures
        final(out)@ == old(out)@ + seq![digit_char(d as int)],
{
    let tbl = "0123456789";
    proof {
        reveal_strlit("0123456789");
    }
    let sub = tbl.substring_char(d as usize, d as usize + 1);
    proof {
        assert(sub@ =~= seq![tbl@[d as int]]);
        assert(tbl@[d as int] == digit_char(d as int));
    }
    out.append(sub);
}

/// Appends the decimal text of `n` to `out`.
pub fn push_dec(out: &mut String, n: u128)
    ensures
        final(out)@ == old(out)@ + dec_digits(n as nat),
    decreases n,
{
    if n < 10 {
        push_digit(out, n as u8);
    } else {
        push_dec(out, n / 10);
        push_digit(out, (n % 10) as u8);
        proof {
            assert((old(out)@ + dec_digits((n / 10) as nat)) + seq![digit_char((n % 10) as int)]
                =~= old(out)@ + (dec_digits((n / 10) as nat) + seq![digit_char((n % 10) as int)]));
        }
    }
}

/// Whether `c` is a decimal digit character.
pub fn digit_ch(c: char) -> (b: bool)
    ensures
        b == is_digit(c),
{
    let u = c as u32;
    48 <= u && u <= 57
}

} // verus!
