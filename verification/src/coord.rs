//! Cell coordinates and their "natural" text form: one or more upper-case
//! letters naming the column as a bijective base-26 numeral (A=1 .. Z=26),
//! followed by a 1-based decimal row number. `A1` names `Coord(0, 0)`.

use vstd::prelude::*;

use crate::digits::{
    all_digits, dec_digits, digit_val, digits_val, is_digit, lemma_char_digit_round_trip,
    lemma_dec_digits_val, lemma_digits_canonical, lemma_digits_val_nonneg,
    lemma_digits_val_prefix_le, digit_ch, push_dec,
};

verus! {

/// The position of a cell in a spreadsheet: zero-based column, then
/// zero-based row. The cell at A1 has `Coord(0, 0)`.
#[derive(Debug, Clone, Copy, PartialEq, Eq, Hash, Structural)]
pub struct Coord(pub usize, pub usize);

/// The position of a cell in its "natural" representation.
/// The cell at A1 has `NatCoord("A", 1)`.
#[derive(Debug, PartialEq, Eq)]
pub struct NatCoord<'a>(pub &'a str, pub usize);

/// The character for one bijective base-26 digit value (0 is A, 25 is Z).
pub open spec fn letter_char(l: int) -> char {
    if l == 0 {
        'A'
    } else if l == 1 {
        'B'
    } else if l == 2 {
        'C'
    } else if l == 3 {
        'D'
    } else if l == 4 {
        'E'
    } else if l == 5 {
        'F'
    } else if l == 6 {
        'G'
    } else if l == 7 {
        'H'
    } else if l == 8 {
        'I'
    } else if l == 9 {
        'J'
    } else if l == 10 {
        'K'
    } else if l == 11 {
        'L'
    } else if l == 12 {
        'M'
    } else if l == 13 {
        'N'
    } else if l == 14 {
        'O'
    } else if l == 15 {
        'P'
    } else if l == 16 {
        'Q'
    } else if l == 17 {
        'R'
    } else if l == 18 {
        'S'
    } else if l == 19 {
        'T'
    } else if l == 20 {
        'U'
    } else if l == 21 {
        'V'
    } else if l == 22 {
        'W'
    } else if l == 23 {
        'X'
    } else if l == 24 {
        'Y'
    } else {
        'Z'
    }
}

pub open spec fn is_upper(c: char) -> bool {
    65 <= c as u32 <= 90
}

/// The bijective base-26 digit value of an upper-case letter, zero-based.
pub open spec fn letter_val(c: char) -> int {
    c as u32 - 65
}

pub open spec fn all_upper(s: Seq<char>) -> bool {
    forall|i: int| 0 <= i < s.len() ==> is_upper(#[trigger] s[i])
}

/// The value of a letter string read as a bijective base-26 numeral,
/// most significant letter first; the empty string has value 0.
pub open spec fn letters_val(s: Seq<char>) -> int
    decreases s.len(),
{
    if s.len() == 0 {
        0
    } else {
        letters_val(s.drop_last()) * 26 + letter_val(s.last()) + 1
    }
}

/// The bijective base-26 numeral of `n`; 0 renders as the empty string.
pub open spec fn letters_of(n: nat) -> Seq<char>
    decreases n,
{
    if n == 0 {
        Seq::empty()
    } else {
        letters_of(((n - 1) / 26) as nat) + seq![letter_char((n - 1) % 26)]
    }
}

pub proof fn lemma_letter_char_val(l: int)
    requires
        0 <= l < 26,
    ensures
        is_upper(letter_char(l)),
        letter_val(letter_char(l)) == l,
{
}

pub proof fn lemma_char_letter_round_trip(c: char)
    requires
        is_upper(c),
    ensures
        letter_char(letter_val(c)) == c,
{
    assert(c as u32 == 65 ==> c == 'A');
    assert(c as u32 == 66 ==> c == 'B');
    assert(c as u32 == 67 ==> c == 'C');
    assert(c as u32 == 68 ==> c == 'D');
    assert(c as u32 == 69 ==> c == 'E');
    assert(c as u32 == 70 ==> c == 'F');
    assert(c as u32 == 71 ==> c == 'G');
    assert(c as u32 == 72 ==> c == 'H');
    assert(c as u32 == 73 ==> c == 'I');
    assert(c as u32 == 74 ==> c == 'J');
    assert(c as u32 == 75 ==> c == 'K');
    assert(c as u32 == 76 ==> c == 'L');
    assert(c as u32 == 77 ==> c == 'M');
    assert(c as u32 == 78 ==> c == 'N');
    assert(c as u32 == 79 ==> c == 'O');
    assert(c as u32 == 80 ==> c == 'P');
    assert(c as u32 == 81 ==> c == 'Q');
    assert(c as u32 == 82 ==> c == 'R');
    assert(c as u32 == 83 ==> c == 'S');
    assert(c as u32 == 84 ==> c == 'T');
    assert(c as u32 == 85 ==> c == 'U');
    assert(c as u32 == 86 ==> c == 'V');
    assert(c as u32 == 87 ==> c == 'W');
    assert(c as u32 == 88 ==> c == 'X');
    assert(c as u32 == 89 ==> c == 'Y');
    assert(c as u32 == 90 ==> c == 'Z');
}

pub proof fn lemma_letters_val_nonneg(s: Seq<char>)
    requires
        all_upper(s),
    ensures
        letters_val(s) >= 0,
        s.len() >= 1 ==> letters_val(s) >= 1,
    decreases s.len(),
{
    if s.len() > 0 {
        lemma_letters_val_nonneg(s.drop_last());
    }
}

/// The numeral of a value is a letter string with that value.
pub proof fn lemma_letters_of_val(n: nat)
    ensures
        all_upper(letters_of(n)),
        letters_val(letters_of(n)) == n,
        n >= 1 ==> letters_of(n).len() >= 1,
    decreases n,
{
    if n >= 1 {
        let q = ((n - 1) / 26) as nat;
        let r = (n - 1) % 26;
        lemma_letters_of_val(q);
        lemma_letter_char_val(r);
        let prefix = letters_of(q);
        let whole = prefix + seq![letter_char(r)];
        assert(whole.drop_last() =~= prefix);
        assert(whole.last() == letter_char(r));
        assert(q * 26 + r == n - 1) by {
            vstd::arithmetic::div_mod::lemma_fundamental_div_mod(n - 1, 26);
        }
    } else {
        assert(letters_of(0) =~= Seq::<char>::empty());
    }
}

/// A letter string is the numeral of its own value.
pub proof fn lemma_letters_canonical(s: Seq<char>)
    requires
        all_upper(s),
    ensures
        letters_val(s) >= 0,
        letters_of(letters_val(s) as nat) == s,
    decreases s.len(),
{
    lemma_letters_val_nonneg(s);
    if s.len() == 0 {
        assert(letters_of(0) =~= Seq::<char>::empty());
        assert(s =~= Seq::<char>::empty());
    } else {
        let prefix = s.drop_last();
        let c = s.last();
        let l = letter_val(c);
        lemma_char_letter_round_trip(c);
        lemma_letters_val_nonneg(prefix);
        lemma_letters_canonical(prefix);
        let pv = letters_val(prefix);
        let v = letters_val(s);
        assert(v == pv * 26 + l + 1);
        assert((v - 1) / 26 == pv && (v - 1) % 26 == l) by {
            vstd::arithmetic::div_mod::lemma_fundamental_div_mod_converse(v - 1, 26, pv, l);
        }
        assert(letters_of(v as nat) =~= letters_of(pv as nat) + seq![letter_char(l)]);
        assert(letters_of(pv as nat) + seq![letter_char(l)] =~= prefix + seq![c]);
        assert(prefix + seq![c] =~= s);
    }
}

/// Extending a letter string on the right never lowers its value.
pub proof fn lemma_letters_val_prefix_le(s: Seq<char>, i: int)
    requires
        all_upper(s),
        0 <= i <= s.len(),
    ensures
        letters_val(s.subrange(0, i)) <= letters_val(s),
    decreases s.len() - i,
{
    if i == s.len() {
        assert(s.subrange(0, i) =~= s);
    } else {
        let a = s.subrange(0, i);
        let b = s.subrange(0, i + 1);
        assert(b.drop_last() =~= a);
        lemma_letters_val_nonneg(a);
        assert(forall|j: int| 0 <= j < b.len() ==> is_upper(#[trigger] b[j]));
        assert(letters_val(b) == letters_val(a) * 26 + letter_val(b.last()) + 1);
        lemma_letters_val_prefix_le(s, i + 1);
    }
}

/// Appends the letter of one bijective base-26 digit value to `out`.
fn push_letter(out: &mut String, l: u8)
    requires
        l < 26,
    ensures
        final(out)@ == old(out)@ + seq![letter_char(l as int)],
{
    let tbl = "ABCDEFGHIJKLMNOPQRSTUVWXYZ";
    proof {
        reveal_strlit("ABCDEFGHIJKLMNOPQRSTUVWXYZ");
    }
    let sub = tbl.substring_char(l as usize, l as usize + 1);
    proof {
        assert(sub@ =~= seq![tbl@[l as int]]);
        assert(tbl@[l as int] == letter_char(l as int));
    }
    out.append(sub);
}

/// Appends the bijective base-26 numeral of `n` to `out`.
fn push_letters(out: &mut String, n: u128)
    ensures
        final(out)@ == old(out)@ + letters_of(n as nat),
    decreases n,
{
    if n > 0 {
        let m = n - 1;
        push_letters(out, m / 26);
        push_letter(out, (m % 26) as u8);
        proof {
            assert((old(out)@ + letters_of((m / 26) as nat)) + seq![letter_char((m % 26) as int)]
                =~= old(out)@ + (letters_of((m / 26) as nat) + seq![letter_char((m % 26) as int)]));
        }
    } else {
        assert(letters_of(0) =~= Seq::<char>::empty());
        assert(old(out)@ + Seq::<char>::empty() =~= old(out)@);
    }
}

/// What converting a column's letter string to its zero-based index yields.
pub open spec fn spec_col_to_numeric(s: Seq<char>) -> Option<usize> {
    if s.len() == 0 || !all_upper(s) {
        None
    } else if letters_val(s) - 1 > usize::MAX as int {
        None
    } else {
        Some((letters_val(s) - 1) as usize)
    }
}

/// Converts a column's letter string (bijective base 26, A=1 .. Z=26) to
/// its zero-based numeric index. `None` when the string is empty, holds a
/// character outside `A`-`Z`, or names a column beyond the machine range.
pub fn natural_col_to_numeric(col: &str) -> (r: Option<usize>)
    ensures
        r == spec_col_to_numeric(col@),
{
    let n = col.unicode_len();
    if n == 0 {
        return None;
    }
    let mut i: usize = 0;
    while i < n
        invariant
            n == col@.len(),
            0 <= i <= n,
            forall|j: int| 0 <= j < i ==> is_upper(#[trigger] col@[j]),
        decreases n - i,
    {
        let u = col.get_char(i) as u32;
        if u < 65 || u > 90 {
            return None;
        }
        i += 1;
    }
    let ghost s = col@;
    let mut acc: u128 = 0;
    let mut i: usize = 0;
    while i < n
        invariant
            n == s.len(),
            s == col@,
            n >= 1,
            all_upper(s),
            0 <= i <= n,
            acc == letters_val(s.subrange(0, i as int)),
            acc <= usize::MAX as u128 + 1,
        decreases n - i,
    {
        let u = col.get_char(i) as u32;
        proof {
            let a = s.subrange(0, i as int);
            let b = s.subrange(0, i as int + 1);
            assert(b.drop_last() =~= a);
            assert(b.last() == s[i as int]);
            lemma_letters_val_nonneg(a);
        }
        let next = acc * 26 + (u - 65) as u128 + 1;
        if next > usize::MAX as u128 + 1 {
            proof {
                lemma_letters_val_prefix_le(s, i as int + 1);
            }
            return None;
        }
        acc = next;
        i += 1;
    }
    proof {
        assert(s.subrange(0, n as int) =~= s);
        lemma_letters_val_nonneg(s);
    }
    Some((acc - 1) as usize)
}

/// Renders a zero-based column index as its letter string; correct for
/// columns of any width (701 is "ZZ", 702 is "AAA").
pub fn numeric_col_to_natural(col: usize) -> (r: String)
    ensures
        r@ == letters_of(col as nat + 1),
{
    let mut out = String::new();
    push_letters(&mut out, col as u128 + 1);
    proof {
        assert(Seq::<char>::empty() + letters_of(col as nat + 1) =~= letters_of(col as nat + 1));
    }
    out
}

/// What converting natural components to a coordinate yields.
pub open spec fn spec_natural_to_numeric(col: Seq<char>, row: usize) -> Option<Coord> {
    if row < 1 {
        None
    } else {
        match spec_col_to_numeric(col) {
            None => None,
            Some(c) => Some(Coord(c, (row - 1) as usize)),
        }
    }
}

/// Converts coordinates from natural components (see `NatCoord`): a
/// column letter string and a 1-based row. `None` when the column is not
/// a valid letter string or the row is 0.
pub fn natural_to_numeric(col: &str, row: usize) -> (r: Option<Coord>)
    ensures
        r == spec_natural_to_numeric(col@, row),
{
    if row < 1 {
        return None;
    }
    match natural_col_to_numeric(col) {
        None => None,
        Some(c) => Some(Coord(c, row - 1)),
    }
}

impl<'a> NatCoord<'a> {
    /// The coordinate this natural position names, if it is well formed.
    pub fn to_numeric(&'a self) -> (r: Option<Coord>)
        ensures
            r == spec_natural_to_numeric(self.0@, self.1),
    {
        let NatCoord(col, row) = *self;
        natural_to_numeric(col, row)
    }
}

/// The position of the first decimal digit in `s`, or -1 when none occurs.
pub open spec fn first_digit_idx(s: Seq<char>) -> int
    decreases s.len(),
{
    if s.len() == 0 {
        -1
    } else if is_digit(s[0]) {
        0
    } else {
        let r = first_digit_idx(s.drop_first());
        if r < 0 {
            -1
        } else {
            r + 1
        }
    }
}

pub proof fn lemma_first_digit_idx(s: Seq<char>)
    ensures
        first_digit_idx(s) == -1 ==> forall|j: int| 0 <= j < s.len() ==> !is_digit(#[trigger] s[j]),
        first_digit_idx(s) >= 0 ==> {
            let r = first_digit_idx(s);
            &&& 0 <= r < s.len()
            &&& is_digit(s[r])
            &&& forall|j: int| 0 <= j < r ==> !is_digit(#[trigger] s[j])
        },
    decreases s.len(),
{
    if s.len() > 0 && !is_digit(s[0]) {
        lemma_first_digit_idx(s.drop_first());
        assert(forall|j: int| 1 <= j < s.len() ==> #[trigger] s[j] == s.drop_first()[j - 1]);
    }
}

/// What parsing natural-coordinate text yields: the text up to the first
/// digit must be a column letter string, the rest a positive decimal row.
pub open spec fn spec_parse_natural(s: Seq<char>) -> Option<Coord> {
    let k = first_digit_idx(s);
    if k < 0 {
        None
    } else {
        let suf = s.subrange(k, s.len() as int);
        if !all_digits(suf) {
            None
        } else {
            let v = digits_val(suf);
            if v < 1 || v > usize::MAX as int {
                None
            } else {
                match spec_col_to_numeric(s.subrange(0, k)) {
                    None => None,
                    Some(col) => Some(Coord(col, (v - 1) as usize)),
                }
            }
        }
    }
}

/// The canonical text of a coordinate: the column's letter numeral, then
/// the 1-based row in decimal.
pub open spec fn spec_format_natural(c: Coord) -> Seq<char> {
    letters_of(c.0 as nat + 1) + dec_digits(c.1 as nat + 1)
}

impl Coord {
    /// Parses natural-coordinate text such as "A1" or "AJ4". The text is
    /// split at its first decimal digit; the prefix must be one or more
    /// `A`-`Z` letters and the suffix a decimal row of value 1 or more.
    /// `None` on any malformed input.
    pub fn parse(s: &str) -> (r: Option<Coord>)
        ensures
            r == spec_parse_natural(s@),
    {
        let n = s.unicode_len();
        let mut k: usize = 0;
        while k < n && !digit_ch(s.get_char(k))
            invariant
                n == s@.len(),
                0 <= k <= n,
                forall|j: int| 0 <= j < k ==> !is_digit(#[trigger] s@[j]),
            decreases n - k,
    {
            k += 1;
        }
        proof {
            lemma_first_digit_idx(s@);
        }
        if k == n {
            return None;
        }
        // k is now the first digit's position.
        proof {
            assert(first_digit_idx(s@) == k);
        }
        let ghost suf = s@.subrange(k as int, n as int);
        // Validate the row text.
        let mut i: usize = k;
        while i < n
            invariant
                n == s@.len(),
                0 <= k < n,
                first_digit_idx(s@) == k as int,
                k <= i <= n,
                suf == s@.subrange(k as int, n as int),
                forall|j: int| k <= j < i ==> is_digit(#[trigger] s@[j]),
            decreases n - i,
        {
            if !digit_ch(s.get_char(i)) {
                proof {
                    assert(!is_digit(suf[i - k as int]));
                }
                return None;
            }
            i += 1;
        }
        proof {
            assert(forall|j: int| 0 <= j < suf.len() ==> suf[j] == s@[j + k]);
            assert(all_digits(suf));
        }
        // Accumulate the row value.
        let mut v: u128 = 0;
        let mut i: usize = k;
        while i < n
            invariant
                n == s@.len(),
                0 <= k < n,
                first_digit_idx(s@) == k as int,
                k <= i <= n,
                suf == s@.subrange(k as int, n as int),
                all_digits(suf),
                forall|j: int| 0 <= j < suf.len() ==> suf[j] == s@[j + k],
                v == digits_val(suf.subrange(0, i - k as int)),
                v <= usize::MAX as u128,
            decreases n - i,
        {
            let u = s.get_char(i) as u32;
            proof {
                let a = suf.subrange(0, i - k as int);
                let b = suf.subrange(0, i + 1 - k as int);
                assert(b.drop_last() =~= a);
                assert(b.last() == suf[i - k as int]);
                assert(suf[i - k as int] == s@[i as int]);
                lemma_digits_val_nonneg(a);
                assert(forall|j: int| 0 <= j < b.len() ==> is_digit(#[trigger] b[j]));
            }
            let next = v * 10 + (u - 48) as u128;
            if next > usize::MAX as u128 {
                proof {
                    lemma_digits_val_prefix_le(suf, i + 1 - k as int);
                }
                return None;
            }
            v = next;
            i += 1;
        }
        proof {
            assert(suf.subrange(0, n - k as int) =~= suf);
        }
        if v < 1 {
            return None;
        }
        let pre = s.substring_char(0, k);
        match natural_col_to_numeric(pre) {
            None => None,
            Some(col) => Some(Coord(col, (v - 1) as usize)),
        }
    }

    /// The natural text of this coordinate: its column letters, then its
    /// 1-based row number.
    pub fn format_natural(&self) -> (r: String)
        ensures
            r@ == spec_format_natural(*self),
    {
        let Coord(col, row) = *self;
        let mut out = numeric_col_to_natural(col);
        push_dec(&mut out, row as u128 + 1);
        out
    }
}

/// Formatting a coordinate and parsing the text back yields the same
/// coordinate, for every coordinate whose 1-based row number still fits
/// the machine's row range.
pub proof fn lemma_natural_round_trip(c: Coord)
    requires
        c.1 < usize::MAX,
    ensures
        spec_parse_natural(spec_format_natural(c)) == Some(c),
{
    let letters = letters_of(c.0 as nat + 1);
    let row = dec_digits(c.1 as nat + 1);
    let s = spec_format_natural(c);
    lemma_letters_of_val(c.0 as nat + 1);
    lemma_dec_digits_val(c.1 as nat + 1);
    assert(s.len() == letters.len() + row.len());
    assert(forall|j: int| 0 <= j < letters.len() ==> s[j] == letters[j]);
    assert(forall|j: int| letters.len() <= j < s.len() ==> s[j] == row[j - letters.len()]);
    lemma_first_digit_idx(s);
    assert(is_digit(s[letters.len() as int]));
    assert(forall|j: int| 0 <= j < letters.len() ==> is_upper(#[trigger] s[j]) && !is_digit(s[j]));
    let k = first_digit_idx(s);
    assert(k == letters.len());
    assert(s.subrange(k, s.len() as int) =~= row);
    assert(s.subrange(0, k) =~= letters);
    assert(digits_val(row) == c.1 as int + 1);
    assert(letters_val(letters) == c.0 as int + 1);
}

/// Well-formed natural-coordinate text survives a parse and re-format
/// unchanged: the text round trip of the coordinate bijection.
pub proof fn lemma_natural_text_round_trip(s: Seq<char>)
    requires
        spec_parse_natural(s) is Some,
        digit_val(s[first_digit_idx(s)]) >= 1,
    ensures
        spec_format_natural(spec_parse_natural(s)->Some_0) == s,
{
    let k = first_digit_idx(s);
    lemma_first_digit_idx(s);
    let pre = s.subrange(0, k);
    let suf = s.subrange(k, s.len() as int);
    let c = spec_parse_natural(s)->Some_0;
    assert(suf[0] == s[k]);
    lemma_digits_canonical(suf);
    lemma_letters_canonical(pre);
    assert(c.0 as int == letters_val(pre) - 1);
    assert(c.1 as int == digits_val(suf) - 1);
    assert(letters_of(c.0 as nat + 1) == pre);
    assert(dec_digits(c.1 as nat + 1) == suf);
    assert(pre + suf =~= s);
}

} // verus!
