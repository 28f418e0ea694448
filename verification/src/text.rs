//! Character classes, run lengths and decimal digit arithmetic over
//! sequences of characters. The line patterns of the extraction engine are
//! ASCII-oriented, so the classes below cover the ASCII range.

use vstd::prelude::*;
use vstd::string::StrSliceExecFns;

verus! {

/// An ASCII decimal digit, `'0'` through `'9'`.
pub open spec fn is_digit(c: char) -> bool {
    48 <= c as u32 && c as u32 <= 57
}

/// Whitespace as the line patterns understand it: space, tab, line feed,
/// vertical tab, form feed and carriage return.
pub open spec fn is_space(c: char) -> bool {
    c as u32 == 32 || (9 <= c as u32 && c as u32 <= 13)
}

/// An ASCII letter.
pub open spec fn is_alpha(c: char) -> bool {
    (65 <= c as u32 && c as u32 <= 90) || (97 <= c as u32 && c as u32 <= 122)
}

/// A word character: letter, digit or underscore. Word boundaries of the
/// pattern matchers are defined against this class.
pub open spec fn is_word(c: char) -> bool {
    is_digit(c) || is_alpha(c) || c as u32 == 95
}

/// A character that may appear in an endpoint path: anything but whitespace
/// and the double quote.
pub open spec fn is_path_char(c: char) -> bool {
    !is_space(c) && c as u32 != 34
}

pub fn digit_char(c: char) -> (b: bool)
    ensures
        b == is_digit(c),
{
    let u = c as u32;
    48 <= u && u <= 57
}

pub fn space_char(c: char) -> (b: bool)
    ensures
        b == is_space(c),
{
    let u = c as u32;
    u == 32 || (9 <= u && u <= 13)
}

pub fn alpha_char(c: char) -> (b: bool)
    ensures
        b == is_alpha(c),
{
    let u = c as u32;
    (65 <= u && u <= 90) || (97 <= u && u <= 122)
}

pub fn word_char(c: char) -> (b: bool)
    ensures
        b == is_word(c),
{
    let u = c as u32;
    (48 <= u && u <= 57) || (65 <= u && u <= 90) || (97 <= u && u <= 122) || u == 95
}

pub fn path_char(c: char) -> (b: bool)
    ensures
        b == is_path_char(c),
{
    !space_char(c) && c as u32 != 34
}

/// Length of the run of digits starting at position `i` of `s`.
pub open spec fn digit_run(s: Seq<char>, i: int) -> int
    decreases s.len() - i,
{
    if i < 0 || i >= s.len() || !is_digit(s[i]) {
        0
    } else {
        1 + digit_run(s, i + 1)
    }
}

/// Length of the run of whitespace starting at position `i` of `s`.
pub open spec fn space_run(s: Seq<char>, i: int) -> int
    decreases s.len() - i,
{
    if i < 0 || i >= s.len() || !is_space(s[i]) {
        0
    } else {
        1 + space_run(s, i + 1)
    }
}

/// Length of the run of path characters starting at position `i` of `s`.
pub open spec fn path_run(s: Seq<char>, i: int) -> int
    decreases s.len() - i,
{
    if i < 0 || i >= s.len() || !is_path_char(s[i]) {
        0
    } else {
        1 + path_run(s, i + 1)
    }
}

proof fn lemma_digit_run_extent(s: Seq<char>, i: int, j: int)
    requires
        0 <= i <= j <= s.len(),
        forall|k: int| i <= k < j ==> is_digit(s[k]),
        j == s.len() || !is_digit(s[j]),
    ensures
        digit_run(s, i) == j - i,
    decreases j - i,
{
    if i < j {
        lemma_digit_run_extent(s, i + 1, j);
    }
}

proof fn lemma_space_run_extent(s: Seq<char>, i: int, j: int)
    requires
        0 <= i <= j <= s.len(),
        forall|k: int| i <= k < j ==> is_space(s[k]),
        j == s.len() || !is_space(s[j]),
    ensures
        space_run(s, i) == j - i,
    decreases j - i,
{
    if i < j {
        lemma_space_run_extent(s, i + 1, j);
    }
}

proof fn lemma_path_run_extent(s: Seq<char>, i: int, j: int)
    requires
        0 <= i <= j <= s.len(),
        forall|k: int| i <= k < j ==> is_path_char(s[k]),
        j == s.len() || !is_path_char(s[j]),
    ensures
        path_run(s, i) == j - i,
    decreases j - i,
{
    if i < j {
        lemma_path_run_extent(s, i + 1, j);
    }
}

/// Every position of the run is in bounds and holds a digit.
pub proof fn lemma_digit_run_chars(s: Seq<char>, i: int)
    requires
        0 <= i <= s.len(),
    ensures
        i + digit_run(s, i) <= s.len(),
        forall|k: int| i <= k < i + digit_run(s, i) ==> is_digit(s[k]),
        i + digit_run(s, i) == s.len() || !is_digit(s[i + digit_run(s, i)]),
    decreases s.len() - i,
{
    if i < s.len() && is_digit(s[i]) {
        lemma_digit_run_chars(s, i + 1);
    }
}

pub fn digit_run_at(s: &str, i: usize) -> (r: usize)
    requires
        i <= s@.len(),
    ensures
        r == digit_run(s@, i as int),
        i + r <= s@.len(),
{
    let n = s.unicode_len();
    let mut j = i;
    loop
        invariant
            i <= j <= n,
            n == s@.len(),
            forall|k: int| i <= k < j ==> is_digit(s@[k]),
        ensures
            i <= j <= n,
            forall|k: int| i <= k < j ==> is_digit(s@[k]),
            j == n || !is_digit(s@[j as int]),
        decreases n - j,
    {
        if j >= n {
            break;
        }
        let c = s.get_char(j);
        if !digit_char(c) {
            break;
        }
        j = j + 1;
    }
    proof {
        lemma_digit_run_extent(s@, i as int, j as int);
    }
    j - i
}

pub fn space_run_at(s: &str, i: usize) -> (r: usize)
    requires
        i <= s@.len(),
    ensures
        r == space_run(s@, i as int),
        i + r <= s@.len(),
{
    let n = s.unicode_len();
    let mut j = i;
    loop
        invariant
            i <= j <= n,
            n == s@.len(),
            forall|k: int| i <= k < j ==> is_space(s@[k]),
        ensures
            i <= j <= n,
            forall|k: int| i <= k < j ==> is_space(s@[k]),
            j == n || !is_space(s@[j as int]),
        decreases n - j,
    {
        if j >= n {
            break;
        }
        let c = s.get_char(j);
        if !space_char(c) {
            break;
        }
        j = j + 1;
    }
    proof {
        lemma_space_run_extent(s@, i as int, j as int);
    }
    j - i
}

pub fn path_run_at(s: &str, i: usize) -> (r: usize)
    requires
        i <= s@.len(),
    ensures
        r == path_run(s@, i as int),
        i + r <= s@.len(),
{
    let n = s.unicode_len();
    let mut j = i;
    loop
        invariant
            i <= j <= n,
            n == s@.len(),
            forall|k: int| i <= k < j ==> is_path_char(s@[k]),
        ensures
            i <= j <= n,
            forall|k: int| i <= k < j ==> is_path_char(s@[k]),
            j == n || !is_path_char(s@[j as int]),
        decreases n - j,
    {
        if j >= n {
            break;
        }
        let c = s.get_char(j);
        if !path_char(c) {
            break;
        }
        j = j + 1;
    }
    proof {
        lemma_path_run_extent(s@, i as int, j as int);
    }
    j - i
}

/// Character-wise string equality.
pub fn str_eq(a: &str, b: &str) -> (r: bool)
    ensures
        r == (a@ == b@),
{
    let na = a.unicode_len();
    let nb = b.unicode_len();
    if na != nb {
        return false;
    }
    let mut i: usize = 0;
    while i < na
        invariant
            i <= na,
            na == a@.len(),
            na == b@.len(),
            forall|k: int| 0 <= k < i ==> a@[k] == b@[k],
        decreases na - i,
    {
        if a.get_char(i) != b.get_char(i) {
            return false;
        }
        i = i + 1;
    }
    proof {
        assert(a@ =~= b@);
    }
    true
}

/// Numeric value of a digit character.
pub open spec fn digit_val(c: char) -> nat {
    (c as u32 - 48) as nat
}

/// Value of a sequence of digit characters read as a decimal number.
pub open spec fn digits_val(s: Seq<char>) -> nat
    decreases s.len(),
{
    if s.len() == 0 {
        0
    } else {
        digits_val(s.drop_last()) * 10 + digit_val(s.last())
    }
}

/// Extending a digit string on the right multiplies its value by ten and
/// adds the new digit.
pub proof fn lemma_digits_val_extend_win(s: Seq<char>, i: int, k: int)
    requires
        0 <= i <= k < s.len(),
    ensures
        digits_val(s.subrange(i, k + 1)) == digits_val(s.subrange(i, k)) * 10 + digit_val(s[k]),
{
    let t = s.subrange(i, k + 1);
    assert(t.drop_last() =~= s.subrange(i, k));
    assert(t.last() == s[k]);
}

/// Value of a one-digit string, written out.
pub proof fn lemma_digits_val1(t: Seq<char>)
    requires
        t.len() == 1,
    ensures
        digits_val(t) == digit_val(t[0]),
{
    assert(t.drop_last().len() == 0);
    assert(digits_val(t.drop_last()) == 0);
    assert(t.last() == t[0]);
}

/// Value of a two-digit string, written out.
pub proof fn lemma_digits_val2(t: Seq<char>)
    requires
        t.len() == 2,
    ensures
        digits_val(t) == 10 * digit_val(t[0]) + digit_val(t[1]),
{
    let t1 = t.drop_last();
    assert(t1.drop_last().len() == 0);
    assert(digits_val(t1.drop_last()) == 0);
    assert(t1.last() == t[0]);
    assert(t.last() == t[1]);
    assert(digits_val(t1) == digit_val(t[0]));
}

/// Value of a three-digit string, written out.
pub proof fn lemma_digits_val3(t: Seq<char>)
    requires
        t.len() == 3,
    ensures
        digits_val(t) == 100 * digit_val(t[0]) + 10 * digit_val(t[1]) + digit_val(t[2]),
{
    let t2 = t.drop_last();
    let t1 = t2.drop_last();
    assert(t1.drop_last().len() == 0);
    assert(t1.last() == t[0]);
    assert(t2.last() == t[1]);
    assert(t.last() == t[2]);
    assert(digits_val(t1.drop_last()) == 0);
    assert(digits_val(t1) == digit_val(t[0]));
    assert(digits_val(t2) == digit_val(t[0]) * 10 + digit_val(t[1]));
}

/// Numeric value of a digit character, executably.
pub fn char_digit(c: char) -> (v: u8)
    requires
        is_digit(c),
    ensures
        v as nat == digit_val(c),
{
    (c as u32 - 48) as u8
}

/// The digit character for a value below ten.
pub open spec fn digit_char_of(d: nat) -> char {
    if d == 0 {
        '0'
    } else if d == 1 {
        '1'
    } else if d == 2 {
        '2'
    } else if d == 3 {
        '3'
    } else if d == 4 {
        '4'
    } else if d == 5 {
        '5'
    } else if d == 6 {
        '6'
    } else if d == 7 {
        '7'
    } else if d == 8 {
        '8'
    } else {
        '9'
    }
}

/// Decimal rendering of a natural number, most significant digit first.
pub open spec fn dec_digits(n: nat) -> Seq<char>
    decreases n,
{
    if n < 10 {
        seq![digit_char_of(n)]
    } else {
        dec_digits(n / 10).push(digit_char_of(n % 10))
    }
}

spec fn rev_digit_chars(ds: Seq<u128>) -> Seq<char>
    decreases ds.len(),
{
    if ds.len() == 0 {
        Seq::empty()
    } else {
        seq![digit_char_of((ds.last() % 10) as nat)] + rev_digit_chars(ds.drop_last())
    }
}

pub fn append_digit(out: &mut String, d: u128)
    requires
        d < 10,
    ensures
        final(out)@ == old(out)@ + seq![digit_char_of(d as nat)],
{
    let piece: &str = if d == 0 {
        "0"
    } else if d == 1 {
        "1"
    } else if d == 2 {
        "2"
    } else if d == 3 {
        "3"
    } else if d == 4 {
        "4"
    } else if d == 5 {
        "5"
    } else if d == 6 {
        "6"
    } else if d == 7 {
        "7"
    } else if d == 8 {
        "8"
    } else {
        "9"
    };
    proof {
        reveal_strlit("0");
        reveal_strlit("1");
        reveal_strlit("2");
        reveal_strlit("3");
        reveal_strlit("4");
        reveal_strlit("5");
        reveal_strlit("6");
        reveal_strlit("7");
        reveal_strlit("8");
        reveal_strlit("9");
    }
    out.append(piece);
    proof {
        assert(piece@ =~= seq![digit_char_of(d as nat)]);
    }
}

/// Renders `n` in decimal, as `dec_digits` describes.
pub fn push_decimal(out: &mut String, n: u128)
    ensures
        final(out)@ == old(out)@ + dec_digits(n as nat),
{
    let mut ds: Vec<u128> = Vec::new();
    let mut m: u128 = n;
    while m > 0 || ds.len() == 0
        invariant
            forall|idx: int| 0 <= idx < ds@.len() ==> ds@[idx] < 10,
            ds@.len() == 0 ==> m == n,
            ds@.len() > 0 && m > 0 ==> dec_digits(n as nat) == dec_digits(m as nat)
                + rev_digit_chars(ds@),
            ds@.len() > 0 && m == 0 ==> dec_digits(n as nat) == rev_digit_chars(ds@),
        decreases m, (if ds@.len() == 0 { 1int } else { 0int }),
    {
        let ghost old_ds = ds@;
        let ghost old_m = m;
        let d = m % 10;
        ds.push(d);
        m = m / 10;
        proof {
            assert(ds@.last() == d);
            assert(ds@.drop_last() =~= old_ds);
            assert(rev_digit_chars(ds@) == seq![digit_char_of(d as nat)] + rev_digit_chars(
                old_ds,
            ));
            if old_ds.len() == 0 {
                assert(rev_digit_chars(old_ds) =~= Seq::<char>::empty());
                assert(seq![digit_char_of(d as nat)] + Seq::<char>::empty() =~= seq![
                    digit_char_of(d as nat),
                ]);
                if old_m < 10 {
                    assert(dec_digits(n as nat) == seq![digit_char_of(old_m as nat)]);
                } else {
                    assert(dec_digits(n as nat) == dec_digits((old_m / 10) as nat).push(
                        digit_char_of((old_m % 10) as nat),
                    ));
                    assert(dec_digits(m as nat) + seq![digit_char_of(d as nat)] =~= dec_digits(
                        (old_m / 10) as nat,
                    ).push(digit_char_of((old_m % 10) as nat)));
                }
            } else {
                if old_m < 10 {
                    assert(dec_digits(old_m as nat) == seq![digit_char_of(old_m as nat)]);
                    assert(dec_digits(old_m as nat) + rev_digit_chars(old_ds) =~= seq![
                        digit_char_of(d as nat),
                    ] + rev_digit_chars(old_ds));
                } else {
                    assert(dec_digits(old_m as nat) == dec_digits((old_m / 10) as nat).push(
                        digit_char_of((old_m % 10) as nat),
                    ));
                    assert(dec_digits((old_m / 10) as nat).push(digit_char_of((old_m % 10) as nat))
                        + rev_digit_chars(old_ds) =~= dec_digits((old_m / 10) as nat) + (seq![
                        digit_char_of(d as nat),
                    ] + rev_digit_chars(old_ds)));
                }
            }
        }
    }
    let mut k = ds.len();
    proof {
        assert(ds@.subrange(0, k as int) =~= ds@);
        assert(out@ + rev_digit_chars(ds@.subrange(0, k as int)) == old(out)@ + dec_digits(
            n as nat,
        ));
    }
    while k > 0
        invariant
            k <= ds@.len(),
            forall|idx: int| 0 <= idx < ds@.len() ==> ds@[idx] < 10,
            out@ + rev_digit_chars(ds@.subrange(0, k as int)) == old(out)@ + dec_digits(n as nat),
        decreases k,
    {
        let ghost prev = out@;
        let d = ds[k - 1];
        append_digit(out, d);
        k = k - 1;
        proof {
            let tail = ds@.subrange(0, k as int);
            let whole = ds@.subrange(0, k + 1int);
            assert(whole.drop_last() =~= tail);
            assert(whole.last() == d);
            assert(rev_digit_chars(whole) == seq![digit_char_of((d % 10) as nat)]
                + rev_digit_chars(tail));
            assert(out@ + rev_digit_chars(tail) =~= prev + rev_digit_chars(whole));
        }
    }
    proof {
        assert(ds@.subrange(0, 0) =~= Seq::<u128>::empty());
        assert(out@ + Seq::<char>::empty() =~= out@);
    }
}

} // verus!
