//! Text helpers: reading the characters of a string, comparing strings and
//! writing integers in decimal.

use vstd::prelude::*;
use vstd::string::StringExecFns;

verus! {

/// The decimal digit character for `d` (expected below 10).
pub open spec fn digit_char(d: nat) -> char {
    if d == 0 {
        '0'
    } else if d == 1 {
        '1'
    } else if d == 2 {
        '2'
    } else if d == 3 {
        '3'
    } else if d == 4 {
        '4'
    } else if d == 5 {
        '5'
    } else if d == 6 {
        '6'
    } else if d == 7 {
        '7'
    } else if d == 8 {
        '8'
    } else {
        '9'
    }
}

/// The decimal writing of a natural number, without leading zeros.
pub open spec fn nat_digits(n: nat) -> Seq<char>
    decreases n,
{
    if n < 10 {
        seq![digit_char(n)]
    } else {
        nat_digits(n / 10).push(digit_char(n % 10))
    }
}

/// The decimal writing of an integer, with a leading `-` when it is negative.
pub open spec fn int_digits(v: int) -> Seq<char> {
    if v < 0 {
        seq!['-'] + nat_digits((-v) as nat)
    } else {
        nat_digits(v as nat)
    }
}

/// The characters of a string, in order.
pub fn chars_of(s: &str) -> (r: Vec<char>)
    ensures
        r@ == s@,
{
    let mut out: Vec<char> = Vec::new();
    for c in it: s.chars()
        invariant
            out@ == it.seq().take(it.index() as int),
    {
        out.push(c);
    }
    out
}

/// Whether two strings hold the same characters.
pub fn str_equal(a: &str, b: &str) -> (r: bool)
    ensures
        r == (a@ == b@),
{
    let ca = chars_of(a);
    let cb = chars_of(b);
    if ca.len() != cb.len() {
        return false;
    }
    let mut i: usize = 0;
    while i < ca.len()
        invariant
            ca@ == a@,
            cb@ == b@,
            ca@.len() == cb@.len(),
            0 <= i <= ca@.len(),
            forall|j: int| 0 <= j < i ==> ca@[j] == cb@[j],
        decreases ca@.len() - i,
    {
        if ca[i] != cb[i] {
            return false;
        }
        i = i + 1;
    }
    proof {
        assert(ca@ =~= cb@);
    }
    true
}

/// A one-character string holding the digit `d`.
fn digit_str(d: u64) -> (r: &'static str)
    requires
        d < 10,
    ensures
        r@ == seq![digit_char(d as nat)],
{
    if d == 0 {
        proof {
            reveal_strlit("0");
        }
        "0"
    } else if d == 1 {
        proof {
            reveal_strlit("1");
        }
        "1"
    } else if d == 2 {
        proof {
            reveal_strlit("2");
        }
        "2"
    } else if d == 3 {
        proof {
            reveal_strlit("3");
        }
        "3"
    } else if d == 4 {
        proof {
            reveal_strlit("4");
        }
        "4"
    } else if d == 5 {
        proof {
            reveal_strlit("5");
        }
        "5"
    } else if d == 6 {
        proof {
            reveal_strlit("6");
        }
        "6"
    } else if d == 7 {
        proof {
            reveal_strlit("7");
        }
        "7"
    } else if d == 8 {
        proof {
            reveal_strlit("8");
        }
        "8"
    } else {
        proof {
            reveal_strlit("9");
        }
        "9"
    }
}

/// Appends the decimal writing of `n` to `s`.
pub fn push_nat(s: &mut String, n: u64)
    ensures
        final(s)@ == old(s)@ + nat_digits(n as nat),
    decreases n,
{
    if n >= 10 {
        push_nat(s, n / 10);
    }
    s.append(digit_str(n % 10));
    proof {
        assert(final(s)@ =~= old(s)@ + nat_digits(n as nat));
    }
}

/// Appends the decimal writing of `v` to `s`, with a `-` sign when negative.
pub fn push_int(s: &mut String, v: i64)
    ensures
        final(s)@ == old(s)@ + int_digits(v as int),
{
    if v < 0 {
        proof {
            reveal_strlit("-");
        }
        s.append("-");
        let m: u64 = if v == i64::MIN {
            9223372036854775808u64
        } else {
            (-v) as u64
        };
        push_nat(s, m);
        proof {
            assert(final(s)@ =~= old(s)@ + int_digits(v as int));
        }
    } else {
        push_nat(s, v as u64);
    }
}

/// The decimal writing of `v`.
pub fn int_to_string(v: i64) -> (r: String)
    ensures
        r@ == int_digits(v as int),
{
    let mut s = String::new();
    push_int(&mut s, v);
    proof {
        assert(s@ =~= int_digits(v as int));
    }
    s
}

/// Appends the literal text `t` to `s`.
pub fn push_str(s: &mut String, t: &str)
    ensures
        final(s)@ == old(s)@ + t@,
{
    s.append(t);
}

/// `n` spaces (none when `n` is not positive).
pub open spec fn spaces(n: int) -> Seq<char> {
    Seq::new(if n > 0 { n as nat } else { 0 }, |_i: int| ' ')
}

/// The text `d` padded on the left with spaces to at least `width` characters.
pub open spec fn right_aligned(d: Seq<char>, width: int) -> Seq<char> {
    spaces(width - d.len()) + d
}

/// The number of characters of the decimal writing of `v`.
pub fn digit_count(v: i32) -> (r: usize)
    ensures
        r == int_digits(v as int).len(),
{
    let s = int_to_string(v as i64);
    s.as_str().unicode_len()
}

/// Appends `n` spaces to `s`.
pub fn push_spaces(s: &mut String, n: usize)
    ensures
        final(s)@ == old(s)@ + spaces(n as int),
{
    let mut k: usize = 0;
    while k < n
        invariant
            0 <= k <= n,
            s@ == old(s)@ + spaces(k as int),
        decreases n - k,
    {
        proof {
            reveal_strlit(" ");
        }
        s.append(" ");
        proof {
            assert(spaces(k + 1) =~= spaces(k as int) + seq![' ']);
        }
        k = k + 1;
    }
}

/// Appends the decimal writing of `v`, padded on the left with spaces to at least `width` characters.
pub fn push_right_aligned(s: &mut String, v: i32, width: usize)
    ensures
        final(s)@ == old(s)@ + right_aligned(int_digits(v as int), width as int),
{
    let d = digit_count(v);
    if d < width {
        push_spaces(s, width - d);
    } else {
        proof {
            assert(spaces(width - int_digits(v as int).len()) =~= Seq::<char>::empty());
        }
    }
    push_int(s, v as i64);
    proof {
        assert(final(s)@ =~= old(s)@ + right_aligned(int_digits(v as int), width as int));
    }
}

/// The decimal writing of `n` has at most `n + 1` digits.
pub proof fn lemma_nat_digits_len(n: nat)
    ensures
        nat_digits(n).len() <= n + 1,
    decreases n,
{
    if n >= 10 {
        lemma_nat_digits_len(n / 10);
    }
}

/// The decimal writing of a number holds at least one character, and no
/// underscore.
pub proof fn lemma_nat_digits_no_underscore(n: nat)
    ensures
        nat_digits(n).len() >= 1,
        n >= 10 ==> nat_digits(n).len() >= 2,
        !nat_digits(n).contains('_'),
    decreases n,
{
    if n >= 10 {
        lemma_nat_digits_no_underscore(n / 10);
        let d = nat_digits(n / 10);
        assert forall|i: int| 0 <= i < nat_digits(n).len() implies nat_digits(n)[i] != '_' by {
            if i < d.len() {
                assert(nat_digits(n)[i] == d[i]);
            }
        }
    }
}

/// Two numbers with the same decimal writing are equal.
pub proof fn lemma_nat_digits_injective(a: nat, b: nat)
    requires
        nat_digits(a) == nat_digits(b),
    ensures
        a == b,
    decreases a,
{
    lemma_nat_digits_no_underscore(a);
    lemma_nat_digits_no_underscore(b);
    if a >= 10 && b >= 10 {
        let (da, db) = (nat_digits(a), nat_digits(b));
        assert(da.last() == digit_char(a % 10));
        assert(db.last() == digit_char(b % 10));
        assert(a % 10 == b % 10);
        assert(da.drop_last() =~= nat_digits(a / 10));
        assert(db.drop_last() =~= nat_digits(b / 10));
        lemma_nat_digits_injective(a / 10, b / 10);
        assert(a == 10 * (a / 10) + a % 10);
        assert(b == 10 * (b / 10) + b % 10);
    } else if a < 10 && b < 10 {
        assert(nat_digits(a)[0] == digit_char(a));
        assert(nat_digits(b)[0] == digit_char(b));
        assert(digit_char(a) == digit_char(b));
        assert(a == b);
    } else {
        assert(nat_digits(a).len() != nat_digits(b).len());
    }
}

/// The decimal writing of `v` has at most `|v| + 2` characters.
pub proof fn lemma_int_digits_len(v: int)
    ensures
        v >= 0 ==> int_digits(v).len() <= v + 2,
        v < 0 ==> int_digits(v).len() <= 2 - v,
{
    if v < 0 {
        lemma_nat_digits_len((-v) as nat);
    } else {
        lemma_nat_digits_len(v as nat);
    }
}

/// The texts of a sequence of strings.
pub open spec fn string_views(v: Seq<String>) -> Seq<Seq<char>> {
    v.map_values(|s: String| s@)
}

} // verus!
