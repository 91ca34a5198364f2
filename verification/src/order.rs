//! Lexicographic order on sequences of unsigned integers, used to keep names
//! and other keys sorted.

use vstd::prelude::*;

verus! {

/// Strict lexicographic order: `a` comes before `b`.
pub open spec fn lex_lt(a: Seq<int>, b: Seq<int>) -> bool
    decreases a.len(),
{
    if a.len() == 0 {
        b.len() > 0
    } else if b.len() == 0 {
        false
    } else if a[0] == b[0] {
        lex_lt(a.drop_first(), b.drop_first())
    } else {
        a[0] < b[0]
    }
}

/// No sequence comes before itself.
pub proof fn lemma_lex_irreflexive(a: Seq<int>)
    ensures
        !lex_lt(a, a),
    decreases a.len(),
{
    if a.len() > 0 {
        lemma_lex_irreflexive(a.drop_first());
    }
}

/// Two sequences are never each before the other.
pub proof fn lemma_lex_asymmetric(a: Seq<int>, b: Seq<int>)
    ensures
        !(lex_lt(a, b) && lex_lt(b, a)),
    decreases a.len(),
{
    if a.len() > 0 && b.len() > 0 && a[0] == b[0] {
        lemma_lex_asymmetric(a.drop_first(), b.drop_first());
    }
}

/// The order is transitive.
pub proof fn lemma_lex_transitive(a: Seq<int>, b: Seq<int>, c: Seq<int>)
    requires
        lex_lt(a, b),
        lex_lt(b, c),
    ensures
        lex_lt(a, c),
    decreases a.len(),
{
    if a.len() > 0 && b.len() > 0 && c.len() > 0 && a[0] == b[0] && b[0] == c[0] {
        lemma_lex_transitive(a.drop_first(), b.drop_first(), c.drop_first());
    }
}

/// Any two distinct sequences are ordered one way or the other.
pub proof fn lemma_lex_total(a: Seq<int>, b: Seq<int>)
    ensures
        a == b || lex_lt(a, b) || lex_lt(b, a),
    decreases a.len(),
{
    if a.len() > 0 && b.len() > 0 && a[0] == b[0] {
        lemma_lex_total(a.drop_first(), b.drop_first());
        if a.drop_first() == b.drop_first() {
            assert(a =~= seq![a[0]] + a.drop_first());
            assert(b =~= seq![b[0]] + b.drop_first());
        }
    } else if a.len() == 0 && b.len() == 0 {
        assert(a =~= b);
    }
}

/// Dropping a common prefix does not change the order.
proof fn lemma_lex_skip(a: Seq<int>, b: Seq<int>, i: int)
    requires
        0 <= i <= a.len(),
        i <= b.len(),
        a.take(i) == b.take(i),
    ensures
        lex_lt(a, b) == lex_lt(a.skip(i), b.skip(i)),
    decreases i,
{
    if i == 0 {
        assert(a.skip(0) =~= a);
        assert(b.skip(0) =~= b);
    } else {
        assert(a[0] == a.take(i)[0]);
        assert(b[0] == b.take(i)[0]);
        assert(a.drop_first().take(i - 1) =~= a.take(i).drop_first());
        assert(b.drop_first().take(i - 1) =~= b.take(i).drop_first());
        lemma_lex_skip(a.drop_first(), b.drop_first(), i - 1);
        assert(a.drop_first().skip(i - 1) =~= a.skip(i));
        assert(b.drop_first().skip(i - 1) =~= b.skip(i));
    }
}

/// Outcome of comparing two keys.
#[derive(Clone, Copy, PartialEq, Eq, Debug, Structural)]
pub enum KeyOrder {
    Less,
    Equal,
    Greater,
}

/// The integer values of a key held as unsigned words.
pub open spec fn ints(a: Seq<u64>) -> Seq<int> {
    a.map_values(|x: u64| x as int)
}

/// Compares two keys in lexicographic order.
pub fn compare_keys(a: &Vec<u64>, b: &Vec<u64>) -> (r: KeyOrder)
    ensures
        (r == KeyOrder::Less) == lex_lt(ints(a@), ints(b@)),
        (r == KeyOrder::Equal) == (ints(a@) == ints(b@)),
        (r == KeyOrder::Greater) == lex_lt(ints(b@), ints(a@)),
{
    let ghost x = ints(a@);
    let ghost y = ints(b@);
    let mut i: usize = 0;
    while i < a.len() && i < b.len()
        invariant
            x == ints(a@),
            y == ints(b@),
            0 <= i <= a@.len(),
            i <= b@.len(),
            x.take(i as int) == y.take(i as int),
        decreases a@.len() - i,
    {
        if a[i] != b[i] {
            proof {
                lemma_lex_skip(x, y, i as int);
                lemma_lex_skip(y, x, i as int);
                assert(x.skip(i as int)[0] == x[i as int]);
                assert(y.skip(i as int)[0] == y[i as int]);
                if x == y {
                    assert(x[i as int] == y[i as int]);
                }
            }
            if a[i] < b[i] {
                return KeyOrder::Less;
            } else {
                return KeyOrder::Greater;
            }
        }
        proof {
            assert(x.take(i + 1) =~= x.take(i as int).push(x[i as int]));
            assert(y.take(i + 1) =~= y.take(i as int).push(y[i as int]));
        }
        i = i + 1;
    }
    proof {
        lemma_lex_skip(x, y, i as int);
        lemma_lex_skip(y, x, i as int);
        if a@.len() == b@.len() {
            assert(x.take(i as int) =~= x);
            assert(y.take(i as int) =~= y);
        } else if a@.len() < b@.len() {
            assert(x.take(i as int) =~= x);
            assert(x.skip(i as int).len() == 0);
            if x == y {
                assert(false);
            }
        } else {
            assert(y.take(i as int) =~= y);
            assert(y.skip(i as int).len() == 0);
        }
    }
    if a.len() < b.len() {
        KeyOrder::Less
    } else if a.len() == b.len() {
        KeyOrder::Equal
    } else {
        KeyOrder::Greater
    }
}

/// The character codes of a text, used as its sort key.
pub open spec fn char_codes(s: Seq<char>) -> Seq<int> {
    s.map_values(|c: char| c as int)
}

/// Texts with the same codes are the same text.
pub proof fn lemma_char_codes_injective(a: Seq<char>, b: Seq<char>)
    requires
        char_codes(a) == char_codes(b),
    ensures
        a == b,
{
    assert(a.len() == char_codes(a).len());
    assert forall|i: int| 0 <= i < a.len() implies a[i] == b[i] by {
        assert(char_codes(a)[i] == char_codes(b)[i]);
        assert(char_codes(a)[i] == a[i] as int);
        assert(char_codes(b)[i] == b[i] as int);
        assert((a[i] as int) == (b[i] as int));
    }
    assert(a =~= b);
}

/// The code point of a character.
fn char_code(c: char) -> (r: u32)
    ensures
        r as int == c as int,
{
    c as u32
}

/// The sort key of a text.
pub fn codes_of(s: &str) -> (r: Vec<u64>)
    ensures
        ints(r@) == char_codes(s@),
{
    let cs = crate::text::chars_of(s);
    let mut out: Vec<u64> = Vec::new();
    let mut i: usize = 0;
    while i < cs.len()
        invariant
            cs@ == s@,
            0 <= i <= cs@.len(),
            ints(out@) == char_codes(cs@.take(i as int)),
        decreases cs@.len() - i,
    {
        let c: char = cs[i];
        let code: u32 = char_code(c);
        proof {
            assert(char_codes(cs@.take(i + 1)) =~= char_codes(cs@.take(i as int)).push(c as int));
            assert(ints(out@.push(code as u64)) =~= ints(out@).push(code as int));
        }
        out.push(code as u64);
        i = i + 1;
    }
    proof {
        assert(cs@.take(cs@.len() as int) =~= cs@);
    }
    out
}

/// Text order: `a` comes before `b` when its character codes come first.
pub open spec fn text_lt(a: Seq<char>, b: Seq<char>) -> bool {
    lex_lt(char_codes(a), char_codes(b))
}

/// Compares two texts by their character codes.
pub fn compare_texts(a: &str, b: &str) -> (r: KeyOrder)
    ensures
        (r == KeyOrder::Less) == text_lt(a@, b@),
        (r == KeyOrder::Equal) == (a@ == b@),
        (r == KeyOrder::Greater) == text_lt(b@, a@),
{
    let ka = codes_of(a);
    let kb = codes_of(b);
    let r = compare_keys(&ka, &kb);
    proof {
        if ints(ka@) == ints(kb@) {
            lemma_char_codes_injective(a@, b@);
        }
    }
    r
}

/// Text order inherits irreflexivity, asymmetry, transitivity and totality.
pub proof fn lemma_text_order(a: Seq<char>, b: Seq<char>, c: Seq<char>)
    ensures
        !text_lt(a, a),
        !(text_lt(a, b) && text_lt(b, a)),
        text_lt(a, b) && text_lt(b, c) ==> text_lt(a, c),
        a == b || text_lt(a, b) || text_lt(b, a),
{
    lemma_lex_irreflexive(char_codes(a));
    lemma_lex_asymmetric(char_codes(a), char_codes(b));
    if text_lt(a, b) && text_lt(b, c) {
        lemma_lex_transitive(char_codes(a), char_codes(b), char_codes(c));
    }
    lemma_lex_total(char_codes(a), char_codes(b));
    if char_codes(a) == char_codes(b) {
        lemma_char_codes_injective(a, b);
    }
}

} // verus!
