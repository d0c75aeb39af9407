use vstd::prelude::*;

verus! {

// ---------------------------------------------------------------------------
// Lexicographic order on character sequences
// ---------------------------------------------------------------------------

/// Strict lexicographic order on character sequences, by Unicode scalar
/// value. This coincides with the byte-wise order on the UTF-8 encodings.
pub open spec fn chars_lt(a: Seq<char>, b: Seq<char>) -> bool
    decreases a.len(),
{
    if b.len() == 0 {
        false
    } else if a.len() == 0 {
        true
    } else if a[0] != b[0] {
        (a[0] as u32) < (b[0] as u32)
    } else {
        chars_lt(a.drop_first(), b.drop_first())
    }
}

/// Distinct characters have distinct Unicode scalar values.
pub proof fn lemma_char_cast_injective(a: char, b: char)
    ensures
        a != b ==> (a as u32) != (b as u32),
{
    vstd::utf8::char_u32_cast(a, a as u32);
    vstd::utf8::char_u32_cast(b, b as u32);
}

pub proof fn lemma_chars_lt_irreflexive(a: Seq<char>)
    ensures
        !chars_lt(a, a),
    decreases a.len(),
{
    if a.len() > 0 {
        lemma_chars_lt_irreflexive(a.drop_first());
    }
}

pub proof fn lemma_chars_lt_connected(a: Seq<char>, b: Seq<char>)
    ensures
        a != b ==> chars_lt(a, b) || chars_lt(b, a),
    decreases a.len(),
{
    if a.len() == 0 && b.len() == 0 {
        assert(a =~= b);
    } else if a.len() == 0 {
        assert(chars_lt(a, b));
    } else if b.len() == 0 {
        assert(chars_lt(b, a));
    } else if a[0] != b[0] {
        lemma_char_cast_injective(a[0], b[0]);
        assert(chars_lt(a, b) || chars_lt(b, a));
    }
    if a.len() > 0 && b.len() > 0 && a[0] == b[0] {
        lemma_chars_lt_connected(a.drop_first(), b.drop_first());
        if a.drop_first() == b.drop_first() {
            assert(a.drop_first().len() == b.drop_first().len());
            assert(a.len() == b.len());
            assert forall|i: int| 0 <= i < a.len() implies a[i] == b[i] by {
                assert(i < b.len());
                if i > 0 {
                    assert(a[i] == a.drop_first()[i - 1]);
                    assert(b[i] == b.drop_first()[i - 1]);
                }
            }
            assert(a =~= b);
        }
    }
}

pub proof fn lemma_chars_lt_asymmetric(a: Seq<char>, b: Seq<char>)
    ensures
        chars_lt(a, b) ==> !chars_lt(b, a),
    decreases a.len(),
{
    if a.len() > 0 && b.len() > 0 && a[0] == b[0] {
        lemma_chars_lt_asymmetric(a.drop_first(), b.drop_first());
    }
}

pub proof fn lemma_chars_lt_transitive(a: Seq<char>, b: Seq<char>, c: Seq<char>)
    ensures
        chars_lt(a, b) && chars_lt(b, c) ==> chars_lt(a, c),
    decreases a.len(),
{
    if a.len() > 0 && b.len() > 0 && c.len() > 0 {
        lemma_chars_lt_transitive(a.drop_first(), b.drop_first(), c.drop_first());
    }
}

/// Three-way comparison result for strings.
#[derive(Clone, Copy, Debug, PartialEq, Eq, Structural)]
pub enum StrOrder {
    Less,
    Equal,
    Greater,
}

/// Compare two strings in the lexicographic order `chars_lt`.
pub fn compare_strs(a: &str, b: &str) -> (r: StrOrder)
    ensures
        r == StrOrder::Less <==> chars_lt(a@, b@),
        r == StrOrder::Equal <==> a@ == b@,
        r == StrOrder::Greater <==> chars_lt(b@, a@),
{
    let a_len = a.unicode_len();
    let b_len = b.unicode_len();
    let mut i: usize = 0;
    proof {
        assert(a@.skip(0) =~= a@);
        assert(b@.skip(0) =~= b@);
    }
    loop
        invariant
            i <= a_len,
            i <= b_len,
            a_len == a@.len(),
            b_len == b@.len(),
            forall|k: int| 0 <= k < i ==> a@[k] == b@[k],
            chars_lt(a@, b@) == chars_lt(a@.skip(i as int), b@.skip(i as int)),
            chars_lt(b@, a@) == chars_lt(b@.skip(i as int), a@.skip(i as int)),
        decreases a_len - i,
    {
        if i == a_len || i == b_len {
            if a_len == b_len {
                proof {
                    assert(a@ =~= b@);
                    lemma_chars_lt_irreflexive(a@);
                }
                return StrOrder::Equal;
            } else if i == a_len {
                proof {
                    assert(a@.skip(i as int).len() == 0);
                    assert(b@.skip(i as int).len() > 0);
                    lemma_chars_lt_asymmetric(a@, b@);
                    assert(a@.len() != b@.len());
                }
                return StrOrder::Less;
            } else {
                proof {
                    assert(b@.skip(i as int).len() == 0);
                    assert(a@.skip(i as int).len() > 0);
                    lemma_chars_lt_asymmetric(b@, a@);
                    assert(a@.len() != b@.len());
                }
                return StrOrder::Greater;
            }
        }
        let ca = a.get_char(i);
        let cb = b.get_char(i);
        if ca != cb {
            proof {
                assert(a@.skip(i as int)[0] == a@[i as int]);
                assert(b@.skip(i as int)[0] == b@[i as int]);
                if a@ == b@ {
                    assert(a@[i as int] == b@[i as int]);
                }
            }
            if (ca as u32) < (cb as u32) {
                return StrOrder::Less;
            } else {
                return StrOrder::Greater;
            }
        }
        proof {
            assert(a@.skip(i as int).drop_first() =~= a@.skip(i + 1));
            assert(b@.skip(i as int).drop_first() =~= b@.skip(i + 1));
            assert(a@.skip(i as int)[0] == b@.skip(i as int)[0]);
        }
        i = i + 1;
    }
}

// ---------------------------------------------------------------------------
// Substring search
// ---------------------------------------------------------------------------

/// Whether `sub` occurs in `s` starting at position `i`.
pub open spec fn contains_at(s: Seq<char>, sub: Seq<char>, i: int) -> bool {
    0 <= i && i + sub.len() <= s.len() && s.subrange(i, i + sub.len() as int) == sub
}

/// Whether `sub` occurs anywhere in `s`.
pub open spec fn contains_sub(s: Seq<char>, sub: Seq<char>) -> bool {
    exists|i: int| contains_at(s, sub, i)
}

/// Whether `sub` occurs in `s` at position `i`.
fn match_at(s: &str, sub: &str, i: usize) -> (r: bool)
    requires
        i + sub@.len() <= s@.len(),
        s@.len() <= usize::MAX,
    ensures
        r == contains_at(s@, sub@, i as int),
{
    let m = sub.unicode_len();
    let mut k: usize = 0;
    while k < m
        invariant
            k <= m,
            m == sub@.len(),
            i + m <= s@.len(),
            s@.len() <= usize::MAX,
            forall|t: int| 0 <= t < k ==> s@[i + t] == sub@[t],
        decreases m - k,
    {
        if s.get_char(i + k) != sub.get_char(k) {
            proof {
                if contains_at(s@, sub@, i as int) {
                    assert(s@.subrange(i as int, i + m)[k as int] == s@[i + k]);
                }
            }
            return false;
        }
        k = k + 1;
    }
    proof {
        assert(s@.subrange(i as int, i + m) =~= sub@);
    }
    true
}

/// Whether `sub` occurs anywhere in `s`.
pub fn str_contains(s: &str, sub: &str) -> (r: bool)
    ensures
        r == contains_sub(s@, sub@),
{
    let n = s.unicode_len();
    let m = sub.unicode_len();
    if m > n {
        proof {
            assert(forall|i: int| !contains_at(s@, sub@, i));
        }
        return false;
    }
    if m == 0 {
        proof {
            assert(s@.subrange(0, 0) =~= sub@);
            assert(contains_at(s@, sub@, 0));
        }
        return true;
    }
    let mut i: usize = 0;
    while i <= n - m
        invariant
            0 < m <= n,
            n == s@.len(),
            m == sub@.len(),
            i <= n - m + 1,
            forall|t: int| 0 <= t < i ==> !contains_at(s@, sub@, t),
        decreases n - m + 1 - i,
    {
        if match_at(s, sub, i) {
            return true;
        }
        i = i + 1;
    }
    proof {
        assert forall|t: int| true implies !contains_at(s@, sub@, t) by {
            if t > n - m {
                assert(!contains_at(s@, sub@, t));
            }
        }
    }
    false
}

// ---------------------------------------------------------------------------
// Decimal rendering of natural numbers
// ---------------------------------------------------------------------------

/// The decimal digit character for `d` (`d < 10`).
pub open spec fn digit_char(d: nat) -> char {
    if d == 0 {
        '0'
    } else if d == 1 {
        '1'
    } else if d == 2 {
        '2'
    } else if d == 3 {
        '3'
    } else if d == 4 {
        '4'
    } else if d == 5 {
        '5'
    } else if d == 6 {
        '6'
    } else if d == 7 {
        '7'
    } else if d == 8 {
        '8'
    } else {
        '9'
    }
}

/// The decimal rendering of `n`, most significant digit first, no leading
/// zeros (except for `n == 0` itself).
pub open spec fn decimal_of(n: nat) -> Seq<char>
    decreases n,
{
    if n < 10 {
        seq![digit_char(n)]
    } else {
        decimal_of(n / 10).push(digit_char(n % 10))
    }
}

pub proof fn lemma_decimal_of_len(n: nat)
    ensures
        decimal_of(n).len() >= 1,
        n >= 10 ==> decimal_of(n).len() >= 2,
    decreases n,
{
    if n >= 10 {
        lemma_decimal_of_len(n / 10);
    }
}

/// Two distinct numbers never share a decimal rendering: the scheme that
/// derives commit ids from a counter therefore never repeats an id.
pub proof fn lemma_decimal_of_injective(a: nat, b: nat)
    ensures
        decimal_of(a) == decimal_of(b) ==> a == b,
    decreases a + b,
{
    if decimal_of(a) == decimal_of(b) {
        lemma_decimal_of_len(a);
        lemma_decimal_of_len(b);
        if a < 10 && b < 10 {
            assert(decimal_of(a)[0] == digit_char(a));
            assert(decimal_of(b)[0] == digit_char(b));
        } else if a < 10 && b >= 10 {
            assert(decimal_of(a).len() == 1);
            assert(decimal_of(b).len() >= 2);
        } else if a >= 10 && b < 10 {
            assert(decimal_of(a).len() >= 2);
            assert(decimal_of(b).len() == 1);
        } else {
            let da = decimal_of(a / 10);
            let db = decimal_of(b / 10);
            assert(decimal_of(a) == da.push(digit_char(a % 10)));
            assert(decimal_of(b) == db.push(digit_char(b % 10)));
            assert(decimal_of(a).last() == digit_char(a % 10));
            assert(decimal_of(b).last() == digit_char(b % 10));
            assert(a % 10 == b % 10);
            assert(da.push(digit_char(a % 10)).drop_last() =~= da);
            assert(db.push(digit_char(b % 10)).drop_last() =~= db);
            assert(da == db);
            lemma_decimal_of_injective(a / 10, b / 10);
            assert(a == (a / 10) * 10 + a % 10) by (nonlinear_arith);
            assert(b == (b / 10) * 10 + b % 10) by (nonlinear_arith);
        }
    }
}

/// A one-character string slice holding the decimal digit for `d`.
fn digit_str(d: u64) -> (r: &'static str)
    requires
        d < 10,
    ensures
        r@ =~= seq![digit_char(d as nat)],
{
    proof {
        reveal_strlit("0");
        reveal_strlit("1");
        reveal_strlit("2");
        reveal_strlit("3");
        reveal_strlit("4");
        reveal_strlit("5");
        reveal_strlit("6");
        reveal_strlit("7");
        reveal_strlit("8");
        reveal_strlit("9");
    }
    if d == 0 {
        "0"
    } else if d == 1 {
        "1"
    } else if d == 2 {
        "2"
    } else if d == 3 {
        "3"
    } else if d == 4 {
        "4"
    } else if d == 5 {
        "5"
    } else if d == 6 {
        "6"
    } else if d == 7 {
        "7"
    } else if d == 8 {
        "8"
    } else {
        "9"
    }
}

/// Render `n` in decimal.
pub fn u64_to_string(n: u64) -> (r: String)
    ensures
        r@ == decimal_of(n as nat),
    decreases n,
{
    if n < 10 {
        String::from_str(digit_str(n))
    } else {
        let mut s = u64_to_string(n / 10);
        s.append(digit_str(n % 10));
        proof {
            assert(s@ =~= decimal_of((n / 10) as nat).push(digit_char((n % 10) as nat)));
        }
        s
    }
}

/// Whether `a` and `b` hold the same characters.
pub fn str_eq(a: &str, b: &str) -> (r: bool)
    ensures
        r == (a@ == b@),
{
    matches!(compare_strs(a, b), StrOrder::Equal)
}

/// Whether `a` comes strictly before `b` in the lexicographic order.
pub fn str_lt(a: &str, b: &str) -> (r: bool)
    ensures
        r == chars_lt(a@, b@),
{
    matches!(compare_strs(a, b), StrOrder::Less)
}


/// Whether `c` is one of the usual blank characters.
pub open spec fn is_space_char(c: char) -> bool {
    c == ' ' || c == '\t' || c == '\n' || c == '\r'
}

/// Whether `s` holds nothing but blank characters.
pub open spec fn spec_is_blank(s: Seq<char>) -> bool {
    forall|i: int| 0 <= i < s.len() ==> is_space_char(s[i])
}

/// Whether a string is empty or all whitespace.
pub fn is_blank(s: &str) -> (r: bool)
    ensures
        r == spec_is_blank(s@),
{
    let n = s.unicode_len();
    let mut i: usize = 0;
    while i < n
        invariant
            i <= n,
            n == s@.len(),
            forall|k: int| 0 <= k < i ==> is_space_char(s@[k]),
        decreases n - i,
    {
        let c = s.get_char(i);
        if !(c == ' ' || c == '\t' || c == '\n' || c == '\r') {
            return false;
        }
        i = i + 1;
    }
    true
}

} // verus!
