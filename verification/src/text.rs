//! Character-sequence groundwork: decimal digits, their values and
//! representations, and searching a sequence for a character.

use vstd::prelude::*;

verus! {

/// True of the ten ASCII digit characters.
pub open spec fn is_digit(c: char) -> bool {
    ||| c == '0'
    ||| c == '1'
    ||| c == '2'
    ||| c == '3'
    ||| c == '4'
    ||| c == '5'
    ||| c == '6'
    ||| c == '7'
    ||| c == '8'
    ||| c == '9'
}

/// The numeric value of a digit character; zero on anything else.
pub open spec fn digit_val(c: char) -> int {
    if c == '1' {
        1
    } else if c == '2' {
        2
    } else if c == '3' {
        3
    } else if c == '4' {
        4
    } else if c == '5' {
        5
    } else if c == '6' {
        6
    } else if c == '7' {
        7
    } else if c == '8' {
        8
    } else if c == '9' {
        9
    } else {
        0
    }
}

/// The digit character for a value below ten; `'0'` on anything else.
pub open spec fn digit_char(d: int) -> char {
    if d == 1 {
        '1'
    } else if d == 2 {
        '2'
    } else if d == 3 {
        '3'
    } else if d == 4 {
        '4'
    } else if d == 5 {
        '5'
    } else if d == 6 {
        '6'
    } else if d == 7 {
        '7'
    } else if d == 8 {
        '8'
    } else if d == 9 {
        '9'
    } else {
        '0'
    }
}

/// True when every character of `s` is an ASCII digit.
pub open spec fn all_digits(s: Seq<char>) -> bool {
    forall|i: int| 0 <= i < s.len() ==> is_digit(#[trigger] s[i])
}

/// The value of `s` read as a plain decimal numeral.
pub open spec fn dec_val(s: Seq<char>) -> int
    decreases s.len(),
{
    if s.len() == 0 {
        0
    } else {
        10 * dec_val(s.drop_last()) + digit_val(s.last())
    }
}

/// The canonical decimal numeral for `n`: no sign, no leading zero except
/// for `n == 0` itself.
pub open spec fn dec_repr(n: nat) -> Seq<char>
    decreases n,
{
    if n < 10 {
        seq![digit_char(n as int)]
    } else {
        dec_repr(n / 10).push(digit_char((n % 10) as int))
    }
}

/// A digit sequence has a non-negative value.
pub proof fn lemma_dec_val_nonneg(s: Seq<char>)
    requires
        all_digits(s),
    ensures
        dec_val(s) >= 0,
    decreases s.len(),
{
    if s.len() > 0 {
        assert(all_digits(s.drop_last()));
        lemma_dec_val_nonneg(s.drop_last());
    }
}

/// A digit sequence with a nonzero leading digit has value at least one.
pub proof fn lemma_leading_nonzero_positive(s: Seq<char>)
    requires
        all_digits(s),
        s.len() >= 1,
        s[0] != '0',
    ensures
        dec_val(s) >= 1,
    decreases s.len(),
{
    if s.len() == 1 {
        assert(is_digit(s[0]));
        assert(s.drop_last() =~= Seq::<char>::empty());
        assert(dec_val(Seq::<char>::empty()) == 0);
        assert(dec_val(s) == digit_val(s[0]));
    } else {
        let t = s.drop_last();
        assert(all_digits(t));
        assert(t[0] == s[0]);
        lemma_leading_nonzero_positive(t);
        lemma_dec_val_nonneg(s);
    }
}

/// The canonical numeral of `n` is made of digits, is non-empty, reads back
/// as `n`, and starts with `'0'` only for `n == 0`.
pub proof fn lemma_dec_repr_val(n: nat)
    ensures
        all_digits(dec_repr(n)),
        dec_repr(n).len() >= 1,
        dec_val(dec_repr(n)) == n,
        n > 0 ==> dec_repr(n)[0] != '0',
    decreases n,
{
    if n < 10 {
        let s = dec_repr(n);
        assert(s.len() == 1);
        assert(s.drop_last() =~= Seq::<char>::empty());
        assert(dec_val(s) == 10 * dec_val(s.drop_last()) + digit_val(s.last()));
    } else {
        lemma_dec_repr_val(n / 10);
        let t = dec_repr(n / 10);
        let s = dec_repr(n);
        assert(s == t.push(digit_char((n % 10) as int)));
        assert(s.drop_last() =~= t);
        assert(s.last() == digit_char((n % 10) as int));
        assert(s[0] == t[0]);
        assert(dec_val(s) == 10 * dec_val(t) + digit_val(digit_char((n % 10) as int)));
    }
}

/// A non-empty digit sequence without a needless leading zero is the
/// canonical numeral of its own value.
pub proof fn lemma_dec_repr_unique(s: Seq<char>)
    requires
        all_digits(s),
        s.len() >= 1,
        s.len() > 1 ==> s[0] != '0',
    ensures
        dec_val(s) >= 0,
        dec_repr(dec_val(s) as nat) == s,
    decreases s.len(),
{
    lemma_dec_val_nonneg(s);
    if s.len() == 1 {
        assert(s.drop_last() =~= Seq::<char>::empty());
        assert(dec_val(Seq::<char>::empty()) == 0);
        assert(dec_val(s) == digit_val(s[0]));
        assert(is_digit(s[0]));
        assert(dec_repr(dec_val(s) as nat) =~= s);
    } else {
        let t = s.drop_last();
        let d = digit_val(s.last());
        assert(all_digits(t));
        assert(t[0] == s[0]);
        lemma_leading_nonzero_positive(t);
        lemma_dec_repr_unique(t);
        let v = dec_val(s);
        assert(v == 10 * dec_val(t) + d);
        assert(is_digit(s.last()));
        assert(0 <= d < 10);
        assert(v >= 10);
        assert(v / 10 == dec_val(t) && v % 10 == d) by {
            assert(v == 10 * dec_val(t) + d && 0 <= d < 10 && dec_val(t) >= 1 ==> v / 10
                == dec_val(t) && v % 10 == d) by (nonlinear_arith);
        };
        assert(dec_repr(v as nat) == dec_repr((v / 10) as nat).push(digit_char(v % 10)));
        assert(digit_char(d) == s.last());
        assert(dec_repr(v as nat) =~= s);
    }
}

/// Reading a prefix of a digit sequence gives at most the whole value.
pub proof fn lemma_dec_val_prefix(s: Seq<char>, i: int)
    requires
        all_digits(s),
        0 <= i <= s.len(),
    ensures
        dec_val(s.take(i)) <= dec_val(s),
    decreases s.len(),
{
    if i == s.len() {
        assert(s.take(i) =~= s);
    } else {
        let t = s.drop_last();
        assert(all_digits(t));
        assert(s.take(i) =~= t.take(i));
        lemma_dec_val_prefix(t, i);
        lemma_dec_val_nonneg(t);
        assert(is_digit(s.last()));
    }
}

/// Extending a numeral by one digit multiplies its value by ten and adds
/// the digit.
pub proof fn lemma_dec_val_step(s: Seq<char>, i: int)
    requires
        0 <= i < s.len(),
    ensures
        dec_val(s.take(i + 1)) == 10 * dec_val(s.take(i)) + digit_val(s[i]),
{
    assert(s.take(i + 1).drop_last() =~= s.take(i));
    assert(s.take(i + 1).last() == s[i]);
}

/// How often `c` occurs in `s`.
pub open spec fn char_count(s: Seq<char>, c: char) -> nat
    decreases s.len(),
{
    if s.len() == 0 {
        0
    } else {
        (if s[0] == c {
            1nat
        } else {
            0nat
        }) + char_count(s.skip(1), c)
    }
}

/// The index of the first occurrence of `c` in `s`, or `s.len()` when `c`
/// does not occur.
pub open spec fn first_index(s: Seq<char>, c: char) -> int
    decreases s.len(),
{
    if s.len() == 0 {
        0
    } else if s[0] == c {
        0
    } else {
        1 + first_index(s.skip(1), c)
    }
}

/// Where the first occurrence lies and what stands before it.
pub proof fn lemma_first_index(s: Seq<char>, c: char)
    ensures
        0 <= first_index(s, c) <= s.len(),
        first_index(s, c) < s.len() ==> s[first_index(s, c)] == c,
        forall|j: int| 0 <= j < first_index(s, c) ==> #[trigger] s[j] != c,
    decreases s.len(),
{
    if s.len() > 0 && s[0] != c {
        lemma_first_index(s.skip(1), c);
        assert forall|j: int| 0 <= j < first_index(s, c) implies #[trigger] s[j] != c by {
            if j > 0 {
                assert(s.skip(1)[j - 1] == s[j]);
            }
        }
        if first_index(s, c) < s.len() {
            assert(s.skip(1)[first_index(s, c) - 1] == s[first_index(s, c)]);
        }
    }
}

/// An occurrence with nothing equal before it is the first occurrence.
pub proof fn lemma_first_index_of(s: Seq<char>, c: char, k: int)
    requires
        0 <= k < s.len(),
        s[k] == c,
        forall|j: int| 0 <= j < k ==> #[trigger] s[j] != c,
    ensures
        first_index(s, c) == k,
    decreases s.len(),
{
    if k > 0 {
        assert(s[0] != c);
        assert forall|j: int| 0 <= j < k - 1 implies #[trigger] s.skip(1)[j] != c by {
            assert(s.skip(1)[j] == s[j + 1]);
        }
        assert(s.skip(1)[k - 1] == s[k]);
        lemma_first_index_of(s.skip(1), c, k - 1);
    }
}

/// A sequence without any occurrence has `first_index` equal to its length.
pub proof fn lemma_first_index_none(s: Seq<char>, c: char)
    requires
        forall|j: int| 0 <= j < s.len() ==> #[trigger] s[j] != c,
    ensures
        first_index(s, c) == s.len(),
    decreases s.len(),
{
    if s.len() > 0 {
        assert forall|j: int| 0 <= j < s.skip(1).len() implies #[trigger] s.skip(1)[j] != c by {
            assert(s.skip(1)[j] == s[j + 1]);
        }
        lemma_first_index_none(s.skip(1), c);
    }
}

/// Occurrence counts add up over concatenation.
pub proof fn lemma_char_count_add(a: Seq<char>, b: Seq<char>, c: char)
    ensures
        char_count(a + b, c) == char_count(a, c) + char_count(b, c),
    decreases a.len(),
{
    if a.len() == 0 {
        assert(a + b =~= b);
    } else {
        assert((a + b).skip(1) =~= a.skip(1) + b);
        assert((a + b)[0] == a[0]);
        lemma_char_count_add(a.skip(1), b, c);
    }
}

/// A count of zero means no index holds `c`, and conversely.
pub proof fn lemma_char_count_zero(s: Seq<char>, c: char)
    ensures
        char_count(s, c) == 0 <==> (forall|j: int| 0 <= j < s.len() ==> #[trigger] s[j] != c),
    decreases s.len(),
{
    if s.len() > 0 {
        lemma_char_count_zero(s.skip(1), c);
        if char_count(s, c) == 0 {
            assert forall|j: int| 0 <= j < s.len() implies #[trigger] s[j] != c by {
                if j > 0 {
                    assert(s.skip(1)[j - 1] == s[j]);
                }
            }
        } else {
            if forall|j: int| 0 <= j < s.len() ==> #[trigger] s[j] != c {
                assert forall|j: int| 0 <= j < s.skip(1).len() implies #[trigger] s.skip(1)[j]
                    != c by {
                    assert(s.skip(1)[j] == s[j + 1]);
                }
            }
        }
    }
}

/// The count over a one-character sequence.
pub proof fn lemma_char_count_single(c: char, c2: char)
    ensures
        char_count(seq![c], c2) == (if c == c2 {
            1nat
        } else {
            0nat
        }),
{
    assert(seq![c].skip(1) =~= Seq::<char>::empty());
    assert(char_count(Seq::<char>::empty(), c2) == 0);
    assert(seq![c][0] == c);
}

/// Counting by a running scan: the count over one more character.
pub proof fn lemma_char_count_step(s: Seq<char>, c: char, i: int)
    requires
        0 <= i < s.len(),
    ensures
        char_count(s.take(i + 1), c) == char_count(s.take(i), c) + (if s[i] == c {
            1nat
        } else {
            0nat
        }),
{
    assert(s.take(i + 1) =~= s.take(i) + seq![s[i]]);
    lemma_char_count_add(s.take(i), seq![s[i]], c);
    assert(char_count(seq![s[i]], c) == (if s[i] == c {
        1nat
    } else {
        0nat
    })) by {
        assert(seq![s[i]].skip(1) =~= Seq::<char>::empty());
        assert(char_count(Seq::<char>::empty(), c) == 0);
        assert(seq![s[i]][0] == s[i]);
    }
}

} // verus!
