//! What holds of every text that the helpers of [`text`](crate::text) handle.

use vstd::prelude::*;
use vstd::utf8::encode_utf8;

use crate::text::{
    ascii_upper, before, decimal, fitting, name_char, padded, repeated, same_ignoring_case, strip,
    trim, truncated, white_space,
};

verus! {

/// Whether `s.subrange(i, j)` is what is left of `s` when all that satisfies `p` is taken
/// off its two ends.
pub open spec fn is_core(s: Seq<char>, p: spec_fn(char) -> bool, i: int, j: int) -> bool {
    &&& 0 <= i <= j <= s.len()
    &&& forall|k: int| 0 <= k < i ==> p(#[trigger] s[k])
    &&& forall|k: int| j <= k < s.len() ==> p(#[trigger] s[k])
    &&& i < j ==> !p(s[i]) && !p(s[j - 1])
}

proof fn core_of(s: Seq<char>, p: spec_fn(char) -> bool) -> (r: (int, int))
    ensures
        is_core(s, p, r.0, r.1),
        strip(s, p) == s.subrange(r.0, r.1),
    decreases s.len(),
{
    if s.len() == 0 {
        assert(s.subrange(0, 0) =~= s);
        (0, 0)
    } else if p(s.first()) {
        let tail = s.drop_first();
        let (i, j) = core_of(tail, p);
        assert(tail.subrange(i, j) =~= s.subrange(i + 1, j + 1));
        assert forall|k: int| 0 <= k < i + 1 implies p(#[trigger] s[k]) by {
            if k > 0 {
                assert(tail[k - 1] == s[k]);
            }
        }
        assert forall|k: int| j + 1 <= k < s.len() implies p(#[trigger] s[k]) by {
            assert(tail[k - 1] == s[k]);
        }
        if i < j {
            assert(tail[i] == s[i + 1] && tail[j - 1] == s[j]);
        }
        (i + 1, j + 1)
    } else if p(s.last()) {
        let init = s.drop_last();
        let (i, j) = core_of(init, p);
        assert(init.subrange(i, j) =~= s.subrange(i, j));
        assert forall|k: int| 0 <= k < i implies p(#[trigger] s[k]) by {
            assert(init[k] == s[k]);
        }
        assert forall|k: int| j <= k < s.len() implies p(#[trigger] s[k]) by {
            if k < init.len() {
                assert(init[k] == s[k]);
            }
        }
        if i < j {
            assert(init[i] == s[i] && init[j - 1] == s[j - 1]);
        }
        (i, j)
    } else {
        assert(s.subrange(0, s.len() as int) =~= s);
        (0, s.len() as int)
    }
}

/// Whether `s.subrange(i, j)` is `s` without the white space at its two ends.
pub open spec fn is_trimmed_part(s: Seq<char>, i: int, j: int) -> bool {
    is_core(s, |c: char| white_space(c), i, j)
}

/// Trimming takes the white space off both ends and nothing else.
pub proof fn trimming_takes_only_white_space(s: Seq<char>)
    ensures
        exists|i: int, j: int| #[trigger] is_trimmed_part(s, i, j) && trim(s) == s.subrange(i, j),
{
    let (i, j) = core_of(s, |c: char| white_space(c));
    assert(is_trimmed_part(s, i, j));
}

/// Whether `s.subrange(i, j)` is `s` without what is no ASCII letter, no ASCII digit and no
/// `_` at its two ends.
pub open spec fn is_bare_part(s: Seq<char>, i: int, j: int) -> bool {
    is_core(
        s,
        |c: char| !('a' <= c <= 'z' || 'A' <= c <= 'Z' || '0' <= c <= '9' || c == '_'),
        i,
        j,
    )
}

/// A bare name keeps all between the first and the last character that is an ASCII letter,
/// an ASCII digit or `_`.
pub proof fn bare_names_keep_what_is_between(s: Seq<char>)
    ensures
        exists|i: int, j: int| #[trigger]
            is_bare_part(s, i, j) && strip(s, |c: char| !name_char(c)) == s.subrange(i, j),
{
    let p = |c: char| !name_char(c);
    let q = |c: char| !('a' <= c <= 'z' || 'A' <= c <= 'Z' || '0' <= c <= '9' || c == '_');
    let (i, j) = core_of(s, p);
    assert(p =~= q);
    assert(is_bare_part(s, i, j));
}

/// Two texts are equal but for the case of ASCII letters exactly if they are as long and
/// each character is the same, or the other form of the same letter.
pub proof fn case_is_ignored_for_letters_only(a: Seq<char>, b: Seq<char>)
    ensures
        same_ignoring_case(a, b) <==> a.len() == b.len() && forall|i: int|
            0 <= i < a.len() ==> {
                ||| #[trigger] a[i] == b[i]
                ||| 'a' <= a[i] <= 'z' && b[i] as int == a[i] as int - 32
                ||| 'a' <= b[i] <= 'z' && a[i] as int == b[i] as int - 32
            },
{
    let f = |c: char| ascii_upper(c);
    let x = a.map_values(f);
    let y = b.map_values(f);
    if same_ignoring_case(a, b) {
        assert(x.len() == a.len() && y.len() == b.len());
        assert forall|i: int| 0 <= i < a.len() implies {
            ||| #[trigger] a[i] == b[i]
            ||| 'a' <= a[i] <= 'z' && b[i] as int == a[i] as int - 32
            ||| 'a' <= b[i] <= 'z' && a[i] as int == b[i] as int - 32
        } by {
            assert(x[i] == y[i]);
        }
    }
    if a.len() == b.len() && forall|i: int|
        0 <= i < a.len() ==> {
            ||| #[trigger] a[i] == b[i]
            ||| 'a' <= a[i] <= 'z' && b[i] as int == a[i] as int - 32
            ||| 'a' <= b[i] <= 'z' && a[i] as int == b[i] as int - 32
        } {
        assert forall|i: int| 0 <= i < a.len() implies x[i] == #[trigger] y[i] by {
            assert(a[i] == a[i]);
        }
        assert(x =~= y);
    }
}

/// Names are ordered by the first character in which they differ.
pub proof fn the_first_difference_decides(
    p: Seq<char>,
    x: char,
    s: Seq<char>,
    y: char,
    t: Seq<char>,
)
    requires
        x < y,
    ensures
        before(p + seq![x] + s, p + seq![y] + t),
        !before(p + seq![y] + t, p + seq![x] + s),
    decreases p.len(),
{
    let a = p + seq![x] + s;
    let b = p + seq![y] + t;
    if p.len() > 0 {
        let q = p.drop_first();
        the_first_difference_decides(q, x, s, y, t);
        assert(a.drop_first() =~= q + seq![x] + s);
        assert(b.drop_first() =~= q + seq![y] + t);
    } else {
        assert(a[0] == x && b[0] == y);
    }
}

/// A name stands before all longer names that begin with it, and none of them before it.
pub proof fn a_beginning_stands_before_the_whole(p: Seq<char>, s: Seq<char>)
    requires
        s.len() > 0,
    ensures
        before(p, p + s),
        !before(p + s, p),
    decreases p.len(),
{
    if p.len() > 0 {
        a_beginning_stands_before_the_whole(p.drop_first(), s);
        assert((p + s).drop_first() =~= p.drop_first() + s);
    } else {
        assert(p + s =~= s);
    }
}

/// Whether a text is made of decimal digits.
pub open spec fn is_digits(s: Seq<char>) -> bool {
    forall|i: int| 0 <= i < s.len() ==> '0' <= #[trigger] s[i] <= '9'
}

/// The number that decimal digits stand for.
pub open spec fn number(s: Seq<char>) -> int
    decreases s.len(),
{
    if s.len() == 0 {
        0
    } else {
        10 * number(s.drop_last()) + (s.last() as int - '0' as int)
    }
}

/// Names that begin with as many digits stand in the order of the numbers: a zero-padded
/// prefix controls the order.
pub proof fn zero_padded_numbers_control_the_order(
    a: Seq<char>,
    b: Seq<char>,
    s: Seq<char>,
    t: Seq<char>,
)
    requires
        a.len() == b.len(),
        is_digits(a),
        is_digits(b),
        number(a) < number(b),
    ensures
        before(a + s, b + t),
        !before(b + t, a + s),
    decreases a.len(),
{
    let n = a.len() - 1;
    let x = a.drop_last();
    let y = b.drop_last();
    assert(is_digits(x)) by {
        assert forall|i: int| 0 <= i < x.len() implies '0' <= #[trigger] x[i] <= '9' by {
            assert(a[i] == x[i]);
        }
    }
    assert(is_digits(y)) by {
        assert forall|i: int| 0 <= i < y.len() implies '0' <= #[trigger] y[i] <= '9' by {
            assert(b[i] == y[i]);
        }
    }
    assert('0' <= a[n] <= '9' && '0' <= b[n] <= '9');
    assert(a + s =~= x + (seq![a[n]] + s));
    assert(b + t =~= y + (seq![b[n]] + t));
    if number(x) < number(y) {
        zero_padded_numbers_control_the_order(x, y, seq![a[n]] + s, seq![b[n]] + t);
    } else {
        assert(number(x) == number(y));
        same_number_same_digits(x, y);
        assert(a + s =~= x + seq![a[n]] + s);
        assert(b + t =~= x + seq![b[n]] + t);
        the_first_difference_decides(x, a[n], s, b[n], t);
    }
}

proof fn same_number_same_digits(a: Seq<char>, b: Seq<char>)
    requires
        a.len() == b.len(),
        is_digits(a),
        is_digits(b),
        number(a) == number(b),
    ensures
        a == b,
    decreases a.len(),
{
    if a.len() > 0 {
        let n = a.len() - 1;
        let x = a.drop_last();
        let y = b.drop_last();
        assert(is_digits(x)) by {
            assert forall|i: int| 0 <= i < x.len() implies '0' <= #[trigger] x[i] <= '9' by {
                assert(a[i] == x[i]);
            }
        }
        assert(is_digits(y)) by {
            assert forall|i: int| 0 <= i < y.len() implies '0' <= #[trigger] y[i] <= '9' by {
                assert(b[i] == y[i]);
            }
        }
        assert('0' <= a[n] <= '9' && '0' <= b[n] <= '9');
        same_number_same_digits(x, y);
        assert(a =~= x.push(a[n]));
        assert(b =~= y.push(b[n]));
    } else {
        assert(a =~= b);
    }
}

/// A number in decimal is made of digits, stands for the number, and has no leading zero.
pub proof fn decimal_stands_for_the_number(n: nat)
    ensures
        is_digits(decimal(n)),
        number(decimal(n)) == n,
        decimal(n).len() > 0,
        decimal(n)[0] == '0' ==> n == 0,
        n == 0 ==> decimal(n).len() == 1,
    decreases n,
{
    let d = decimal(n);
    if n < 10 {
        assert(d.drop_last() =~= Seq::empty());
        assert(number(Seq::empty()) == 0);
    } else {
        let front = decimal(n / 10);
        decimal_stands_for_the_number(n / 10);
        assert(d.drop_last() =~= front);
        assert forall|i: int| 0 <= i < d.len() implies '0' <= #[trigger] d[i] <= '9' by {
            if i < front.len() {
                assert(front[i] == d[i]);
            }
        }
    }
}

/// Padding puts spaces after a text, as many as it takes to reach the width.
pub proof fn padding_adds_only_spaces(s: Seq<char>, n: nat)
    ensures
        s.is_prefix_of(padded(s, n)),
        padded(s, n).len() == if s.len() < n {
            n
        } else {
            s.len()
        },
        forall|i: int| s.len() <= i < padded(s, n).len() ==> #[trigger] padded(s, n)[i] == ' ',
{
    assert(s =~= padded(s, n).subrange(0, s.len() as int));
}

/// A line of one character holds nothing else.
pub proof fn repetition_is_uniform(c: char, n: nat)
    ensures
        repeated(c, n).len() == n,
        forall|i: int| 0 <= i < n ==> #[trigger] repeated(c, n)[i] == c,
{
}

/// A text that is too long is cut after the last character that fits, and only there; the
/// cut is marked. A text that fits is left alone.
pub proof fn truncation_keeps_all_that_fits(s: Seq<char>, max: nat)
    ensures
        encode_utf8(s).len() <= max ==> truncated(s, max) == s,
        encode_utf8(s).len() > max ==> exists|n: int|
            0 <= n < s.len() && encode_utf8(#[trigger] s.take(n)).len() <= max && encode_utf8(
                s.take(n + 1),
            ).len() > max && truncated(s, max) == s.take(n).push('\u{2026}'),
{
    if encode_utf8(s).len() > max {
        assert(s.len() > 0) by {
            if s.len() == 0 {
                assert(encode_utf8(s) =~= Seq::empty());
            }
        }
        let n = fitting_len(s, max);
        assert(s.take(n).len() == n);
    }
}

proof fn fitting_len(s: Seq<char>, max: nat) -> (n: int)
    requires
        s.len() > 0,
        encode_utf8(s).len() > max,
    ensures
        0 <= n < s.len(),
        fitting(s, max) == s.take(n),
        encode_utf8(s.take(n)).len() <= max,
        encode_utf8(s.take(n + 1)).len() > max,
    decreases s.len(),
{
    let init = s.drop_last();
    assert(s.take(s.len() as int) =~= s);
    assert(init =~= s.take(s.len() - 1));
    if init.len() == 0 {
        assert(encode_utf8(init) =~= Seq::empty());
        assert(fitting(init, max) == init);
        0
    } else if encode_utf8(init).len() <= max {
        assert(fitting(init, max) == init);
        s.len() - 1
    } else {
        let n = fitting_len(init, max);
        assert(init.take(n) =~= s.take(n));
        assert(init.take(n + 1) =~= s.take(n + 1));
        n
    }
}

} // verus!
