//! Text as sequences of characters: white space, trimming, keywords, the order of
//! names, padding and decimal numbers.

use vstd::prelude::*;
use vstd::utf8::{decode_utf8, encode_utf8, is_char_boundary};

verus! {

broadcast use vstd::string::group_string_axioms;

/// `String::push` appends the given character to the end of the string.
pub assume_specification[ String::push ](s: &mut String, c: char)
    ensures
        final(s)@ == old(s)@.push(c),
;

/// The characters with the Unicode property `White_Space`.
pub open spec fn white_space(c: char) -> bool {
    ||| '\u{9}' <= c <= '\u{d}'
    ||| c == ' '
    ||| c == '\u{85}'
    ||| c == '\u{a0}'
    ||| c == '\u{1680}'
    ||| '\u{2000}' <= c <= '\u{200a}'
    ||| c == '\u{2028}'
    ||| c == '\u{2029}'
    ||| c == '\u{202f}'
    ||| c == '\u{205f}'
    ||| c == '\u{3000}'
}

/// The upper case form of an ASCII letter; any other character stands for itself.
pub open spec fn ascii_upper(c: char) -> char {
    if 'a' <= c <= 'z' {
        (c as u32 - 32) as char
    } else {
        c
    }
}

/// Whether two texts are equal once ASCII letters are put into upper case.
pub open spec fn same_ignoring_case(a: Seq<char>, b: Seq<char>) -> bool {
    a.map_values(|c: char| ascii_upper(c)) == b.map_values(|c: char| ascii_upper(c))
}

/// The characters a table name can begin and end with.
pub open spec fn name_char(c: char) -> bool {
    ||| '0' <= c <= '9'
    ||| 'A' <= c <= 'Z'
    ||| 'a' <= c <= 'z'
    ||| c == '_'
}

/// `s` without the characters of `p` at its two ends.
pub open spec fn strip(s: Seq<char>, p: spec_fn(char) -> bool) -> Seq<char>
    decreases s.len(),
{
    if s.len() == 0 {
        s
    } else if p(s.first()) {
        strip(s.drop_first(), p)
    } else if p(s.last()) {
        strip(s.drop_last(), p)
    } else {
        s
    }
}

/// `s` without surrounding white space.
pub open spec fn trim(s: Seq<char>) -> Seq<char> {
    strip(s, |c: char| white_space(c))
}

/// Code point order: the order of strings.
pub open spec fn before(a: Seq<char>, b: Seq<char>) -> bool
    decreases a.len(),
{
    if b.len() == 0 {
        false
    } else if a.len() == 0 {
        true
    } else if a.first() == b.first() {
        before(a.drop_first(), b.drop_first())
    } else {
        a.first() < b.first()
    }
}

/// Each name stands before the next.
pub open spec fn increasing(names: Seq<Seq<char>>) -> bool {
    forall|i: int, j: int| 0 <= i < j < names.len() ==> before(names[i], names[j])
}

/// Whether a character is white space.
pub fn is_white_space(c: char) -> (r: bool)
    ensures
        r == white_space(c),
{
    ('\u{9}' <= c && c <= '\u{d}') || c == ' ' || c == '\u{85}' || c == '\u{a0}' || c == '\u{1680}'
        || ('\u{2000}' <= c && c <= '\u{200a}') || c == '\u{2028}' || c == '\u{2029}'
        || c == '\u{202f}' || c == '\u{205f}' || c == '\u{3000}'
}

/// The characters of a text.
pub fn to_chars(s: &str) -> (r: Vec<char>)
    ensures
        r@ == s@,
{
    let mut r: Vec<char> = Vec::new();
    for c in it: s.chars()
        invariant
            r@ == s@.take(it.index()),
            it.seq() == s@,
    {
        r.push(c);
        assert(s@.take(it.index() + 1) == s@.take(it.index()).push(c));
    }
    assert(s@.take(s@.len() as int) == s@);
    r
}

/// The characters `from..to` of `chars` as a string.
pub fn to_text(chars: &Vec<char>, from: usize, to: usize) -> (r: String)
    requires
        from <= to <= chars@.len(),
    ensures
        r@ == chars@.subrange(from as int, to as int),
{
    let mut r = String::new();
    let mut i: usize = from;
    while i < to
        invariant
            from <= i <= to <= chars@.len(),
            r@ == chars@.subrange(from as int, i as int),
        decreases to - i,
    {
        r.push(chars[i]);
        i += 1;
        assert(r@ =~= chars@.subrange(from as int, i as int));
    }
    r
}

/// Strips the characters that satisfy `p` off both ends.
fn strip_where(chars: &Vec<char>, p: impl Fn(char) -> bool, Ghost(sp): Ghost<
    spec_fn(char) -> bool,
>) -> (r: String)
    requires
        forall|c: char| #[trigger] p.requires((c,)),
        forall|c: char, b: bool| #[trigger] p.ensures((c,), b) ==> b == sp(c),
    ensures
        r@ == strip(chars@, sp),
{
    let mut lo: usize = 0;
    let mut hi: usize = chars.len();
    assert(chars@.subrange(0, hi as int) =~= chars@);
    while lo < hi && p(chars[lo])
        invariant
            lo <= hi == chars@.len(),
            forall|c: char| #[trigger] p.requires((c,)),
            forall|c: char, b: bool| #[trigger] p.ensures((c,), b) ==> b == sp(c),
            strip(chars@.subrange(lo as int, hi as int), sp) == strip(chars@, sp),
        ensures
            lo <= hi == chars@.len(),
            lo < hi ==> !sp(chars@[lo as int]),
            strip(chars@.subrange(lo as int, hi as int), sp) == strip(chars@, sp),
        decreases hi - lo,
    {
        assert(chars@.subrange(lo as int, hi as int).drop_first() =~= chars@.subrange(
            lo + 1,
            hi as int,
        ));
        lo += 1;
    }
    while lo < hi && p(chars[hi - 1])
        invariant
            lo <= hi <= chars@.len(),
            lo < hi ==> !sp(chars@[lo as int]),
            forall|c: char| #[trigger] p.requires((c,)),
            forall|c: char, b: bool| #[trigger] p.ensures((c,), b) ==> b == sp(c),
            strip(chars@.subrange(lo as int, hi as int), sp) == strip(chars@, sp),
        ensures
            lo <= hi <= chars@.len(),
            lo < hi ==> !sp(chars@[lo as int]) && !sp(chars@[hi - 1]),
            strip(chars@.subrange(lo as int, hi as int), sp) == strip(chars@, sp),
        decreases hi - lo,
    {
        assert(chars@.subrange(lo as int, hi as int).drop_last() =~= chars@.subrange(
            lo as int,
            hi - 1,
        ));
        hi -= 1;
    }
    to_text(chars, lo, hi)
}

/// Strips the white space off both ends.
pub fn trimmed(chars: &Vec<char>) -> (r: String)
    ensures
        r@ == trim(chars@),
{
    strip_where(chars, is_white_space, Ghost(|c: char| white_space(c)))
}

fn is_no_name_char(c: char) -> (r: bool)
    ensures
        r == !name_char(c),
{
    !(('0' <= c && c <= '9') || ('A' <= c && c <= 'Z') || ('a' <= c && c <= 'z') || c == '_')
}

/// Strips what is no part of a table name off both ends.
pub fn bare_name(chars: &Vec<char>) -> (r: String)
    ensures
        r@ == strip(chars@, |c: char| !name_char(c)),
{
    strip_where(chars, is_no_name_char, Ghost(|c: char| !name_char(c)))
}

fn upper(c: char) -> (r: char)
    ensures
        r == ascii_upper(c),
{
    if 'a' <= c && c <= 'z' {
        (c as u8 - 32) as char
    } else {
        c
    }
}

/// Compares a word with a keyword, ignoring the case of ASCII letters.
pub fn is_keyword(word: &Vec<char>, keyword: &str) -> (r: bool)
    ensures
        r == same_ignoring_case(word@, keyword@),
{
    let key: Vec<char> = to_chars(keyword);
    let ghost f = |c: char| ascii_upper(c);
    if word.len() != key.len() {
        assert(word@.map_values(f).len() != key@.map_values(f).len());
        return false;
    }
    let mut i: usize = 0;
    while i < word.len()
        invariant
            i <= word@.len() == key@.len(),
            key@ == keyword@,
            f == (|c: char| ascii_upper(c)),
            forall|j: int|
                0 <= j < i ==> ascii_upper(#[trigger] word@[j]) == ascii_upper(key@[j]),
        decreases word@.len() - i,
    {
        if upper(word[i]) != upper(key[i]) {
            assert(word@.map_values(f)[i as int] != key@.map_values(f)[i as int]);
            return false;
        }
        i += 1;
    }
    assert(word@.map_values(f) =~= key@.map_values(f));
    true
}

/// No name stands before itself.
pub proof fn before_is_irreflexive(a: Seq<char>)
    ensures
        !before(a, a),
    decreases a.len(),
{
    if a.len() > 0 {
        before_is_irreflexive(a.drop_first());
    }
}

/// The order of names is transitive.
pub proof fn before_is_transitive(a: Seq<char>, b: Seq<char>, c: Seq<char>)
    requires
        before(a, b),
        before(b, c),
    ensures
        before(a, c),
    decreases a.len(),
{
    if a.len() > 0 && a.first() == b.first() && b.first() == c.first() {
        before_is_transitive(a.drop_first(), b.drop_first(), c.drop_first());
    }
}

/// Of two different names one stands before the other.
pub proof fn before_is_total(a: Seq<char>, b: Seq<char>)
    ensures
        a == b || before(a, b) || before(b, a),
    decreases a.len(),
{
    if a.len() > 0 && b.len() > 0 {
        if a.first() == b.first() {
            before_is_total(a.drop_first(), b.drop_first());
            if a.drop_first() == b.drop_first() {
                assert(a =~= seq![a.first()] + a.drop_first());
                assert(b =~= seq![b.first()] + b.drop_first());
            }
        }
    } else if a.len() == 0 && b.len() == 0 {
        assert(a =~= b);
    }
}

/// Whether `a` stands before `b`.
pub fn comes_before(a: &str, b: &str) -> (r: bool)
    ensures
        r == before(a@, b@),
{
    let x: Vec<char> = to_chars(a);
    let y: Vec<char> = to_chars(b);
    let mut i: usize = 0;
    assert(x@.skip(0) =~= x@ && y@.skip(0) =~= y@);
    while i < x.len() && i < y.len() && x[i] == y[i]
        invariant
            i <= x@.len(),
            i <= y@.len(),
            before(a@, b@) == before(x@.skip(i as int), y@.skip(i as int)),
        decreases x@.len() - i,
    {
        assert(x@.skip(i as int).drop_first() =~= x@.skip(i + 1));
        assert(y@.skip(i as int).drop_first() =~= y@.skip(i + 1));
        i += 1;
    }
    if i == y.len() {
        false
    } else if i == x.len() {
        true
    } else {
        x[i] < y[i]
    }
}

/// The decimal digits of `n`.
pub open spec fn decimal(n: nat) -> Seq<char>
    decreases n,
{
    if n < 10 {
        seq![('0' as nat + n) as char]
    } else {
        decimal(n / 10).push(('0' as nat + n % 10) as char)
    }
}

/// Writes a number in decimal.
pub fn decimal_text(n: u64) -> (r: String)
    ensures
        r@ == decimal(n as nat),
    decreases n,
{
    let digit: char = (48u8 + (n % 10) as u8) as char;
    let mut r = if n < 10 {
        String::new()
    } else {
        decimal_text(n / 10)
    };
    r.push(digit);
    r
}

/// `n` times the character `c`.
pub open spec fn repeated(c: char, n: nat) -> Seq<char> {
    Seq::new(n, |i: int| c)
}

/// `s` with spaces after it, up to a width of `n` characters.
pub open spec fn padded(s: Seq<char>, n: nat) -> Seq<char> {
    if s.len() < n {
        s + repeated(' ', (n - s.len()) as nat)
    } else {
        s
    }
}

/// Appends `n` times the character `c`.
pub fn push_repeated(s: &mut String, c: char, n: usize)
    ensures
        final(s)@ == old(s)@ + repeated(c, n as nat),
{
    let mut i: usize = 0;
    assert(s@ + repeated(c, 0) =~= s@);
    while i < n
        invariant
            i <= n,
            s@ == old(s)@ + repeated(c, i as nat),
        decreases n - i,
    {
        s.push(c);
        i += 1;
        assert(s@ =~= old(s)@ + repeated(c, i as nat));
    }
}

/// Appends a text and pads it with spaces.
pub fn push_padded(s: &mut String, text: &str, n: usize)
    ensures
        final(s)@ == old(s)@ + padded(text@, n as nat),
{
    let len: usize = to_chars(text).len();
    s.append(text);
    if len < n {
        push_repeated(s, ' ', n - len);
        assert(s@ =~= old(s)@ + padded(text@, n as nat));
    }
}

/// The longest beginning of `s` that has at most `max` bytes.
pub open spec fn fitting(s: Seq<char>, max: nat) -> Seq<char>
    decreases s.len(),
{
    if s.len() == 0 || encode_utf8(s).len() <= max {
        s
    } else {
        fitting(s.drop_last(), max)
    }
}

/// `s` if it has at most `max` bytes; otherwise as many of its characters as fit, and
/// an ellipsis.
pub open spec fn truncated(s: Seq<char>, max: nat) -> Seq<char> {
    if encode_utf8(s).len() <= max {
        s
    } else {
        fitting(s, max).push('\u{2026}')
    }
}

/// The number of bytes of a character.
fn byte_width(c: char) -> (r: usize)
    ensures
        1 <= r <= 4,
        r == encode_utf8(seq![c]).len(),
{
    proof {
        vstd::utf8::char_is_scalar(c);
        assert(seq![c].drop_first() =~= Seq::empty());
        assert(encode_utf8(Seq::empty()) =~= Seq::empty());
    }
    if c <= '\u{7f}' {
        1
    } else if c <= '\u{7ff}' {
        2
    } else if c <= '\u{ffff}' {
        3
    } else {
        4
    }
}

proof fn bytes_of_two(a: Seq<char>, b: Seq<char>)
    ensures
        encode_utf8(a + b) == encode_utf8(a) + encode_utf8(b),
    decreases a.len(),
{
    if a.len() == 0 {
        assert(a + b =~= b);
        assert(encode_utf8(a) + encode_utf8(b) =~= encode_utf8(b));
    } else {
        bytes_of_two(a.drop_first(), b);
        assert((a + b).drop_first() =~= a.drop_first() + b);
        assert((a + b)[0] == a[0]);
        assert(encode_utf8(a + b) =~= encode_utf8(a) + encode_utf8(b));
    }
}

/// What fits ends before the first character that does not.
proof fn fitting_is(s: Seq<char>, max: nat, n: int)
    requires
        0 <= n < s.len(),
        encode_utf8(s.take(n)).len() <= max,
        encode_utf8(s.take(n + 1)).len() > max,
    ensures
        fitting(s, max) == s.take(n),
    decreases s.len(),
{
    bytes_of_two(s.take(n + 1), s.skip(n + 1));
    assert(s =~= s.take(n + 1) + s.skip(n + 1));
    let init = s.drop_last();
    assert(init.take(n) =~= s.take(n));
    if n < init.len() {
        assert(init.take(n + 1) =~= s.take(n + 1));
        fitting_is(init, max, n);
    } else {
        assert(init =~= s.take(n));
        assert(fitting(init, max) == init);
    }
}

/// A cut between two characters keeps all bytes before it.
pub proof fn a_clean_cut_keeps_all_bytes(s: Seq<char>, max: nat)
    requires
        max < encode_utf8(s).len(),
        is_char_boundary(encode_utf8(s), max as int),
    ensures
        encode_utf8(fitting(s, max)) == encode_utf8(s).take(max as int),
{
    let bytes = encode_utf8(s);
    vstd::utf8::encode_utf8_valid_utf8(s);
    vstd::utf8::encode_utf8_decode_utf8(s);
    vstd::utf8::valid_utf8_split(bytes, max as int);
    vstd::utf8::decode_utf8_split(bytes, max as int);
    let front = bytes.subrange(0, max as int);
    let back = bytes.subrange(max as int, bytes.len() as int);
    vstd::utf8::decode_utf8_encode_utf8(front);
    vstd::utf8::decode_utf8_encode_utf8(back);
    let head = decode_utf8(front);
    let tail = decode_utf8(back);
    let n = head.len() as int;
    assert(s =~= head + tail);
    assert(tail.len() > 0) by {
        if tail.len() == 0 {
            assert(encode_utf8(tail) =~= Seq::empty());
        }
    }
    assert(s.take(n) =~= head);
    assert(s.take(n + 1) =~= head + seq![tail[0]]);
    bytes_of_two(head, seq![tail[0]]);
    assert(encode_utf8(seq![tail[0]]).len() >= 1) by {
        assert(seq![tail[0]].drop_first() =~= Seq::empty());
        vstd::utf8::char_is_scalar(tail[0]);
    }
    fitting_is(s, max, n);
    assert(front =~= bytes.take(max as int));
}

/// Cuts a text to at most `max` bytes and marks the cut with an ellipsis. No character
/// is cut in two.
pub fn truncate(s: &str, max: usize) -> (r: String)
    ensures
        r@ == truncated(s@, max as nat),
{
    if s.as_bytes().len() <= max {
        return s.to_owned();
    }
    let chars: Vec<char> = to_chars(s);
    let mut n: usize = 0;
    let mut used: usize = 0;
    assert(encode_utf8(s@.take(0)) =~= Seq::empty());
    assert(s@.take(s@.len() as int) =~= s@);
    while n < chars.len()
        invariant
            chars@ == s@,
            n <= s@.len(),
            used <= max,
            used == encode_utf8(s@.take(n as int)).len(),
            encode_utf8(s@).len() > max,
            s@.take(s@.len() as int) == s@,
        ensures
            n < s@.len(),
            encode_utf8(s@.take(n as int)).len() <= max,
            encode_utf8(s@.take(n + 1)).len() > max,
        decreases s@.len() - n,
    {
        let width: usize = byte_width(chars[n]);
        assert(s@.take(n + 1) =~= s@.take(n as int) + seq![s@[n as int]]);
        proof {
            bytes_of_two(s@.take(n as int), seq![s@[n as int]]);
        }
        if width > max - used {
            break;
        }
        used += width;
        n += 1;
    }
    proof {
        fitting_is(s@, max as nat, n as int);
    }
    let mut r: String = to_text(&chars, 0, n);
    assert(r@ =~= s@.take(n as int));
    r.push('\u{2026}');
    r
}

} // verus!
