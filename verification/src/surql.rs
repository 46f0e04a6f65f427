//! SurrealQL source text: its comments, string literals and statements.

use vstd::prelude::*;

use crate::text::{is_white_space, to_chars, to_text, trim, trimmed, white_space};

verus! {

broadcast use vstd::string::group_string_axioms;

/// What a SurrealQL text is made of: comments, string literals (with their
/// quotes) and, outside of these, single characters.
pub enum Token {
    Comment,
    Literal(Seq<char>),
    Symbol(char),
}

pub open spec fn is_quote(c: char) -> bool {
    c == '"' || c == '\''
}

pub open spec fn opens_with(s: Seq<char>, a: char, b: char) -> bool {
    s.len() >= 2 && s[0] == a && s[1] == b
}

/// The length of what follows an opening quote `q`: up to and with the first `q`
/// that no backslash escapes, or the whole rest of the text.
pub open spec fn literal_rest(s: Seq<char>, q: char) -> int
    decreases s.len(),
{
    if s.len() == 0 {
        0
    } else if s[0] == '\\' {
        if s.len() == 1 {
            1
        } else {
            2 + literal_rest(s.skip(2), q)
        }
    } else if s[0] == q {
        1
    } else {
        1 + literal_rest(s.skip(1), q)
    }
}

/// The number of characters before the first line break, or of the whole text.
pub open spec fn line_len(s: Seq<char>) -> int
    decreases s.len(),
{
    if s.len() == 0 || s[0] == '\n' {
        0
    } else {
        1 + line_len(s.skip(1))
    }
}

/// The length of what follows the opening of a block comment: up to and with the
/// first `*/`, or the whole rest of the text.
pub open spec fn block_rest(s: Seq<char>) -> int
    decreases s.len(),
{
    if s.len() == 0 {
        0
    } else if opens_with(s, '*', '/') {
        2
    } else {
        1 + block_rest(s.skip(1))
    }
}

/// The length of the first token of a text that is not empty.
pub open spec fn token_len(s: Seq<char>) -> int {
    if is_quote(s[0]) {
        1 + literal_rest(s.skip(1), s[0])
    } else if opens_with(s, '-', '-') {
        line_len(s)
    } else if opens_with(s, '/', '*') {
        2 + block_rest(s.skip(2))
    } else {
        1
    }
}

/// The first token of a text that is not empty.
pub open spec fn first_token(s: Seq<char>) -> Token {
    if is_quote(s[0]) {
        Token::Literal(s.take(token_len(s)))
    } else if opens_with(s, '-', '-') || opens_with(s, '/', '*') {
        Token::Comment
    } else {
        Token::Symbol(s[0])
    }
}

/// The tokens of a text, in order.
pub open spec fn tokens(s: Seq<char>) -> Seq<Token>
    decreases s.len(),
{
    if 0 < s.len() && 0 < token_len(s) <= s.len() {
        seq![first_token(s)] + tokens(s.skip(token_len(s)))
    } else {
        Seq::empty()
    }
}

/// The text of a token; a comment has none.
pub open spec fn token_text(t: Token) -> Seq<char> {
    match t {
        Token::Comment => Seq::empty(),
        Token::Literal(text) => text,
        Token::Symbol(c) => seq![c],
    }
}

/// The text of a run of tokens, without its comments.
pub open spec fn render(ts: Seq<Token>) -> Seq<char>
    decreases ts.len(),
{
    if ts.len() == 0 {
        Seq::empty()
    } else {
        render(ts.drop_last()) + token_text(ts.last())
    }
}

/// How many braces a run of tokens leaves open.
pub open spec fn brace_depth(ts: Seq<Token>) -> int
    decreases ts.len(),
{
    if ts.len() == 0 {
        0
    } else {
        brace_depth(ts.drop_last()) + match ts.last() {
            Token::Symbol('{') => 1int,
            Token::Symbol('}') => -1int,
            _ => 0int,
        }
    }
}

/// Whether token `k` is a semicolon outside of all braces.
pub open spec fn terminates(ts: Seq<Token>, k: int) -> bool {
    ts[k] == Token::Symbol(';') && brace_depth(ts.take(k)) == 0
}

/// The first terminating semicolon from `k` on, or the number of tokens.
pub open spec fn next_terminator(ts: Seq<Token>, k: int) -> int
    decreases ts.len() - k,
{
    if k >= ts.len() {
        ts.len() as int
    } else if terminates(ts, k) {
        k
    } else {
        next_terminator(ts, k + 1)
    }
}

/// The runs of tokens between the terminating semicolons.
pub open spec fn segments(ts: Seq<Token>) -> Seq<Seq<Token>>
    decreases ts.len(),
{
    let k = next_terminator(ts, 0);
    if 0 <= k < ts.len() {
        seq![ts.take(k)] + segments(ts.skip(k + 1))
    } else {
        seq![ts]
    }
}

/// The trimmed texts of runs of tokens without their comments; empty ones are left
/// out.
pub open spec fn segment_texts(gs: Seq<Seq<Token>>) -> Seq<Seq<char>>
    decreases gs.len(),
{
    if gs.len() == 0 {
        Seq::empty()
    } else {
        let text = trim(render(gs.last()));
        if text.len() == 0 {
            segment_texts(gs.drop_last())
        } else {
            segment_texts(gs.drop_last()).push(text)
        }
    }
}

/// The statements of a SurrealQL text.
pub open spec fn statements(s: Seq<char>) -> Seq<Seq<char>> {
    segment_texts(segments(tokens(s)))
}

/// Whether a token separates others and says nothing: a comment, or white space outside
/// of string literals.
pub open spec fn is_blank(t: Token) -> bool {
    match t {
        Token::Comment => true,
        Token::Literal(_) => false,
        Token::Symbol(c) => white_space(c),
    }
}

/// The tokens, with a space in the place of each maximal run of blanks.
pub open spec fn single_spaced(ts: Seq<Token>) -> Seq<Token>
    decreases ts.len(),
{
    if ts.len() == 0 {
        Seq::empty()
    } else {
        let front = single_spaced(ts.drop_last());
        if !is_blank(ts.last()) {
            front.push(ts.last())
        } else if ts.len() >= 2 && is_blank(ts[ts.len() - 2]) {
            front
        } else {
            front.push(Token::Symbol(' '))
        }
    }
}

/// A SurrealQL text in which a single space stands in the place of each maximal run of
/// comments and white space; string literals are left alone.
pub open spec fn normalized(s: Seq<char>) -> Seq<char> {
    render(single_spaced(tokens(s)))
}

/// The position of the first backquote, or the number of tokens.
pub open spec fn first_backquote(ts: Seq<Token>) -> int
    decreases ts.len(),
{
    if ts.len() == 0 || ts[0] == Token::Symbol('`') {
        0
    } else {
        1 + first_backquote(ts.drop_first())
    }
}

/// The tokens, with each name in backquotes as one literal. A backquote without another
/// behind it is a symbol like any other.
pub open spec fn with_quoted_names(ts: Seq<Token>) -> Seq<Token>
    decreases ts.len(),
{
    if ts.len() == 0 {
        Seq::empty()
    } else {
        let k = first_backquote(ts.drop_first());
        if ts[0] == Token::Symbol('`') && 0 <= k < ts.len() - 1 {
            seq![Token::Literal(render(ts.take(k + 2)))] + with_quoted_names(ts.skip(k + 2))
        } else {
            seq![ts[0]] + with_quoted_names(ts.drop_first())
        }
    }
}

/// A word of code. One in quotes of any kind stands for itself: it is never a keyword.
pub struct WordView {
    pub text: Seq<char>,
    pub quoted: bool,
}

/// Whether a token is a character of a plain word.
pub open spec fn in_word(t: Token) -> bool {
    t matches Token::Symbol(c) && !white_space(c) && c != ';'
}

/// The words that tokens make up: string literals, semicolons, and the maximal runs of
/// other characters than white space.
pub open spec fn words_of(ts: Seq<Token>) -> Seq<WordView>
    decreases ts.len(),
{
    if ts.len() == 0 {
        Seq::empty()
    } else {
        let front = words_of(ts.drop_last());
        match ts.last() {
            Token::Comment => front,
            Token::Literal(text) => front.push(WordView { text, quoted: true }),
            Token::Symbol(c) => if white_space(c) {
                front
            } else if c != ';' && ts.len() >= 2 && in_word(ts[ts.len() - 2]) {
                front.drop_last().push(
                    WordView { text: front.last().text.push(c), quoted: false },
                )
            } else {
                front.push(WordView { text: seq![c], quoted: false })
            },
        }
    }
}

/// The words of the code in a SurrealQL text: comments are not part of it, a string
/// literal or a name in backquotes is one word, and a semicolon is a word of its own.
pub open spec fn code_words(s: Seq<char>) -> Seq<WordView> {
    words_of(with_quoted_names(tokens(s)))
}

proof fn literal_rest_bounds(s: Seq<char>, q: char)
    ensures
        0 <= literal_rest(s, q) <= s.len(),
    decreases s.len(),
{
    if s.len() >= 2 && s[0] == '\\' {
        literal_rest_bounds(s.skip(2), q);
    } else if s.len() > 0 && s[0] != '\\' && s[0] != q {
        literal_rest_bounds(s.skip(1), q);
    }
}

proof fn line_len_bounds(s: Seq<char>)
    ensures
        0 <= line_len(s) <= s.len(),
    decreases s.len(),
{
    if s.len() > 0 && s[0] != '\n' {
        line_len_bounds(s.skip(1));
    }
}

proof fn block_rest_bounds(s: Seq<char>)
    ensures
        0 <= block_rest(s) <= s.len(),
    decreases s.len(),
{
    if s.len() > 0 && !opens_with(s, '*', '/') {
        block_rest_bounds(s.skip(1));
    }
}

/// Every text that is not empty begins with a token.
pub proof fn token_len_bounds(s: Seq<char>)
    requires
        s.len() > 0,
    ensures
        0 < token_len(s) <= s.len(),
{
    literal_rest_bounds(s.skip(1), s[0]);
    line_len_bounds(s.skip(1));
    block_rest_bounds(s.skip(2));
}

/// What kind of token begins at a position.
#[derive(Clone, Copy, PartialEq, Eq, Structural)]
enum Kind {
    Comment,
    Literal,
    Symbol,
}

spec fn is_kind(t: Token, kind: Kind) -> bool {
    match kind {
        Kind::Comment => t is Comment,
        Kind::Literal => t is Literal,
        Kind::Symbol => t is Symbol,
    }
}

/// Finds the end of a string literal whose opening quote stands before `from`.
fn literal_end(chars: &Vec<char>, from: usize, q: char) -> (r: usize)
    requires
        from <= chars@.len(),
    ensures
        r == from + literal_rest(chars@.skip(from as int), q),
        r <= chars@.len(),
{
    let len: usize = chars.len();
    let mut i: usize = from;
    while i < len
        invariant
            from <= i <= len == chars@.len(),
            literal_rest(chars@.skip(from as int), q) == i - from + literal_rest(
                chars@.skip(i as int),
                q,
            ),
        decreases len - i,
    {
        let ghost rest = chars@.skip(i as int);
        if chars[i] == '\\' {
            if len - i == 1 {
                return len;
            }
            assert(rest.skip(2) =~= chars@.skip(i + 2));
            i += 2;
        } else if chars[i] == q {
            return i + 1;
        } else {
            assert(rest.skip(1) =~= chars@.skip(i + 1));
            i += 1;
        }
    }
    len
}

/// Finds the end of the line.
fn line_end(chars: &Vec<char>, from: usize) -> (r: usize)
    requires
        from <= chars@.len(),
    ensures
        r == from + line_len(chars@.skip(from as int)),
        r <= chars@.len(),
{
    let len: usize = chars.len();
    let mut i: usize = from;
    while i < len && chars[i] != '\n'
        invariant
            from <= i <= len == chars@.len(),
            line_len(chars@.skip(from as int)) == i - from + line_len(chars@.skip(i as int)),
        decreases len - i,
    {
        assert(chars@.skip(i as int).skip(1) =~= chars@.skip(i + 1));
        i += 1;
    }
    i
}

/// Finds the end of a block comment whose opening stands before `from`.
fn block_end(chars: &Vec<char>, from: usize) -> (r: usize)
    requires
        from <= chars@.len(),
    ensures
        r == from + block_rest(chars@.skip(from as int)),
        r <= chars@.len(),
{
    let len: usize = chars.len();
    let mut i: usize = from;
    while i < len
        invariant
            from <= i <= len == chars@.len(),
            block_rest(chars@.skip(from as int)) == i - from + block_rest(chars@.skip(i as int)),
        decreases len - i,
    {
        assert(chars@.skip(i as int).skip(1) =~= chars@.skip(i + 1));
        if chars[i] == '*' && len - i >= 2 && chars[i + 1] == '/' {
            return i + 2;
        }
        i += 1;
    }
    len
}

/// The token at `i`: its kind and where it ends.
fn scan(chars: &Vec<char>, i: usize) -> (r: (Kind, usize))
    requires
        i < chars@.len(),
    ensures
        is_kind(first_token(chars@.skip(i as int)), r.0),
        r.1 == i + token_len(chars@.skip(i as int)),
        i < r.1 <= chars@.len(),
{
    let ghost rest = chars@.skip(i as int);
    proof {
        token_len_bounds(rest);
        assert(rest.skip(1) =~= chars@.skip(i + 1));
        if rest.len() >= 2 {
            assert(rest.skip(2) =~= chars@.skip(i + 2));
        }
    }
    let len: usize = chars.len();
    let c: char = chars[i];
    if c == '"' || c == '\'' {
        (Kind::Literal, literal_end(chars, i + 1, c))
    } else if len - i >= 2 && c == '-' && chars[i + 1] == '-' {
        (Kind::Comment, line_end(chars, i))
    } else if len - i >= 2 && c == '/' && chars[i + 1] == '*' {
        (Kind::Comment, block_end(chars, i + 2))
    } else {
        (Kind::Symbol, i + 1)
    }
}

proof fn next_terminator_skips(ts: Seq<Token>, k: int, n: int)
    requires
        0 <= k <= n <= ts.len(),
        forall|j: int| k <= j < n ==> !terminates(ts, j),
    ensures
        next_terminator(ts, k) == next_terminator(ts, n),
    decreases n - k,
{
    if k < n {
        next_terminator_skips(ts, k + 1, n);
    }
}

/// A run of tokens without a terminating semicolon is a segment of its own.
proof fn segments_of_unterminated(cur: Seq<Token>)
    requires
        forall|j: int| 0 <= j < cur.len() ==> !terminates(cur, j),
    ensures
        segments(cur) == seq![cur],
{
    next_terminator_skips(cur, 0, cur.len() as int);
}

/// A terminating semicolon ends the first segment.
proof fn segments_of_terminated(cur: Seq<Token>, rest: Seq<Token>)
    requires
        forall|j: int| 0 <= j < cur.len() ==> !terminates(cur, j),
        brace_depth(cur) == 0,
    ensures
        segments(cur + (seq![Token::Symbol(';')] + rest)) == seq![cur] + segments(rest),
{
    let n = cur.len() as int;
    let ts = cur + (seq![Token::Symbol(';')] + rest);
    assert forall|j: int| 0 <= j < n implies !terminates(ts, j) by {
        assert(ts.take(j) =~= cur.take(j));
        assert(!terminates(cur, j));
    }
    next_terminator_skips(ts, 0, n);
    assert(ts.take(n) =~= cur);
    assert(ts.skip(n + 1) =~= rest);
}

/// Adding a token that does not terminate the segment.
proof fn unterminated_push(cur: Seq<Token>, t: Token)
    requires
        forall|j: int| 0 <= j < cur.len() ==> !terminates(cur, j),
        t != Token::Symbol(';') || brace_depth(cur) != 0,
    ensures
        forall|j: int| 0 <= j < cur.push(t).len() ==> !terminates(cur.push(t), j),
{
    let next = cur.push(t);
    assert forall|j: int| 0 <= j < next.len() implies !terminates(next, j) by {
        assert(next.take(j) =~= cur.take(j));
        if j < cur.len() {
            assert(!terminates(cur, j));
        } else {
            assert(cur.take(j) =~= cur);
        }
    }
}

proof fn render_push(ts: Seq<Token>, t: Token)
    ensures
        render(ts.push(t)) == render(ts) + token_text(t),
{
    assert(ts.push(t).drop_last() =~= ts);
}

proof fn segment_texts_push(gs: Seq<Seq<Token>>, g: Seq<Token>)
    ensures
        segment_texts(gs.push(g)) == ({
            let text = trim(render(g));
            if text.len() == 0 {
                segment_texts(gs)
            } else {
                segment_texts(gs).push(text)
            }
        }),
{
    assert(gs.push(g).drop_last() =~= gs);
}

/// Appends the characters `from..to`.
fn push_range(buf: &mut Vec<char>, chars: &Vec<char>, from: usize, to: usize)
    requires
        from <= to <= chars@.len(),
    ensures
        final(buf)@ == old(buf)@ + chars@.subrange(from as int, to as int),
{
    let mut i: usize = from;
    assert(buf@ + chars@.subrange(from as int, from as int) =~= buf@);
    while i < to
        invariant
            from <= i <= to <= chars@.len(),
            buf@ == old(buf)@ + chars@.subrange(from as int, i as int),
        decreases to - i,
    {
        buf.push(chars[i]);
        i += 1;
        assert(buf@ =~= old(buf)@ + chars@.subrange(from as int, i as int));
    }
}

/// Adds the text of a segment to the statements, unless it is blank.
fn push_statement(out: &mut Vec<String>, buf: &Vec<char>, Ghost(gs): Ghost<Seq<Seq<Token>>>, Ghost(
    g,
): Ghost<Seq<Token>>)
    requires
        old(out).deep_view() == segment_texts(gs),
        buf@ == render(g),
    ensures
        final(out).deep_view() == segment_texts(gs.push(g)),
{
    let text: String = trimmed(buf);
    proof {
        segment_texts_push(gs, g);
    }
    if !text.as_str().is_empty() {
        out.push(text);
        assert(out.deep_view() =~= old(out).deep_view().push(text@));
    }
}

/// Splits a SurrealQL text at its terminating semicolons: gives the statements before the
/// last of them, and the text behind it.
fn split_at_terminators(sql: &str) -> (r: (Vec<String>, Vec<char>))
    ensures
        r.0.deep_view() == segment_texts(segments(tokens(sql@)).drop_last()),
        r.1@ == render(segments(tokens(sql@)).last()),
{
    let chars: Vec<char> = to_chars(sql);
    let len: usize = chars.len();
    let mut out: Vec<String> = Vec::new();
    let mut buf: Vec<char> = Vec::new();
    let mut depth: i128 = 0;
    let mut i: usize = 0;
    let ghost mut gs: Seq<Seq<Token>> = Seq::empty();
    let ghost mut cur: Seq<Token> = Seq::empty();
    proof {
        assert(chars@.skip(0) =~= chars@);
        assert(gs + segments(cur + tokens(chars@)) =~= segments(tokens(chars@))) by {
            assert(cur + tokens(chars@) =~= tokens(chars@));
        }
        assert(out.deep_view() =~= segment_texts(gs));
    }
    while i < len
        invariant
            i <= len == chars@.len(),
            -i <= depth <= i,
            depth == brace_depth(cur),
            buf@ == render(cur),
            forall|j: int| 0 <= j < cur.len() ==> !terminates(cur, j),
            segments(tokens(chars@)) == gs + segments(cur + tokens(chars@.skip(i as int))),
            out.deep_view() == segment_texts(gs),
        decreases len - i,
    {
        let ghost rest = chars@.skip(i as int);
        let ghost t = first_token(rest);
        let (kind, end) = scan(&chars, i);
        let ghost after = tokens(chars@.skip(end as int));
        proof {
            assert(rest.skip(token_len(rest)) =~= chars@.skip(end as int));
            assert(tokens(rest) == seq![t] + after);
        }
        let c: char = chars[i];
        if kind == Kind::Symbol && c == ';' && depth == 0 {
            push_statement(&mut out, &buf, Ghost(gs), Ghost(cur));
            buf.clear();
            proof {
                segments_of_terminated(cur, after);
                assert(gs + (seq![cur] + segments(after)) =~= gs.push(cur) + segments(after));
                gs = gs.push(cur);
                cur = Seq::empty();
                assert(cur + after =~= after);
            }
        } else {
            proof {
                unterminated_push(cur, t);
                render_push(cur, t);
                assert(cur.push(t).drop_last() =~= cur);
                assert(cur + (seq![t] + after) =~= cur.push(t) + after);
            }
            if kind != Kind::Comment {
                push_range(&mut buf, &chars, i, end);
                assert(rest.take(token_len(rest)) =~= chars@.subrange(i as int, end as int));
                assert(kind == Kind::Symbol ==> chars@.subrange(i as int, end as int) =~= seq![c]);
            }
            if kind == Kind::Symbol && c == '{' {
                depth += 1;
            } else if kind == Kind::Symbol && c == '}' {
                depth -= 1;
            }
            proof {
                cur = cur.push(t);
                assert(buf@ =~= render(cur));
            }
        }
        i = end;
    }
    proof {
        assert(cur + tokens(chars@.skip(len as int)) =~= cur);
        segments_of_unterminated(cur);
        assert(gs + seq![cur] =~= gs.push(cur));
        assert(gs.push(cur).drop_last() =~= gs);
    }
    (out, buf)
}

/// Splits a SurrealQL text into its top-level statements. Respects:
///   - `--` line comments
///   - `/* ... */` block comments
///   - single and double-quoted strings (with `\` escapes)
///   - `{ ... }` blocks (for event bodies that contain `;` internally)
///
/// Returns the statements with surrounding white space trimmed and the trailing
/// `;` removed. Empty statements are skipped. Text after the last `;` is a
/// statement too.
pub fn split_statements(sql: &str) -> (r: Vec<String>)
    ensures
        r.deep_view() == statements(sql@),
{
    let (mut out, last) = split_at_terminators(sql);
    let ghost all = segments(tokens(sql@));
    push_statement(&mut out, &last, Ghost(all.drop_last()), Ghost(all.last()));
    assert(all.drop_last().push(all.last()) =~= all);
    out
}

/// Puts a single space in the place of each run of comments and white space; string
/// literals are left alone.
pub fn strip_comments_and_normalize_ws(sql: &str) -> (r: String)
    ensures
        r@ == normalized(sql@),
{
    let chars: Vec<char> = to_chars(sql);
    let len: usize = chars.len();
    let mut out = String::new();
    let mut after_blank: bool = false;
    let mut i: usize = 0;
    let ghost mut done: Seq<Token> = Seq::empty();
    proof {
        assert(chars@.skip(0) =~= chars@);
        assert(done + tokens(chars@) =~= tokens(chars@));
        assert(out@ =~= render(single_spaced(done)));
    }
    while i < len
        invariant
            i <= len == chars@.len(),
            tokens(chars@) == done + tokens(chars@.skip(i as int)),
            out@ == render(single_spaced(done)),
            after_blank == (done.len() > 0 && is_blank(done.last())),
        decreases len - i,
    {
        let ghost rest = chars@.skip(i as int);
        let ghost t = first_token(rest);
        let ghost front = single_spaced(done);
        let (kind, end) = scan(&chars, i);
        proof {
            let after = tokens(chars@.skip(end as int));
            assert(rest.skip(token_len(rest)) =~= chars@.skip(end as int));
            assert(tokens(rest) == seq![t] + after);
            assert(done + (seq![t] + after) =~= done.push(t) + after);
            assert(done.push(t).drop_last() =~= done);
            assert(rest.take(token_len(rest)) =~= chars@.subrange(i as int, end as int));
        }
        if kind == Kind::Comment || (kind == Kind::Symbol && is_white_space(chars[i])) {
            if !after_blank {
                out.push(' ');
                proof {
                    render_push(front, Token::Symbol(' '));
                    assert(out@ =~= render(front) + seq![' ']);
                }
            }
            after_blank = true;
        } else {
            let text: String = to_text(&chars, i, end);
            out.append(text.as_str());
            proof {
                assert(kind == Kind::Symbol ==> text@ =~= seq![chars@[i as int]]);
                render_push(front, t);
            }
            after_blank = false;
        }
        proof {
            done = done.push(t);
        }
        i = end;
    }
    assert(done + tokens(chars@.skip(len as int)) =~= done);
    out
}

/// A word of code, and whether it stands in quotes.
#[derive(Debug, PartialEq, Eq)]
pub struct Word {
    pub chars: Vec<char>,
    pub quoted: bool,
}

impl View for Word {
    type V = WordView;

    open spec fn view(&self) -> WordView {
        WordView { text: self.chars@, quoted: self.quoted }
    }
}

impl DeepView for Word {
    type V = WordView;

    open spec fn deep_view(&self) -> WordView {
        self@
    }
}

proof fn first_backquote_bounds(ts: Seq<Token>)
    ensures
        0 <= first_backquote(ts) <= ts.len(),
    decreases ts.len(),
{
    if ts.len() > 0 {
        first_backquote_bounds(ts.drop_first());
    }
}

pub(crate) proof fn first_backquote_of(front: Seq<Token>, rest: Seq<Token>)
    requires
        forall|i: int| 0 <= i < front.len() ==> #[trigger] front[i] != Token::Symbol('`'),
    ensures
        first_backquote(front + rest) == front.len() + first_backquote(rest),
    decreases front.len(),
{
    if front.len() == 0 {
        assert(front + rest =~= rest);
    } else {
        let tail = front.drop_first();
        assert forall|i: int| 0 <= i < tail.len() implies #[trigger] tail[i]
            != Token::Symbol('`') by {
            assert(tail[i] == front[i + 1]);
        }
        first_backquote_of(tail, rest);
        assert((front + rest).drop_first() =~= tail + rest);
        assert((front + rest)[0] == front[0]);
    }
}

/// Finds the backquote that ends a name, whose first backquote stands before `from`: gives
/// the text of the name with its backquotes, and the position behind it.
fn quoted_name(chars: &Vec<char>, from: usize) -> (r: Option<(Vec<char>, usize)>)
    requires
        from <= chars@.len(),
    ensures
        ({
            let ts = tokens(chars@.skip(from as int));
            let k = first_backquote(ts);
            match r {
                Some((text, end)) => {
                    &&& 0 <= k < ts.len()
                    &&& from < end <= chars@.len()
                    &&& text@ == render(seq![Token::Symbol('`')] + ts.take(k + 1))
                    &&& tokens(chars@.skip(end as int)) == ts.skip(k + 1)
                },
                None => k == ts.len(),
            }
        }),
{
    let len: usize = chars.len();
    let ghost ts = tokens(chars@.skip(from as int));
    let ghost quote = Token::Symbol('`');
    let mut text: Vec<char> = Vec::new();
    text.push('`');
    let mut i: usize = from;
    let ghost mut front: Seq<Token> = Seq::empty();
    proof {
        assert(front + ts =~= ts);
        assert(Seq::<Token>::empty().push(quote) =~= seq![quote] + front);
        render_push(Seq::empty(), quote);
        assert(text@ =~= render(seq![quote] + front));
    }
    while i < len
        invariant
            from <= i <= len == chars@.len(),
            quote == Token::Symbol('`'),
            ts == tokens(chars@.skip(from as int)),
            ts == front + tokens(chars@.skip(i as int)),
            forall|j: int| 0 <= j < front.len() ==> #[trigger] front[j] != quote,
            text@ == render(seq![quote] + front),
        decreases len - i,
    {
        let ghost rest = chars@.skip(i as int);
        let ghost t = first_token(rest);
        let (kind, end) = scan(&chars, i);
        let ghost after = tokens(chars@.skip(end as int));
        proof {
            assert(rest.skip(token_len(rest)) =~= chars@.skip(end as int));
            assert(tokens(rest) == seq![t] + after);
            assert(front + (seq![t] + after) =~= front.push(t) + after);
            assert(rest.take(token_len(rest)) =~= chars@.subrange(i as int, end as int));
            render_push(seq![quote] + front, t);
            assert((seq![quote] + front).push(t) =~= seq![quote] + front.push(t));
        }
        let c: char = chars[i];
        if kind != Kind::Comment {
            push_range(&mut text, chars, i, end);
            assert(kind == Kind::Symbol ==> chars@.subrange(i as int, end as int) =~= seq![c]);
        }
        assert(text@ =~= render(seq![quote] + front.push(t)));
        if kind == Kind::Symbol && c == '`' {
            proof {
                first_backquote_of(front, tokens(rest));
                assert(tokens(rest)[0] == quote);
                let k = front.len() as int;
                assert(ts.take(k + 1) =~= front.push(t));
                assert(ts.skip(k + 1) =~= after);
            }
            return Some((text, end));
        }
        proof {
            front = front.push(t);
        }
        i = end;
    }
    proof {
        assert(front + tokens(chars@.skip(len as int)) =~= front);
        first_backquote_of(front, Seq::empty());
        assert(front + Seq::<Token>::empty() =~= front);
    }
    None
}

/// A plain word at the end of the tokens is the last of the words.
pub(crate) proof fn open_word(ts: Seq<Token>)
    requires
        ts.len() > 0,
        in_word(ts.last()),
    ensures
        words_of(ts).len() > 0,
        !words_of(ts).last().quoted,
{
}

/// Lists the words of the code in a SurrealQL text.
pub fn split_code_words(sql: &str) -> (r: Vec<Word>)
    ensures
        r.deep_view() == code_words(sql@),
{
    let chars: Vec<char> = to_chars(sql);
    let len: usize = chars.len();
    let mut out: Vec<Word> = Vec::new();
    let mut open: bool = false;
    let mut i: usize = 0;
    let ghost all = with_quoted_names(tokens(chars@));
    let ghost mut done: Seq<Token> = Seq::empty();
    proof {
        assert(chars@.skip(0) =~= chars@);
        assert(done + all =~= all);
        assert(out.deep_view() =~= words_of(done));
    }
    while i < len
        invariant
            i <= len == chars@.len(),
            all == with_quoted_names(tokens(chars@)),
            all == done + with_quoted_names(tokens(chars@.skip(i as int))),
            out.deep_view() == words_of(done),
            open == (done.len() > 0 && in_word(done.last())),
        decreases len - i,
    {
        let ghost rest = chars@.skip(i as int);
        let ghost ts = tokens(rest);
        let ghost t = first_token(rest);
        let ghost front = words_of(done);
        let (kind, end) = scan(&chars, i);
        let ghost after = tokens(chars@.skip(end as int));
        proof {
            assert(rest.skip(token_len(rest)) =~= chars@.skip(end as int));
            assert(ts == seq![t] + after);
            assert(ts.drop_first() =~= after);
            assert(rest.take(token_len(rest)) =~= chars@.subrange(i as int, end as int));
            first_backquote_bounds(after);
        }
        let c: char = chars[i];
        let name: Option<(Vec<char>, usize)> = if kind == Kind::Symbol && c == '`' {
            quoted_name(&chars, end)
        } else {
            None
        };
        match name {
            Some((text, past)) => {
                proof {
                    let k = first_backquote(after);
                    let literal = Token::Literal(render(ts.take(k + 2)));
                    assert(ts.take(k + 2) =~= seq![t] + after.take(k + 1));
                    assert(ts.skip(k + 2) =~= after.skip(k + 1));
                    let more = with_quoted_names(ts.skip(k + 2));
                    assert(done + (seq![literal] + more) =~= done.push(literal) + more);
                    assert(done.push(literal).drop_last() =~= done);
                    done = done.push(literal);
                }
                out.push(Word { chars: text, quoted: true });
                assert(out.deep_view() =~= words_of(done));
                open = false;
                i = past;
            },
            None => {
                proof {
                    let more = with_quoted_names(after);
                    assert(with_quoted_names(ts) == seq![t] + more);
                    assert(done + (seq![t] + more) =~= done.push(t) + more);
                    assert(done.push(t).drop_last() =~= done);
                    assert(done.len() > 0 ==> done.push(t)[done.len() - 1] == done.last());
                    if open {
                        open_word(done);
                    }
                    done = done.push(t);
                }
                if kind == Kind::Literal {
                    let mut text: Vec<char> = Vec::new();
                    push_range(&mut text, &chars, i, end);
                    assert(text@ =~= chars@.subrange(i as int, end as int));
                    out.push(Word { chars: text, quoted: true });
                    open = false;
                } else if kind == Kind::Comment || is_white_space(c) {
                    open = false;
                } else if c == ';' || !open {
                    let mut text: Vec<char> = Vec::new();
                    text.push(c);
                    assert(text@ =~= seq![c]);
                    out.push(Word { chars: text, quoted: false });
                    open = c != ';';
                } else {
                    if let Some(word) = out.pop() {
                        let mut chars_of: Vec<char> = word.chars;
                        chars_of.push(c);
                        out.push(Word { chars: chars_of, quoted: false });
                    }
                }
                assert(out.deep_view() =~= words_of(done));
                i = end;
            },
        }
    }
    proof {
        assert(tokens(chars@.skip(len as int)) =~= Seq::empty());
        assert(done + with_quoted_names(Seq::empty()) =~= done);
    }
    out
}

/// The text after the last terminating semicolon, if there is more than comments and
/// white space in it.
pub open spec fn unterminated(s: Seq<char>) -> Option<Seq<char>> {
    let text = trim(render(segments(tokens(s)).last()));
    if text.len() == 0 {
        None
    } else {
        Some(text)
    }
}

/// The last statement of a SurrealQL text, if no semicolon ends it.
pub fn unterminated_statement(sql: &str) -> (r: Option<String>)
    ensures
        match unterminated(sql@) {
            Some(text) => r is Some && r->0@ == text && text == statements(sql@).last(),
            None => r is None,
        },
{
    let (_, last) = split_at_terminators(sql);
    let text: String = trimmed(&last);
    if text.as_str().is_empty() {
        None
    } else {
        Some(text)
    }
}

} // verus!
