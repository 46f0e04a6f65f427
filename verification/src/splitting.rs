//! What holds of the statements of every SurrealQL text.

use vstd::prelude::*;

use crate::surql::{
    block_rest, brace_depth, first_token, is_quote, line_len, literal_rest, next_terminator,
    opens_with, render, segment_texts, segments, statements, terminates, token_len,
    token_len_bounds, token_text, tokens, Token,
};
use crate::text::{strip, trim, white_space};

verus! {

proof fn strip_is_idempotent(s: Seq<char>, p: spec_fn(char) -> bool)
    ensures
        strip(strip(s, p), p) == strip(s, p),
    decreases s.len(),
{
    if s.len() > 0 {
        if p(s.first()) {
            strip_is_idempotent(s.drop_first(), p);
        } else if p(s.last()) {
            strip_is_idempotent(s.drop_last(), p);
        }
    }
}

pub(crate) proof fn trim_is_idempotent(s: Seq<char>)
    ensures
        trim(trim(s)) == trim(s),
{
    strip_is_idempotent(s, |c: char| white_space(c));
}

proof fn segment_texts_are_trimmed(gs: Seq<Seq<Token>>)
    ensures
        forall|i: int|
            0 <= i < segment_texts(gs).len() ==> {
                let x = #[trigger] segment_texts(gs)[i];
                x.len() > 0 && trim(x) == x
            },
    decreases gs.len(),
{
    if gs.len() > 0 {
        segment_texts_are_trimmed(gs.drop_last());
        let s = render(gs.last());
        trim_is_idempotent(s);
        let before = segment_texts(gs.drop_last());
        assert forall|i: int| 0 <= i < segment_texts(gs).len() implies {
            let x = #[trigger] segment_texts(gs)[i];
            x.len() > 0 && trim(x) == x
        } by {
            if i < before.len() {
                assert(segment_texts(gs)[i] == before[i]);
            } else {
                assert(segment_texts(gs)[i] == trim(s));
            }
        }
    }
}

/// No statement is empty, and none has white space around it.
pub proof fn statements_are_trimmed(s: Seq<char>)
    ensures
        forall|i: int|
            0 <= i < statements(s).len() ==> {
                let x = #[trigger] statements(s)[i];
                x.len() > 0 && trim(x) == x
            },
{
    segment_texts_are_trimmed(segments(tokens(s)));
}

/// Whether the closing quote `q` of a string literal is there.
pub open spec fn literal_closed(s: Seq<char>, q: char) -> bool
    decreases s.len(),
{
    if s.len() == 0 {
        false
    } else if s[0] == '\\' {
        s.len() >= 2 && literal_closed(s.skip(2), q)
    } else if s[0] == q {
        true
    } else {
        literal_closed(s.skip(1), q)
    }
}

/// Whether the end of a block comment is there.
pub open spec fn block_closed(s: Seq<char>) -> bool
    decreases s.len(),
{
    if s.len() == 0 {
        false
    } else if opens_with(s, '*', '/') {
        true
    } else {
        block_closed(s.skip(1))
    }
}

/// Whether the first token of a text ends in it: a string literal with its quote, a
/// block comment with its end, a line comment with a line break after it.
pub open spec fn token_closed(s: Seq<char>) -> bool {
    if is_quote(s[0]) {
        literal_closed(s.skip(1), s[0])
    } else if opens_with(s, '-', '-') {
        line_len(s) < s.len()
    } else if opens_with(s, '/', '*') {
        block_closed(s.skip(2))
    } else {
        true
    }
}

/// Whether all tokens of a text end in it.
pub open spec fn closed(s: Seq<char>) -> bool
    decreases s.len(),
{
    0 < s.len() && 0 < token_len(s) <= s.len() ==> token_closed(s) && closed(s.skip(token_len(s)))
}

pub(crate) proof fn literal_rest_extends(s: Seq<char>, more: Seq<char>, q: char)
    requires
        literal_closed(s, q),
    ensures
        literal_rest(s + more, q) == literal_rest(s, q),
    decreases s.len(),
{
    if s[0] == '\\' {
        assert((s + more).skip(2) =~= s.skip(2) + more);
        literal_rest_extends(s.skip(2), more, q);
    } else if s[0] != q {
        assert((s + more).skip(1) =~= s.skip(1) + more);
        literal_rest_extends(s.skip(1), more, q);
    }
}

proof fn line_len_extends(s: Seq<char>, more: Seq<char>)
    requires
        line_len(s) < s.len(),
    ensures
        line_len(s + more) == line_len(s),
    decreases s.len(),
{
    if s[0] != '\n' {
        assert((s + more).skip(1) =~= s.skip(1) + more);
        line_len_extends(s.skip(1), more);
    }
}

proof fn block_rest_extends(s: Seq<char>, more: Seq<char>)
    requires
        block_closed(s),
    ensures
        block_rest(s + more) == block_rest(s),
    decreases s.len(),
{
    if !opens_with(s, '*', '/') {
        assert((s + more).skip(1) =~= s.skip(1) + more);
        block_rest_extends(s.skip(1), more);
        if s.len() == 1 {
            assert(!block_closed(s.skip(1)));
        } else {
            assert((s + more)[1] == s[1]);
        }
    } else {
        assert(opens_with(s + more, '*', '/'));
    }
}

/// Whether a text can follow another without changing its tokens: it does not turn
/// a last `-` or `/` into the start of a comment.
pub open spec fn can_follow(more: Seq<char>) -> bool {
    more.len() > 0 ==> more[0] != '-' && more[0] != '*'
}

/// The tokens of a closed text and of what follows it are those of the two.
pub proof fn tokens_of_two(s: Seq<char>, more: Seq<char>)
    requires
        closed(s),
        can_follow(more),
    ensures
        tokens(s + more) == tokens(s) + tokens(more),
    decreases s.len(),
{
    if s.len() == 0 {
        assert(s + more =~= more);
        assert(tokens(s) + tokens(more) =~= tokens(more));
    } else {
        let all = s + more;
        token_len_bounds(s);
        token_len_bounds(all);
        let n = token_len(s);
        assert(all[0] == s[0]);
        assert(all.skip(1) =~= s.skip(1) + more);
        if is_quote(s[0]) {
            literal_rest_extends(s.skip(1), more, s[0]);
        } else if opens_with(s, '-', '-') {
            line_len_extends(s, more);
        } else if opens_with(s, '/', '*') {
            assert(all.skip(2) =~= s.skip(2) + more);
            block_rest_extends(s.skip(2), more);
        } else if s.len() == 1 && more.len() > 0 {
            assert(all[1] == more[0]);
        } else if s.len() > 1 {
            assert(all[1] == s[1]);
        }
        assert(token_len(all) == n);
        assert(all.take(n) =~= s.take(n));
        assert(first_token(all) == first_token(s));
        assert(all.skip(n) =~= s.skip(n) + more);
        tokens_of_two(s.skip(n), more);
        assert(seq![first_token(s)] + (tokens(s.skip(n)) + tokens(more)) =~= tokens(s) + tokens(
            more,
        ));
    }
}

pub(crate) proof fn depth_of_two(a: Seq<Token>, b: Seq<Token>)
    ensures
        brace_depth(a + b) == brace_depth(a) + brace_depth(b),
    decreases b.len(),
{
    if b.len() == 0 {
        assert(a + b =~= a);
    } else {
        depth_of_two(a, b.drop_last());
        assert((a + b).drop_last() =~= a + b.drop_last());
    }
}

pub(crate) proof fn render_of_two(a: Seq<Token>, b: Seq<Token>)
    ensures
        render(a + b) == render(a) + render(b),
    decreases b.len(),
{
    if b.len() == 0 {
        assert(a + b =~= a);
        assert(render(a) + render(b) =~= render(a));
    } else {
        render_of_two(a, b.drop_last());
        assert((a + b).drop_last() =~= a + b.drop_last());
        assert(render(a) + (render(b.drop_last()) + token_text(b.last())) =~= (
        render(a) + render(b.drop_last())) + token_text(b.last()));
    }
}

pub(crate) proof fn texts_of_two(a: Seq<Seq<Token>>, b: Seq<Seq<Token>>)
    ensures
        segment_texts(a + b) == segment_texts(a) + segment_texts(b),
    decreases b.len(),
{
    if b.len() == 0 {
        assert(a + b =~= a);
        assert(segment_texts(a) + segment_texts(b) =~= segment_texts(a));
    } else {
        texts_of_two(a, b.drop_last());
        assert((a + b).drop_last() =~= a + b.drop_last());
        assert(segment_texts(a + b) =~= segment_texts(a) + segment_texts(b));
    }
}

/// The first terminating semicolon is one, and none stands before it.
pub(crate) proof fn next_terminator_is_first(ts: Seq<Token>, k: int)
    requires
        0 <= k <= ts.len(),
    ensures
        k <= next_terminator(ts, k) <= ts.len(),
        next_terminator(ts, k) < ts.len() ==> terminates(ts, next_terminator(ts, k)),
        forall|j: int| k <= j < next_terminator(ts, k) ==> !#[trigger] terminates(ts, j),
    decreases ts.len() - k,
{
    if k < ts.len() && !terminates(ts, k) {
        next_terminator_is_first(ts, k + 1);
    }
}

proof fn first_terminator(ts: Seq<Token>, k: int)
    requires
        0 <= k < ts.len(),
        terminates(ts, k),
        forall|j: int| 0 <= j < k ==> !#[trigger] terminates(ts, j),
    ensures
        next_terminator(ts, 0) == k,
{
    next_terminator_is_first(ts, 0);
    let n = next_terminator(ts, 0);
    if n < k {
        assert(!terminates(ts, n));
    }
}

/// A semicolon behind tokens that leave no brace open splits there.
pub(crate) proof fn segments_of_two(ts: Seq<Token>, rest: Seq<Token>)
    requires
        brace_depth(ts) == 0,
    ensures
        segments(ts + (seq![Token::Symbol(';')] + rest)) == segments(ts) + segments(rest),
    decreases ts.len(),
{
    let semi = seq![Token::Symbol(';')];
    let all = ts + (semi + rest);
    let k = next_terminator(ts, 0);
    next_terminator_is_first(ts, 0);
    let at = if k < ts.len() {
        k
    } else {
        ts.len() as int
    };
    assert forall|j: int| 0 <= j < at implies !#[trigger] terminates(all, j) by {
        assert(all.take(j) =~= ts.take(j));
        assert(!terminates(ts, j));
    }
    if k < ts.len() {
        assert(all.take(k) =~= ts.take(k));
        assert(terminates(all, k));
        first_terminator(all, k);
        let tail = ts.skip(k + 1);
        assert(all.skip(k + 1) =~= tail + (semi + rest));
        assert(ts =~= ts.take(k) + (semi + tail));
        depth_of_two(ts.take(k), semi + tail);
        depth_of_two(semi, tail);
        assert(brace_depth(semi) == 0) by {
            assert(brace_depth(semi.drop_last()) == 0);
        }
        segments_of_two(tail, rest);
        assert(seq![ts.take(k)] + (segments(tail) + segments(rest)) =~= segments(ts) + segments(
            rest,
        ));
    } else {
        let n = ts.len() as int;
        assert(all.take(n) =~= ts);
        assert(terminates(all, n));
        first_terminator(all, n);
        assert(all.skip(n + 1) =~= rest);
    }
}

/// A semicolon behind a closed text whose braces are matched ends a statement: the
/// statements are those before it and those after it.
pub proof fn a_semicolon_ends_a_statement(s: Seq<char>, more: Seq<char>)
    requires
        closed(s),
        brace_depth(tokens(s)) == 0,
    ensures
        statements(s + seq![';'] + more) == statements(s) + statements(more),
{
    let tail = seq![';'] + more;
    assert(s + seq![';'] + more =~= s + tail);
    tokens_of_two(s, tail);
    assert(token_len(tail) == 1);
    assert(tail.skip(1) =~= more);
    assert(tokens(tail) == seq![Token::Symbol(';')] + tokens(more));
    segments_of_two(tokens(s), tokens(more));
    texts_of_two(segments(tokens(s)), segments(tokens(more)));
}

/// Whether a text can stand between two quotes `q`: each `q` in it is escaped, and it
/// ends in no open escape.
pub open spec fn quotable(text: Seq<char>, q: char) -> bool
    decreases text.len(),
{
    if text.len() == 0 {
        true
    } else if text[0] == '\\' {
        text.len() >= 2 && quotable(text.skip(2), q)
    } else {
        text[0] != q && quotable(text.skip(1), q)
    }
}

/// A string literal is one token, whatever stands in it and after it.
pub proof fn a_string_literal_is_one_token(q: char, text: Seq<char>, more: Seq<char>)
    requires
        is_quote(q),
        quotable(text, q),
    ensures
        tokens(seq![q] + text + seq![q] + more) == seq![Token::Literal(seq![q] + text + seq![q])]
            + tokens(more),
{
    let literal = seq![q] + text + seq![q];
    let all = literal + more;
    closing_quote(q, text, more);
    assert(all.skip(1) =~= text + seq![q] + more);
    let n = token_len(all);
    assert(n == literal.len());
    assert(all.take(n) =~= literal);
    assert(all.skip(n) =~= more);
}

pub(crate) proof fn closing_quote(q: char, text: Seq<char>, more: Seq<char>)
    requires
        is_quote(q),
        quotable(text, q),
    ensures
        literal_rest(text + seq![q] + more, q) == text.len() + 1,
    decreases text.len(),
{
    let all = text + seq![q] + more;
    if text.len() > 0 {
        if text[0] == '\\' {
            closing_quote(q, text.skip(2), more);
            assert(all.skip(2) =~= text.skip(2) + seq![q] + more);
        } else {
            closing_quote(q, text.skip(1), more);
            assert(all.skip(1) =~= text.skip(1) + seq![q] + more);
        }
    }
}

/// A line comment is one token, whatever stands in it; the line break after it is not
/// part of it.
pub proof fn a_line_comment_is_one_token(text: Seq<char>, more: Seq<char>)
    requires
        !text.contains('\n'),
    ensures
        tokens(seq!['-', '-'] + text + seq!['\n'] + more) == seq![Token::Comment] + tokens(
            seq!['\n'] + more,
        ),
{
    let comment = seq!['-', '-'] + text;
    let rest = seq!['\n'] + more;
    let all = comment + seq!['\n'] + more;
    assert(all =~= comment + rest);
    assert(!comment.contains('\n')) by {
        if comment.contains('\n') {
            let i = choose|i: int| 0 <= i < comment.len() && comment[i] == '\n';
            assert(text[i - 2] == '\n');
        }
    }
    end_of_line(comment, rest);
    assert(all[0] == '-' && all[1] == '-');
    assert(all.skip(token_len(all)) =~= rest);
}

pub(crate) proof fn end_of_line(text: Seq<char>, rest: Seq<char>)
    requires
        !text.contains('\n'),
        rest.len() > 0,
        rest[0] == '\n',
    ensures
        line_len(text + rest) == text.len(),
    decreases text.len(),
{
    if text.len() > 0 {
        assert(text.contains(text[0]));
        assert(!text.skip(1).contains('\n')) by {
            if text.skip(1).contains('\n') {
                let i = choose|i: int| 0 <= i < text.skip(1).len() && text.skip(1)[i] == '\n';
                assert(text[i + 1] == '\n');
            }
        }
        end_of_line(text.skip(1), rest);
        assert((text + rest).skip(1) =~= text.skip(1) + rest);
    } else {
        assert(text + rest =~= rest);
    }
}

/// Whether `*/` stands nowhere in a text.
pub open spec fn ends_no_block(text: Seq<char>) -> bool {
    forall|i: int| 0 <= i < text.len() - 1 ==> !(#[trigger] text[i] == '*' && text[i + 1] == '/')
}

/// A block comment is one token, whatever stands in it before the first `*/`.
pub proof fn a_block_comment_is_one_token(text: Seq<char>, more: Seq<char>)
    requires
        ends_no_block(text),
    ensures
        tokens(seq!['/', '*'] + text + seq!['*', '/'] + more) == seq![Token::Comment] + tokens(
            more,
        ),
{
    let all = seq!['/', '*'] + text + seq!['*', '/'] + more;
    end_of_block(text, more);
    assert(all[0] == '/' && all[1] == '*');
    assert(all.skip(2) =~= text + seq!['*', '/'] + more);
    assert(all.skip(token_len(all)) =~= more);
}

pub(crate) proof fn end_of_block(text: Seq<char>, more: Seq<char>)
    requires
        ends_no_block(text),
    ensures
        block_rest(text + seq!['*', '/'] + more) == text.len() + 2,
    decreases text.len(),
{
    let all = text + seq!['*', '/'] + more;
    if text.len() > 0 {
        let tail = text.skip(1);
        assert forall|i: int| 0 <= i < tail.len() - 1 implies !(#[trigger] tail[i] == '*' && tail[i
            + 1] == '/') by {
            assert(!(text[i + 1] == '*' && text[i + 2] == '/'));
        }
        assert(all[0] == text[0]);
        if text.len() > 1 {
            assert(all[1] == text[1]);
            let i: int = 0;
            assert(!(text[i] == '*' && text[i + 1] == '/'));
        } else {
            assert(all[1] == '*');
        }
        end_of_block(tail, more);
        assert(all.skip(1) =~= tail + seq!['*', '/'] + more);
    } else {
        assert(all[0] == '*' && all[1] == '/');
    }
}

/// Whether a run of tokens closes only braces that it opened.
pub open spec fn never_closes_more(ts: Seq<Token>) -> bool {
    forall|k: int| 0 <= k <= ts.len() ==> brace_depth(#[trigger] ts.take(k)) >= 0
}

/// A block in braces is one statement, whatever semicolons stand in it; only its
/// comments are left out.
pub proof fn a_block_is_one_statement(s: Seq<char>)
    requires
        closed(s),
        never_closes_more(tokens(s)),
        brace_depth(tokens(s)) == 0,
    ensures
        statements(seq!['{'] + s + seq!['}']) == seq![
            seq!['{'] + render(tokens(s)) + seq!['}'],
        ],
{
    let body = s + seq!['}'];
    let all = seq!['{'] + s + seq!['}'];
    let open = Token::Symbol('{');
    let close = Token::Symbol('}');
    let ts = seq![open] + (tokens(s) + seq![close]);
    assert(tokens(seq!['}']) == seq![close]) by {
        assert(seq!['}'].skip(1) =~= Seq::empty());
        assert(tokens(Seq::empty()) == Seq::<Token>::empty());
        assert(seq![close] + Seq::empty() =~= seq![close]);
    }
    tokens_of_two(s, seq!['}']);
    assert(all.skip(1) =~= body);
    assert(tokens(all) == ts);
    brace_texts();
    assert forall|j: int| 0 <= j < ts.len() implies !#[trigger] terminates(ts, j) by {
        if 0 < j <= tokens(s).len() {
            assert(ts.take(j) =~= seq![open] + tokens(s).take(j - 1));
            depth_of_two(seq![open], tokens(s).take(j - 1));
        }
    }
    next_terminator_is_first(ts, 0);
    if next_terminator(ts, 0) < ts.len() {
        assert(!terminates(ts, next_terminator(ts, 0)));
    }
    assert(segments(ts) == seq![ts]);
    render_of_two(seq![open], tokens(s) + seq![close]);
    render_of_two(tokens(s), seq![close]);
    let text = seq!['{'] + render(tokens(s)) + seq!['}'];
    assert(render(ts) =~= text);
    assert(trim(text) == text);
    assert(segment_texts(seq![ts]) =~= seq![text]) by {
        assert(seq![ts].drop_last() =~= Seq::empty());
        assert(segment_texts(Seq::empty()) == Seq::<Seq<char>>::empty());
    }
}

proof fn brace_texts()
    ensures
        brace_depth(seq![Token::Symbol('{')]) == 1,
        render(seq![Token::Symbol('{')]) == seq!['{'],
        render(seq![Token::Symbol('}')]) == seq!['}'],
{
    let none = Seq::<char>::empty();
    let open = seq![Token::Symbol('{')];
    let close = seq![Token::Symbol('}')];
    assert(open.drop_last() =~= Seq::empty());
    assert(close.drop_last() =~= Seq::empty());
    assert(brace_depth(Seq::empty()) == 0);
    assert(render(Seq::empty()) =~= none);
    assert(none + seq!['{'] =~= seq!['{']);
    assert(none + seq!['}'] =~= seq!['}']);
}

} // verus!
