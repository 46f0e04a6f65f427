//! Texts that read as the tokens they were made of: statements that are put together
//! again, and texts with their white space in order.

use vstd::prelude::*;

use crate::reading::{as_tokens, is_simple, simple_text_is_read_by_characters};
use crate::splitting::{
    a_block_comment_is_one_token, a_line_comment_is_one_token, a_semicolon_ends_a_statement, closed,
    depth_of_two, ends_no_block, literal_closed, literal_rest_extends, next_terminator_is_first,
    render_of_two, segments_of_two, texts_of_two, trim_is_idempotent,
};
use crate::surql::{
    brace_depth, code_words, first_token, is_blank, is_quote, line_len, literal_rest,
    next_terminator, normalized, opens_with, render, segment_texts, segments, single_spaced,
    statements, terminates, token_len, token_len_bounds, token_text, tokens, with_quoted_names,
    words_of, Token,
};
use crate::text::{strip, trim, white_space};

verus! {

/// Whether a text is one string literal, with or without its closing quote.
spec fn is_literal(t: Seq<char>) -> bool {
    t.len() > 0 && is_quote(t[0]) && 1 + literal_rest(t.skip(1), t[0]) == t.len()
}

/// Whether a text is one string literal with its closing quote.
spec fn is_closed_literal(t: Seq<char>) -> bool {
    is_literal(t) && literal_closed(t.skip(1), t[0])
}

/// Whether two symbols next to each other would read as the start of a comment.
spec fn opens_comment(a: Token, b: Token) -> bool {
    ||| a == Token::Symbol('-') && b == Token::Symbol('-')
    ||| a == Token::Symbol('/') && b == Token::Symbol('*')
}

/// Whether token `i` reads as itself, given what follows it.
spec fn stable_at(ts: Seq<Token>, i: int) -> bool {
    match ts[i] {
        Token::Comment => false,
        Token::Literal(t) => is_literal(t) && (i < ts.len() - 1 ==> is_closed_literal(t)),
        Token::Symbol(c) => !is_quote(c) && (i < ts.len() - 1 ==> !opens_comment(ts[i], ts[i + 1])),
    }
}

/// Whether the text of the tokens reads as these tokens.
spec fn stable(ts: Seq<Token>) -> bool {
    forall|i: int| 0 <= i < ts.len() ==> #[trigger] stable_at(ts, i)
}

/// Whether all string literals have their closing quote.
spec fn all_closed(ts: Seq<Token>) -> bool {
    forall|i: int|
        0 <= i < ts.len() ==> (#[trigger] ts[i] matches Token::Literal(t) ==> is_closed_literal(t))
}

/// Whether no semicolon terminates a statement.
spec fn never_terminates(ts: Seq<Token>) -> bool {
    forall|j: int| 0 <= j < ts.len() ==> !#[trigger] terminates(ts, j)
}

proof fn literal_closed_extends(s: Seq<char>, more: Seq<char>, q: char)
    requires
        literal_closed(s, q),
    ensures
        literal_closed(s + more, q),
    decreases s.len(),
{
    if s[0] == '\\' {
        assert((s + more).skip(2) =~= s.skip(2) + more);
        literal_closed_extends(s.skip(2), more, q);
    } else if s[0] != q {
        assert((s + more).skip(1) =~= s.skip(1) + more);
        literal_closed_extends(s.skip(1), more, q);
    }
}

/// A literal without a closing quote takes the whole rest of the text.
proof fn unclosed_takes_all(s: Seq<char>, q: char)
    requires
        !literal_closed(s, q),
    ensures
        literal_rest(s, q) == s.len(),
    decreases s.len(),
{
    if s.len() > 0 {
        if s[0] == '\\' {
            if s.len() >= 2 {
                unclosed_takes_all(s.skip(2), q);
            }
        } else {
            unclosed_takes_all(s.skip(1), q);
        }
    }
}

/// A literal with a closing quote ends with it, and is closed without what follows.
proof fn closed_ends_with_quote(s: Seq<char>, q: char)
    requires
        literal_closed(s, q),
    ensures
        0 < literal_rest(s, q) <= s.len(),
        s[literal_rest(s, q) - 1] == q,
        literal_closed(s.take(literal_rest(s, q)), q),
        literal_rest(s.take(literal_rest(s, q)), q) == literal_rest(s, q),
    decreases s.len(),
{
    let n = literal_rest(s, q);
    if s[0] == '\\' {
        closed_ends_with_quote(s.skip(2), q);
        assert(s.take(n).skip(2) =~= s.skip(2).take(n - 2));
    } else if s[0] != q {
        closed_ends_with_quote(s.skip(1), q);
        assert(s.take(n).skip(1) =~= s.skip(1).take(n - 1));
    }
}

proof fn first_of_render(ts: Seq<Token>)
    requires
        stable(ts),
        ts.len() > 0,
    ensures
        render(ts) == token_text(ts[0]) + render(ts.drop_first()),
        token_text(ts[0]).len() > 0,
        render(ts).len() > 0,
        render(ts)[0] == token_text(ts[0])[0],
{
    let head = seq![ts[0]];
    assert(stable_at(ts, 0));
    assert(ts =~= head + ts.drop_first());
    render_of_two(head, ts.drop_first());
    render_of_one(ts[0]);
}

proof fn render_of_one(t: Token)
    ensures
        render(seq![t]) == token_text(t),
{
    assert(seq![t].drop_last() =~= Seq::empty());
    assert(render(Seq::empty()) =~= Seq::empty());
    assert(Seq::empty() + token_text(t) =~= token_text(t));
}

proof fn stable_tail(ts: Seq<Token>)
    requires
        stable(ts),
        ts.len() > 0,
    ensures
        stable(ts.drop_first()),
{
    let tail = ts.drop_first();
    assert forall|i: int| 0 <= i < tail.len() implies #[trigger] stable_at(tail, i) by {
        assert(stable_at(ts, i + 1));
    }
}

/// Stable tokens read as themselves.
proof fn tokens_of_stable(ts: Seq<Token>)
    requires
        stable(ts),
    ensures
        tokens(render(ts)) == ts,
        all_closed(ts) ==> closed(render(ts)),
    decreases ts.len(),
{
    let s = render(ts);
    if ts.len() == 0 {
        assert(tokens(s) =~= ts);
    } else {
        let t = ts[0];
        let tail = ts.drop_first();
        let more = render(tail);
        first_of_render(ts);
        stable_tail(ts);
        tokens_of_stable(tail);
        assert(stable_at(ts, 0));
        token_len_bounds(s);
        match t {
            Token::Literal(text) => {
                let q = text[0];
                assert(s.skip(1) =~= text.skip(1) + more);
                if tail.len() > 0 {
                    literal_rest_extends(text.skip(1), more, q);
                } else {
                    assert(more =~= Seq::empty());
                    assert(s =~= text);
                }
                if literal_closed(text.skip(1), q) {
                    literal_closed_extends(text.skip(1), more, q);
                }
                assert(token_len(s) == text.len());
                assert(s.take(text.len() as int) =~= text);
                assert(s.skip(text.len() as int) =~= more);
            },
            Token::Symbol(c) => {
                assert(s =~= seq![c] + more);
                if tail.len() > 0 {
                    first_of_render(tail);
                    assert(s[1] == more[0]);
                    assert(stable_at(tail, 0));
                    assert(tail[0] == ts[1]);
                } else {
                    assert(more =~= Seq::empty());
                }
                assert(!opens_with(s, '-', '-') && !opens_with(s, '/', '*'));
                assert(token_len(s) == 1);
                assert(s.skip(1) =~= more);
            },
            Token::Comment => {},
        }
        assert(first_token(s) == t);
        assert(seq![t] + tail =~= ts);
        if all_closed(ts) {
            assert forall|i: int| 0 <= i < tail.len() implies (
            #[trigger] tail[i] matches Token::Literal(x) ==> is_closed_literal(x)) by {
                assert(ts[i + 1] == tail[i]);
            }
            assert(ts[0] == t);
        }
    }
}

/// The tokens without their comments.
spec fn bare(ts: Seq<Token>) -> Seq<Token>
    decreases ts.len(),
{
    if ts.len() == 0 {
        Seq::empty()
    } else if ts.last() is Comment {
        bare(ts.drop_last())
    } else {
        bare(ts.drop_last()).push(ts.last())
    }
}

proof fn bare_of_two(a: Seq<Token>, b: Seq<Token>)
    ensures
        bare(a + b) == bare(a) + bare(b),
    decreases b.len(),
{
    if b.len() == 0 {
        assert(a + b =~= a);
        assert(bare(a) + bare(b) =~= bare(a));
    } else {
        bare_of_two(a, b.drop_last());
        assert((a + b).drop_last() =~= a + b.drop_last());
        assert(bare(a + b) =~= bare(a) + bare(b));
    }
}

proof fn bare_of_one(t: Token)
    ensures
        bare(seq![t]) == if t is Comment {
            Seq::<Token>::empty()
        } else {
            seq![t]
        },
{
    assert(seq![t].drop_last() =~= Seq::empty());
    assert(bare(Seq::empty()) =~= Seq::empty());
    assert(Seq::empty().push(t) =~= seq![t]);
}

proof fn bare_keeps_text_and_depth(ts: Seq<Token>)
    ensures
        render(bare(ts)) == render(ts),
        brace_depth(bare(ts)) == brace_depth(ts),
        never_terminates(ts) ==> never_terminates(bare(ts)),
    decreases ts.len(),
{
    if ts.len() > 0 {
        let init = ts.drop_last();
        let front = bare(init);
        bare_keeps_text_and_depth(init);
        if ts.last() is Comment {
            assert(render(init) + Seq::empty() =~= render(init));
        } else {
            assert(bare(ts).drop_last() =~= front);
        }
        if never_terminates(ts) {
            assert forall|j: int| 0 <= j < init.len() implies !#[trigger] terminates(init, j) by {
                assert(init.take(j) =~= ts.take(j));
                assert(!terminates(ts, j));
            }
            assert forall|j: int| 0 <= j < bare(ts).len() implies !#[trigger] terminates(
                bare(ts),
                j,
            ) by {
                if j < front.len() {
                    assert(bare(ts).take(j) =~= front.take(j));
                    assert(!terminates(front, j));
                } else {
                    assert(bare(ts).take(j) =~= front);
                    assert(ts.take(ts.len() - 1) =~= init);
                    assert(!terminates(ts, ts.len() - 1));
                }
            }
        }
    }
}

proof fn segments_of_unterminated(ts: Seq<Token>)
    requires
        never_terminates(ts),
    ensures
        segments(ts) == seq![ts],
{
    next_terminator_is_first(ts, 0);
    if next_terminator(ts, 0) < ts.len() {
        assert(!terminates(ts, next_terminator(ts, 0)));
    }
}

proof fn texts_of_one(g: Seq<Token>)
    ensures
        segment_texts(seq![g]) == if trim(render(g)).len() == 0 {
            Seq::<Seq<char>>::empty()
        } else {
            seq![trim(render(g))]
        },
{
    assert(seq![g].drop_last() =~= Seq::empty());
    assert(segment_texts(Seq::empty()) =~= Seq::empty());
    assert(Seq::empty().push(trim(render(g))) =~= seq![trim(render(g))]);
}

/// What stands before the first terminating semicolon.
proof fn first_segment(ts: Seq<Token>)
    requires
        next_terminator(ts, 0) < ts.len(),
    ensures
        ({
            let k = next_terminator(ts, 0);
            &&& 0 <= k
            &&& never_terminates(ts.take(k))
            &&& brace_depth(ts.take(k)) == 0
            &&& ts == ts.take(k) + (seq![Token::Symbol(';')] + ts.skip(k + 1))
            &&& segments(ts) == seq![ts.take(k)] + segments(ts.skip(k + 1))
        }),
{
    let k = next_terminator(ts, 0);
    next_terminator_is_first(ts, 0);
    let g = ts.take(k);
    assert forall|j: int| 0 <= j < g.len() implies !#[trigger] terminates(g, j) by {
        assert(g.take(j) =~= ts.take(j));
        assert(!terminates(ts, j));
    }
    assert(ts =~= g + (seq![Token::Symbol(';')] + ts.skip(k + 1)));
}

/// Comments play no part in the statements.
proof fn statements_of_bare(ts: Seq<Token>)
    ensures
        segment_texts(segments(ts)) == segment_texts(segments(bare(ts))),
    decreases ts.len(),
{
    let k = next_terminator(ts, 0);
    next_terminator_is_first(ts, 0);
    if k < ts.len() {
        let g = ts.take(k);
        let rest = ts.skip(k + 1);
        let semi = seq![Token::Symbol(';')];
        first_segment(ts);
        statements_of_bare(rest);
        bare_of_two(g, semi + rest);
        bare_of_two(semi, rest);
        bare_of_one(Token::Symbol(';'));
        bare_keeps_text_and_depth(g);
        segments_of_two(bare(g), bare(rest));
        segments_of_unterminated(bare(g));
        texts_of_two(seq![g], segments(rest));
        texts_of_two(seq![bare(g)], segments(bare(rest)));
        texts_of_one(g);
        texts_of_one(bare(g));
    } else {
        assert(never_terminates(ts));
        bare_keeps_text_and_depth(ts);
        segments_of_unterminated(ts);
        segments_of_unterminated(bare(ts));
        texts_of_one(ts);
        texts_of_one(bare(ts));
    }
}

/// Whether `/*` stands nowhere in a text.
pub open spec fn opens_no_block(s: Seq<char>) -> bool {
    forall|i: int| 0 <= i < s.len() - 1 ==> !(#[trigger] s[i] == '/' && s[i + 1] == '*')
}

proof fn opens_no_block_later(s: Seq<char>, n: int)
    requires
        opens_no_block(s),
        0 <= n <= s.len(),
    ensures
        opens_no_block(s.skip(n)),
{
    let t = s.skip(n);
    assert forall|i: int| 0 <= i < t.len() - 1 implies !(#[trigger] t[i] == '/' && t[i + 1]
        == '*') by {
        assert(!(s[n + i] == '/' && s[n + i + 1] == '*'));
    }
}

proof fn line_break_ends_line(s: Seq<char>)
    ensures
        0 <= line_len(s) <= s.len(),
        line_len(s) < s.len() ==> s[line_len(s)] == '\n',
    decreases s.len(),
{
    if s.len() > 0 && s[0] != '\n' {
        line_break_ends_line(s.skip(1));
    }
}

/// The first token of a text, and the rest of them.
proof fn tokens_in_two(s: Seq<char>)
    requires
        s.len() > 0,
    ensures
        0 < token_len(s) <= s.len(),
        tokens(s) == seq![first_token(s)] + tokens(s.skip(token_len(s))),
        first_token(s) matches Token::Symbol(c) ==> c == s[0] && !is_quote(c) && token_len(s) == 1,
{
    token_len_bounds(s);
}

/// The first token that is no comment.
proof fn first_bare(s: Seq<char>)
    requires
        opens_no_block(s),
        bare(tokens(s)).len() > 0,
    ensures
        s.len() > 0,
        ({
            let t = bare(tokens(s))[0];
            t is Literal || t == Token::Symbol('\n') || t == Token::Symbol(s[0])
        }),
{
    if s.len() > 0 {
        let t = first_token(s);
        let rest = s.skip(token_len(s));
        tokens_in_two(s);
        bare_of_two(seq![t], tokens(rest));
        bare_of_one(t);
        if t is Comment {
            let i: int = 0;
            assert(!(s[i] == '/' && s[i + 1] == '*'));
            line_break_ends_line(s);
            assert(bare(tokens(s)) =~= bare(tokens(rest)));
            if rest.len() > 0 {
                assert(rest[0] == '\n');
                tokens_in_two(rest);
                bare_of_two(seq![first_token(rest)], tokens(rest.skip(token_len(rest))));
                bare_of_one(first_token(rest));
            }
        }
    }
}

/// The first token of a text, if it is a string literal.
proof fn first_literal(s: Seq<char>)
    requires
        s.len() > 0,
        is_quote(s[0]),
    ensures
        is_literal(s.take(token_len(s))),
        token_len(s) < s.len() ==> is_closed_literal(s.take(token_len(s))),
{
    let q = s[0];
    let x = s.skip(1);
    let n = token_len(s);
    token_len_bounds(s);
    assert(s.take(n).skip(1) =~= x.take(n - 1));
    if literal_closed(x, q) {
        closed_ends_with_quote(x, q);
    } else {
        unclosed_takes_all(x, q);
        assert(x.take(n - 1) =~= x);
    }
}

/// Without block comments, the text of the statements reads as it did.
proof fn bare_is_stable(s: Seq<char>)
    requires
        opens_no_block(s),
    ensures
        stable(bare(tokens(s))),
    decreases s.len(),
{
    if s.len() > 0 {
        let t = first_token(s);
        let n = token_len(s);
        let rest = s.skip(n);
        tokens_in_two(s);
        opens_no_block_later(s, n);
        bare_is_stable(rest);
        bare_of_two(seq![t], tokens(rest));
        bare_of_one(t);
        let tail = bare(tokens(rest));
        let all = bare(tokens(s));
        if t is Comment {
            assert(all =~= tail);
        } else {
            if tail.len() > 0 {
                first_bare(rest);
            }
            if is_quote(s[0]) {
                first_literal(s);
            } else if s.len() > 1 {
                let i: int = 0;
                assert(!(s[i] == '/' && s[i + 1] == '*'));
                assert(rest[0] == s[1]);
            }
            assert forall|i: int| 0 <= i < all.len() implies #[trigger] stable_at(all, i) by {
                if i > 0 {
                    assert(stable_at(tail, i - 1));
                }
            }
        }
    }
}

proof fn stable_part(ts: Seq<Token>, from: int, to: int)
    requires
        stable(ts),
        0 <= from <= to <= ts.len(),
    ensures
        stable(ts.subrange(from, to)),
        to < ts.len() ==> all_closed(ts.subrange(from, to)),
{
    let part = ts.subrange(from, to);
    assert forall|i: int| 0 <= i < part.len() implies #[trigger] stable_at(part, i) by {
        assert(stable_at(ts, from + i));
    }
    if to < ts.len() {
        assert forall|i: int| 0 <= i < part.len() implies (
        #[trigger] part[i] matches Token::Literal(t) ==> is_closed_literal(t)) by {
            assert(stable_at(ts, from + i));
        }
    }
}

/// The tokens of a trimmed text.
proof fn trim_tokens(g: Seq<Token>) -> (h: Seq<Token>)
    requires
        stable(g),
        never_terminates(g),
    ensures
        stable(h),
        never_terminates(h),
        render(h) == trim(render(g)),
        brace_depth(h) == brace_depth(g),
        all_closed(g) ==> all_closed(h),
    decreases render(g).len(),
{
    let s = render(g);
    let p = |c: char| white_space(c);
    if g.len() == 0 {
        g
    } else {
        first_of_render(g);
        assert(stable_at(g, 0));
        assert(stable_at(g, g.len() - 1));
        let init = g.drop_last();
        assert(s == render(init) + token_text(g.last()));
        assert(token_text(g.last()).len() > 0);
        assert(s.last() == token_text(g.last()).last());
        if white_space(s[0]) {
            let tail = g.drop_first();
            let blank = seq![g[0]];
            assert(s.drop_first() =~= render(tail));
            stable_tail(g);
            assert(g =~= blank + tail);
            depth_of_two(blank, tail);
            assert(brace_depth(blank) == 0) by {
                assert(brace_depth(blank.drop_last()) == 0);
            }
            assert forall|j: int| 0 <= j < tail.len() implies !#[trigger] terminates(tail, j) by {
                assert(!terminates(g, j + 1));
                assert(g.take(j + 1) =~= blank + tail.take(j));
                depth_of_two(blank, tail.take(j));
            }
            if all_closed(g) {
                assert forall|i: int| 0 <= i < tail.len() implies (
                #[trigger] tail[i] matches Token::Literal(x) ==> is_closed_literal(x)) by {
                    assert(g[i + 1] == tail[i]);
                }
            }
            trim_tokens(tail)
        } else if white_space(s.last()) {
            assert forall|j: int| 0 <= j < init.len() implies !#[trigger] terminates(init, j) by {
                assert(!terminates(g, j));
                assert(g.take(j) =~= init.take(j));
            }
            match g.last() {
                Token::Symbol(c) => {
                    assert(s.drop_last() =~= render(init));
                    assert(init =~= g.subrange(0, g.len() - 1));
                    stable_part(g, 0, g.len() - 1);
                    trim_tokens(init)
                },
                Token::Literal(t) => {
                    let q = t[0];
                    let x = t.skip(1);
                    if literal_closed(x, q) {
                        closed_ends_with_quote(x, q);
                        assert(t.last() == q);
                        assert(false);
                    }
                    assert(t.len() > 1);
                    let u = t.drop_last();
                    let y = u.skip(1);
                    assert(x =~= y + seq![t.last()]);
                    if literal_closed(y, q) {
                        literal_closed_extends(y, seq![t.last()], q);
                    }
                    unclosed_takes_all(y, q);
                    let cut = init.push(Token::Literal(u));
                    assert(cut.drop_last() =~= init);
                    assert(render(cut) =~= s.drop_last());
                    assert forall|i: int| 0 <= i < cut.len() implies #[trigger] stable_at(
                        cut,
                        i,
                    ) by {
                        assert(stable_at(g, i));
                    }
                    assert forall|j: int| 0 <= j < cut.len() implies !#[trigger] terminates(
                        cut,
                        j,
                    ) by {
                        if j < init.len() {
                            assert(cut.take(j) =~= init.take(j));
                            assert(!terminates(init, j));
                        }
                    }
                    assert(g[g.len() - 1] == g.last());
                    assert(!all_closed(g));
                    trim_tokens(cut)
                },
                Token::Comment => g,
            }
        } else {
            assert(strip(s, p) == s);
            g
        }
    }
}

/// A stretch of tokens without a terminating semicolon is one statement, and reads as
/// itself.
proof fn one_statement(g: Seq<Token>)
    requires
        stable(g),
        never_terminates(g),
        trim(render(g)).len() > 0,
    ensures
        ({
            let x = trim(render(g));
            &&& statements(x) == seq![x]
            &&& all_closed(g) ==> closed(x) && brace_depth(tokens(x)) == brace_depth(g)
        }),
{
    let x = trim(render(g));
    let h = trim_tokens(g);
    tokens_of_stable(h);
    segments_of_unterminated(h);
    texts_of_one(h);
    trim_is_idempotent(render(g));
}

/// Statements with semicolons between them.
pub open spec fn joined(stmts: Seq<Seq<char>>) -> Seq<char>
    decreases stmts.len(),
{
    if stmts.len() == 0 {
        Seq::empty()
    } else if stmts.len() == 1 {
        stmts[0]
    } else {
        stmts[0] + seq![';'] + joined(stmts.drop_first())
    }
}

proof fn stable_statements_rejoin(u: Seq<Token>)
    requires
        stable(u),
    ensures
        ({
            let xs = segment_texts(segments(u));
            &&& statements(joined(xs)) == xs
            &&& forall|i: int| 0 <= i < xs.len() ==> statements(#[trigger] xs[i]) == seq![xs[i]]
        }),
    decreases u.len(),
{
    let xs = segment_texts(segments(u));
    let k = next_terminator(u, 0);
    next_terminator_is_first(u, 0);
    if k < u.len() {
        let g = u.take(k);
        let rest = u.skip(k + 1);
        first_segment(u);
        assert(g =~= u.subrange(0, k));
        assert(rest =~= u.subrange(k + 1, u.len() as int));
        stable_part(u, 0, k);
        stable_part(u, k + 1, u.len() as int);
        stable_statements_rejoin(rest);
        let ys = segment_texts(segments(rest));
        texts_of_two(seq![g], segments(rest));
        texts_of_one(g);
        let x = trim(render(g));
        if x.len() == 0 {
            assert(xs =~= ys);
        } else {
            one_statement(g);
            assert(xs == seq![x] + ys);
            if ys.len() == 0 {
                assert(xs =~= seq![x]);
            } else {
                assert(xs.drop_first() =~= ys);
                a_semicolon_ends_a_statement(x, joined(ys));
            }
            assert forall|i: int| 0 <= i < xs.len() implies statements(#[trigger] xs[i])
                == seq![xs[i]] by {
                if i > 0 {
                    assert(xs[i] == ys[i - 1]);
                }
            }
        }
    } else {
        assert(never_terminates(u));
        segments_of_unterminated(u);
        texts_of_one(u);
        if trim(render(u)).len() > 0 {
            one_statement(u);
        } else {
            assert(tokens(Seq::empty()) =~= Seq::empty());
            segments_of_unterminated(Seq::empty());
            texts_of_one(Seq::empty());
        }
    }
}

/// The statements of a text without block comments, put together again with semicolons
/// between them, are split into the same statements. Each of them is one statement.
pub proof fn statements_rejoin(s: Seq<char>)
    requires
        opens_no_block(s),
    ensures
        statements(joined(statements(s))) == statements(s),
        forall|i: int|
            0 <= i < statements(s).len() ==> statements(#[trigger] statements(s)[i])
                == seq![statements(s)[i]],
{
    bare_is_stable(s);
    statements_of_bare(tokens(s));
    stable_statements_rejoin(bare(tokens(s)));
}

/// A comment behind a simple text is left out of the statements, and nothing else is: they
/// are those of the text without it.
pub proof fn comments_are_left_out_of_statements(
    s: Seq<char>,
    text: Seq<char>,
    more: Seq<char>,
)
    requires
        is_simple(s),
    ensures
        ends_no_block(text) ==> statements(s + (seq!['/', '*'] + text + seq!['*', '/']) + more)
            == statements(s + more),
        !text.contains('\n') ==> statements(
            s + (seq!['-', '-'] + text) + (seq!['\n'] + more),
        ) == statements(s + (seq!['\n'] + more)),
{
    if ends_no_block(text) {
        let comment = seq!['/', '*'] + text + seq!['*', '/'];
        assert(s + comment + more =~= s + (comment + more));
        a_block_comment_is_one_token(text, more);
        comment_between(s, comment + more, more);
    }
    if !text.contains('\n') {
        let comment = seq!['-', '-'] + text;
        let rest = seq!['\n'] + more;
        assert(s + comment + rest =~= s + (comment + seq!['\n'] + more));
        a_line_comment_is_one_token(text, more);
        comment_between(s, comment + seq!['\n'] + more, rest);
    }
}

proof fn comment_between(s: Seq<char>, with: Seq<char>, more: Seq<char>)
    requires
        is_simple(s),
        tokens(with) == seq![Token::Comment] + tokens(more),
    ensures
        statements(s + with) == statements(s + more),
{
    let ts = as_tokens(s);
    simple_text_is_read_by_characters(s, with);
    simple_text_is_read_by_characters(s, more);
    statements_of_bare(tokens(s + with));
    statements_of_bare(tokens(s + more));
    bare_of_two(ts, tokens(with));
    bare_of_two(seq![Token::Comment], tokens(more));
    bare_of_one(Token::Comment);
    bare_of_two(ts, tokens(more));
    assert(Seq::empty() + bare(tokens(more)) =~= bare(tokens(more)));
}

/// Whether token `i` is a comment or reads as itself, given what follows it.
spec fn loose_at(ts: Seq<Token>, i: int) -> bool {
    ts[i] is Comment || stable_at(ts, i)
}

/// The tokens of a text read as themselves, but for the comments.
proof fn tokens_are_loose(s: Seq<char>)
    ensures
        forall|i: int| 0 <= i < tokens(s).len() ==> #[trigger] loose_at(tokens(s), i),
    decreases s.len(),
{
    if s.len() > 0 {
        let t = first_token(s);
        let n = token_len(s);
        let rest = s.skip(n);
        let all = tokens(s);
        let tail = tokens(rest);
        tokens_in_two(s);
        tokens_are_loose(rest);
        if is_quote(s[0]) {
            first_literal(s);
        }
        if rest.len() > 0 {
            tokens_in_two(rest);
            assert(rest[0] == s[n]);
        }
        assert forall|i: int| 0 <= i < all.len() implies #[trigger] loose_at(all, i) by {
            if i > 0 {
                assert(loose_at(tail, i - 1));
            }
        }
    }
}

/// Whether each blank is a single space, with no other beside it.
spec fn blanks_apart(ts: Seq<Token>) -> bool {
    forall|i: int|
        0 <= i < ts.len() && is_blank(#[trigger] ts[i]) ==> ts[i] == Token::Symbol(' ') && (i > 0
            ==> !is_blank(ts[i - 1]))
}

proof fn spaced_is_stable(ts: Seq<Token>)
    requires
        forall|i: int| 0 <= i < ts.len() ==> #[trigger] loose_at(ts, i),
    ensures
        stable(single_spaced(ts)),
        blanks_apart(single_spaced(ts)),
        ts.len() > 0 ==> single_spaced(ts).len() > 0 && single_spaced(ts).last() == if is_blank(
            ts.last(),
        ) {
            Token::Symbol(' ')
        } else {
            ts.last()
        },
        ts.len() == 0 ==> single_spaced(ts).len() == 0,
    decreases ts.len(),
{
    if ts.len() > 0 {
        let n = ts.len() as int;
        let init = ts.drop_last();
        let front = single_spaced(init);
        let all = single_spaced(ts);
        assert forall|i: int| 0 <= i < init.len() implies #[trigger] loose_at(init, i) by {
            assert(loose_at(ts, i));
        }
        spaced_is_stable(init);
        assert(loose_at(ts, n - 1));
        if n >= 2 {
            assert(loose_at(ts, n - 2));
            assert(init.last() == ts[n - 2]);
        }
        if all != front {
            assert forall|i: int| 0 <= i < all.len() implies #[trigger] stable_at(all, i) by {
                if i < front.len() {
                    assert(stable_at(front, i));
                    if i == front.len() - 1 {
                        assert(front[i] == front.last());
                    }
                }
            }
            assert forall|i: int| 0 <= i < all.len() && is_blank(#[trigger] all[i]) implies all[i]
                == Token::Symbol(' ') && (i > 0 ==> !is_blank(all[i - 1])) by {
                if i < front.len() {
                    assert(all[i] == front[i]);
                } else if i > 0 {
                    assert(all[i - 1] == front.last());
                }
            }
        }
    }
}

proof fn spaced_stays(ts: Seq<Token>)
    requires
        blanks_apart(ts),
    ensures
        single_spaced(ts) == ts,
    decreases ts.len(),
{
    if ts.len() > 0 {
        let init = ts.drop_last();
        assert forall|i: int| 0 <= i < init.len() && is_blank(#[trigger] init[i]) implies init[i]
            == Token::Symbol(' ') && (i > 0 ==> !is_blank(init[i - 1])) by {
            assert(init[i] == ts[i]);
        }
        spaced_stays(init);
        assert(ts[ts.len() - 1] == ts.last());
        assert(init.push(ts.last()) =~= ts);
    } else {
        assert(single_spaced(ts) =~= ts);
    }
}

/// A normalized text has the tokens of the text, with a space in the place of each run of
/// comments and white space. To normalize it once more changes nothing.
pub proof fn normalizing_keeps_the_tokens(s: Seq<char>)
    ensures
        tokens(normalized(s)) == single_spaced(tokens(s)),
        normalized(normalized(s)) == normalized(s),
{
    let ts = tokens(s);
    tokens_are_loose(s);
    spaced_is_stable(ts);
    tokens_of_stable(single_spaced(ts));
    spaced_stays(single_spaced(ts));
}

proof fn no_quoted_names(ts: Seq<Token>)
    requires
        forall|i: int| 0 <= i < ts.len() ==> #[trigger] ts[i] != Token::Symbol('`'),
    ensures
        with_quoted_names(ts) == ts,
    decreases ts.len(),
{
    if ts.len() > 0 {
        let tail = ts.drop_first();
        assert(ts[0] != Token::Symbol('`'));
        assert forall|i: int| 0 <= i < tail.len() implies #[trigger] tail[i]
            != Token::Symbol('`') by {
            assert(tail[i] == ts[i + 1]);
        }
        no_quoted_names(tail);
        assert(seq![ts[0]] + tail =~= ts);
    } else {
        assert(with_quoted_names(ts) =~= ts);
    }
}

proof fn symbols_stand_in_text(s: Seq<char>)
    requires
        !s.contains('`'),
    ensures
        forall|i: int| 0 <= i < tokens(s).len() ==> #[trigger] tokens(s)[i] != Token::Symbol('`'),
    decreases s.len(),
{
    if s.len() > 0 {
        let n = token_len(s);
        let rest = s.skip(n);
        tokens_in_two(s);
        assert(s.contains(s[0]));
        assert(!rest.contains('`')) by {
            if rest.contains('`') {
                assert(s[n + rest.index_of('`')] == '`');
            }
        }
        symbols_stand_in_text(rest);
        assert forall|i: int| 0 <= i < tokens(s).len() implies #[trigger] tokens(s)[i]
            != Token::Symbol('`') by {
            if i > 0 {
                assert(tokens(s)[i] == tokens(rest)[i - 1]);
            }
        }
    }
}

/// The words do not change when the blanks are put in order.
proof fn words_of_spaced(ts: Seq<Token>)
    ensures
        words_of(single_spaced(ts)) == words_of(ts),
        ts.len() > 0 ==> single_spaced(ts).len() > 0 && single_spaced(ts).last() == if is_blank(
            ts.last(),
        ) {
            Token::Symbol(' ')
        } else {
            ts.last()
        },
        ts.len() == 0 ==> single_spaced(ts).len() == 0,
        forall|i: int|
            0 <= i < single_spaced(ts).len() ==> #[trigger] single_spaced(ts)[i] == Token::Symbol(
                ' ',
            ) || ts.contains(single_spaced(ts)[i]),
    decreases ts.len(),
{
    if ts.len() > 0 {
        let init = ts.drop_last();
        let front = single_spaced(init);
        let all = single_spaced(ts);
        words_of_spaced(init);
        if ts.len() >= 2 {
            assert(init.last() == ts[ts.len() - 2]);
        }
        if all.len() > front.len() {
            assert(all.drop_last() =~= front);
            if front.len() > 0 {
                assert(all[all.len() - 2] == front.last());
            }
        }
        assert forall|i: int| 0 <= i < all.len() implies #[trigger] all[i] == Token::Symbol(' ')
            || ts.contains(all[i]) by {
            if i < front.len() {
                assert(all[i] == front[i]);
                if init.contains(front[i]) {
                    assert(ts[init.index_of(front[i])] == front[i]);
                }
            } else {
                assert(ts[ts.len() - 1] == ts.last());
            }
        }
    }
}

/// Without names in backquotes, a normalized text has the same words of code.
pub proof fn normalizing_keeps_the_words(s: Seq<char>)
    requires
        !s.contains('`'),
    ensures
        code_words(normalized(s)) == code_words(s),
{
    let ts = tokens(s);
    normalizing_keeps_the_tokens(s);
    symbols_stand_in_text(s);
    words_of_spaced(ts);
    no_quoted_names(ts);
    assert forall|i: int| 0 <= i < single_spaced(ts).len() implies #[trigger] single_spaced(ts)[i]
        != Token::Symbol('`') by {
        if ts.contains(single_spaced(ts)[i]) {
            assert(ts[ts.index_of(single_spaced(ts)[i])] == single_spaced(ts)[i]);
        }
    }
    no_quoted_names(single_spaced(ts));
}

} // verus!
