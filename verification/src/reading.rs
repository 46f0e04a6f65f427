//! What the tokens, the statements and the last statement of a SurrealQL text are, told by
//! the places in the text where they stand.

use vstd::prelude::*;

use crate::splitting::{
    a_semicolon_ends_a_statement, a_string_literal_is_one_token, closed, closing_quote,
    depth_of_two, end_of_block, end_of_line, ends_no_block, literal_closed,
    next_terminator_is_first, quotable, render_of_two, segments_of_two, texts_of_two,
};
use crate::surql::{
    block_rest, brace_depth, first_token, is_quote, line_len, literal_rest, next_terminator,
    opens_with, render, segment_texts, segments, statements, terminates, token_len,
    token_len_bounds, token_text, tokens, unterminated, Token,
};
use crate::text::trim;
use crate::text_laws::{is_trimmed_part, trimming_takes_only_white_space};

verus! {

/// Whether a piece of a text, with `rest` behind it, is a line comment.
pub open spec fn is_line_comment(piece: Seq<char>, rest: Seq<char>) -> bool {
    &&& piece.len() >= 2 && piece[0] == '-' && piece[1] == '-'
    &&& !piece.contains('\n')
    &&& rest.len() == 0 || rest[0] == '\n'
}

/// Whether a piece of a text, with `rest` behind it, is a block comment: it ends with the
/// first `*/`, or with the text.
pub open spec fn is_block_comment(piece: Seq<char>, rest: Seq<char>) -> bool {
    let text = piece.skip(2);
    let n = text.len();
    &&& piece.len() >= 2 && piece[0] == '/' && piece[1] == '*'
    &&& {
        ||| n >= 2 && text[n - 2] == '*' && text[n - 1] == '/' && ends_no_block(text.drop_last())
        ||| rest.len() == 0 && ends_no_block(text)
    }
}

/// Whether a piece of a text, with `rest` behind it, is a string literal: it ends with the
/// first quote like the opening one that no backslash escapes, or with the text.
pub open spec fn is_string(piece: Seq<char>, rest: Seq<char>) -> bool {
    let q = piece[0];
    let text = piece.skip(1);
    &&& piece.len() > 0 && (q == '"' || q == '\'')
    &&& {
        ||| text.len() > 0 && text.last() == q && quotable(text.drop_last(), q)
        ||| rest.len() == 0 && quotable(text, q)
        ||| rest.len() == 0 && text.len() > 0 && text.last() == '\\' && quotable(
            text.drop_last(),
            q,
        )
    }
}

/// Whether a piece of a text, with `rest` behind it, reads as the given token.
pub open spec fn reads(t: Token, piece: Seq<char>, rest: Seq<char>) -> bool {
    match t {
        Token::Comment => is_line_comment(piece, rest) || is_block_comment(piece, rest),
        Token::Literal(text) => piece == text && is_string(piece, rest),
        Token::Symbol(c) => {
            &&& piece == seq![c]
            &&& c != '"' && c != '\''
            &&& !(c == '-' && rest.len() > 0 && rest[0] == '-')
            &&& !(c == '/' && rest.len() > 0 && rest[0] == '*')
        },
    }
}

/// Whether the piece of a text between the cuts `i` and `i + 1` reads as token `i`.
pub open spec fn reads_at(s: Seq<char>, ts: Seq<Token>, cuts: Seq<int>, i: int) -> bool {
    &&& 0 <= cuts[i] <= cuts[i + 1] <= s.len()
    &&& reads(ts[i], s.subrange(cuts[i], cuts[i + 1]), s.skip(cuts[i + 1]))
}

/// Whether a text, cut at the given places, reads as the given tokens, from the place
/// `cuts[0]` on.
pub open spec fn is_reading(s: Seq<char>, ts: Seq<Token>, cuts: Seq<int>) -> bool {
    &&& cuts.len() == ts.len() + 1
    &&& cuts.last() == s.len()
    &&& forall|i: int| 0 <= i < ts.len() ==> #[trigger] reads_at(s, ts, cuts, i)
}

proof fn whole_line(s: Seq<char>)
    requires
        !s.contains('\n'),
    ensures
        line_len(s) == s.len(),
    decreases s.len(),
{
    if s.len() > 0 {
        let tail = s.skip(1);
        assert(s.contains(s[0]));
        assert(!tail.contains('\n')) by {
            if tail.contains('\n') {
                assert(s[tail.index_of('\n') + 1] == '\n');
            }
        }
        whole_line(tail);
    }
}

proof fn whole_block(s: Seq<char>)
    requires
        ends_no_block(s),
    ensures
        block_rest(s) == s.len(),
    decreases s.len(),
{
    if s.len() > 0 {
        let tail = s.skip(1);
        assert forall|i: int| 0 <= i < tail.len() - 1 implies !(#[trigger] tail[i] == '*' && tail[i
            + 1] == '/') by {
            assert(!(s[i + 1] == '*' && s[i + 2] == '/'));
        }
        whole_block(tail);
        if s.len() > 1 {
            let i: int = 0;
            assert(!(s[i] == '*' && s[i + 1] == '/'));
        }
    }
}

proof fn whole_literal(s: Seq<char>, q: char)
    requires
        q == '"' || q == '\'',
        quotable(s, q) || (s.len() > 0 && s.last() == '\\' && quotable(s.drop_last(), q)),
    ensures
        literal_rest(s, q) == s.len(),
    decreases s.len(),
{
    if s.len() > 0 {
        if s[0] == '\\' {
            if s.len() >= 2 {
                if !quotable(s, q) {
                    assert(s.drop_last().skip(2) =~= s.skip(2).drop_last());
                    if s.len() == 2 {
                        assert(!quotable(s.drop_last(), q));
                    }
                }
                whole_literal(s.skip(2), q);
            }
        } else {
            if !quotable(s, q) {
                assert(s.len() > 1);
                assert(s.drop_last().skip(1) =~= s.skip(1).drop_last());
            }
            whole_literal(s.skip(1), q);
        }
    }
}

/// A piece that reads as a token is the first token of the text that it begins.
proof fn first_piece(s: Seq<char>, n: int, t: Token)
    requires
        0 <= n <= s.len(),
        reads(t, s.take(n), s.skip(n)),
    ensures
        n > 0,
        token_len(s) == n,
        first_token(s) == t,
{
    let piece = s.take(n);
    let rest = s.skip(n);
    assert(s =~= piece + rest);
    match t {
        Token::Comment => {
            assert(s[0] == piece[0] && s[1] == piece[1]);
            if is_line_comment(piece, rest) {
                if rest.len() == 0 {
                    assert(piece =~= s);
                    whole_line(s);
                } else {
                    end_of_line(piece, rest);
                }
            } else {
                let text = piece.skip(2);
                let k = text.len() as int;
                if k >= 2 && text[k - 2] == '*' && text[k - 1] == '/' && ends_no_block(
                    text.drop_last(),
                ) {
                    let body = text.take(k - 2);
                    assert forall|i: int| 0 <= i < body.len() - 1 implies !(#[trigger] body[i]
                        == '*' && body[i + 1] == '/') by {
                        let init = text.drop_last();
                        assert(!(init[i] == '*' && init[i + 1] == '/'));
                    }
                    assert(s.skip(2) =~= body + seq!['*', '/'] + rest);
                    end_of_block(body, rest);
                } else {
                    assert(s.skip(2) =~= text);
                    whole_block(text);
                }
            }
        },
        Token::Literal(_) => {
            let q = piece[0];
            let text = piece.skip(1);
            assert(s[0] == q);
            if text.len() > 0 && text.last() == q && quotable(text.drop_last(), q) {
                assert(s.skip(1) =~= text.drop_last() + seq![q] + rest);
                closing_quote(q, text.drop_last(), rest);
            } else {
                assert(s.skip(1) =~= text);
                whole_literal(text, q);
            }
        },
        Token::Symbol(c) => {
            assert(piece.len() == 1);
            assert(s[0] == piece[0]);
            if s.len() > 1 {
                assert(s[1] == rest[0]);
            }
        },
    }
}

proof fn tokens_from(s: Seq<char>, ts: Seq<Token>, cuts: Seq<int>, k: int)
    requires
        is_reading(s, ts, cuts),
        0 <= k <= ts.len(),
    ensures
        tokens(s.skip(cuts[k])) == ts.skip(k),
    decreases ts.len() - k,
{
    let here = s.skip(cuts[k]);
    if k < ts.len() {
        let n = cuts[k + 1] - cuts[k];
        tokens_from(s, ts, cuts, k + 1);
        assert(reads_at(s, ts, cuts, k));
        assert(here.take(n) =~= s.subrange(cuts[k], cuts[k + 1]));
        assert(here.skip(n) =~= s.skip(cuts[k + 1]));
        first_piece(here, n, ts[k]);
        assert(seq![ts[k]] + ts.skip(k + 1) =~= ts.skip(k));
    } else {
        assert(tokens(here) =~= ts.skip(k));
    }
}

/// A text that is made of pieces which read as tokens has these tokens and no others.
pub proof fn pieces_are_the_tokens(s: Seq<char>, ts: Seq<Token>, cuts: Seq<int>)
    requires
        is_reading(s, ts, cuts),
        cuts[0] == 0,
    ensures
        tokens(s) == ts,
{
    tokens_from(s, ts, cuts, 0);
    assert(s.skip(0) =~= s);
    assert(ts.skip(0) =~= ts);
}

proof fn literal_in_two(s: Seq<char>, q: char)
    requires
        q == '"' || q == '\'',
    ensures
        ({
            let n = literal_rest(s, q);
            let text = s.take(n);
            &&& 0 <= n <= s.len()
            &&& literal_closed(s, q) ==> n > 0 && text.last() == q && quotable(text.drop_last(), q)
            &&& !literal_closed(s, q) ==> n == s.len() && (quotable(s, q) || (s.len() > 0
                && s.last() == '\\' && quotable(s.drop_last(), q)))
        }),
    decreases s.len(),
{
    let n = literal_rest(s, q);
    let text = s.take(n);
    if s.len() > 0 {
        if s[0] == '\\' {
            if s.len() >= 2 {
                let tail = s.skip(2);
                literal_in_two(tail, q);
                if literal_closed(s, q) {
                    assert(text.drop_last().skip(2) =~= tail.take(n - 2).drop_last());
                    assert(text.last() == tail.take(n - 2).last());
                } else if !quotable(s, q) {
                    assert(s.drop_last().skip(2) =~= tail.drop_last());
                }
            } else {
                assert(s.drop_last() =~= Seq::empty());
            }
        } else if s[0] == q {
            assert(text.drop_last() =~= Seq::empty());
        } else {
            let tail = s.skip(1);
            literal_in_two(tail, q);
            if literal_closed(s, q) {
                assert(text.drop_last().skip(1) =~= tail.take(n - 1).drop_last());
                assert(text.last() == tail.take(n - 1).last());
                assert(text.drop_last()[0] == s[0]);
            } else if !quotable(s, q) {
                assert(s.drop_last().skip(1) =~= tail.drop_last());
                assert(s.drop_last()[0] == s[0]);
            }
        }
    }
}

proof fn line_in_two(s: Seq<char>)
    ensures
        0 <= line_len(s) <= s.len(),
        !s.take(line_len(s)).contains('\n'),
        line_len(s) < s.len() ==> s[line_len(s)] == '\n',
    decreases s.len(),
{
    if s.len() > 0 && s[0] != '\n' {
        let tail = s.skip(1);
        line_in_two(tail);
        let line = s.take(line_len(s));
        if line.contains('\n') {
            let i = line.index_of('\n');
            assert(tail.take(line_len(tail))[i - 1] == '\n');
        }
    }
}

proof fn block_in_two(s: Seq<char>)
    ensures
        ({
            let n = block_rest(s);
            let text = s.take(n);
            &&& 0 <= n <= s.len()
            &&& {
                ||| n >= 2 && text[n - 2] == '*' && text[n - 1] == '/' && ends_no_block(
                    text.drop_last(),
                )
                ||| n == s.len() && ends_no_block(s)
            }
        }),
    decreases s.len(),
{
    let n = block_rest(s);
    let text = s.take(n);
    if s.len() > 0 && !opens_with(s, '*', '/') {
        let tail = s.skip(1);
        let part = tail.take(n - 1);
        block_in_two(tail);
        if n == s.len() && ends_no_block(tail) {
            assert forall|i: int| 0 <= i < s.len() - 1 implies !(#[trigger] s[i] == '*' && s[i + 1]
                == '/') by {
                if i > 0 {
                    assert(!(tail[i - 1] == '*' && tail[i] == '/'));
                }
            }
        } else {
            let init = text.drop_last();
            assert(text[n - 2] == part[n - 3] && text[n - 1] == part[n - 2]);
            assert forall|i: int| 0 <= i < init.len() - 1 implies !(#[trigger] init[i] == '*'
                && init[i + 1] == '/') by {
                if i > 0 {
                    let before = part.drop_last();
                    assert(!(before[i - 1] == '*' && before[i] == '/'));
                }
            }
        }
    }
}

/// The first token of a text is read from a piece of it.
proof fn first_token_reads(s: Seq<char>)
    requires
        s.len() > 0,
    ensures
        reads(first_token(s), s.take(token_len(s)), s.skip(token_len(s))),
{
    let n = token_len(s);
    let piece = s.take(n);
    let rest = s.skip(n);
    token_len_bounds(s);
    if is_quote(s[0]) {
        let q = s[0];
        literal_in_two(s.skip(1), q);
        assert(piece.skip(1) =~= s.skip(1).take(n - 1));
        if !literal_closed(s.skip(1), q) {
            assert(piece.skip(1) =~= s.skip(1));
        }
    } else if opens_with(s, '-', '-') {
        line_in_two(s);
        assert(s.skip(1)[0] == '-');
        assert(n >= 2) by {
            assert(line_len(s.skip(1)) >= 1) by {
                line_in_two(s.skip(1).skip(1));
            }
        }
    } else if opens_with(s, '/', '*') {
        block_in_two(s.skip(2));
        assert(piece.skip(2) =~= s.skip(2).take(n - 2));
        if n == s.len() {
            assert(piece.skip(2) =~= s.skip(2));
        }
    } else {
        assert(piece =~= seq![s[0]]);
        if s.len() > 1 {
            assert(rest[0] == s[1]);
        }
    }
}

proof fn cuts_from(s: Seq<char>, k: int) -> (cuts: Seq<int>)
    requires
        0 <= k <= s.len(),
    ensures
        is_reading(s, tokens(s.skip(k)), cuts),
        cuts[0] == k,
    decreases s.len() - k,
{
    let here = s.skip(k);
    let ts = tokens(here);
    if k == s.len() {
        assert(ts =~= Seq::empty());
        seq![k]
    } else {
        let n = token_len(here);
        token_len_bounds(here);
        first_token_reads(here);
        assert(here.skip(n) =~= s.skip(k + n));
        assert(here.take(n) =~= s.subrange(k, k + n));
        let later = cuts_from(s, k + n);
        let more = tokens(s.skip(k + n));
        let cuts = seq![k] + later;
        assert(ts == seq![first_token(here)] + more);
        assert(cuts.last() == later.last());
        assert forall|i: int| 0 <= i < ts.len() implies #[trigger] reads_at(s, ts, cuts, i) by {
            if i > 0 {
                assert(reads_at(s, more, later, i - 1));
                assert(ts[i] == more[i - 1]);
            } else {
                assert(ts[0] == first_token(here));
            }
        }
        cuts
    }
}

/// Every text is made of pieces which read as its tokens.
pub proof fn every_text_has_a_reading(s: Seq<char>)
    ensures
        exists|cuts: Seq<int>| #[trigger] is_reading(s, tokens(s), cuts) && cuts[0] == 0,
{
    let cuts = cuts_from(s, 0);
    assert(s.skip(0) =~= s);
    assert(is_reading(s, tokens(s), cuts));
}

/// What is left of a stretch of tokens is the piece of the text where they stand, if no
/// comment is among them; a comment leaves nothing behind.
pub proof fn a_stretch_without_comments_is_kept(s: Seq<char>, cuts: Seq<int>, i: int, j: int)
    requires
        is_reading(s, tokens(s), cuts),
        0 <= i <= j <= tokens(s).len(),
        forall|k: int| i <= k < j ==> !(#[trigger] tokens(s)[k] is Comment),
    ensures
        render(tokens(s).subrange(i, j)) == s.subrange(cuts[i], cuts[j]),
        i < tokens(s).len() && tokens(s)[i] is Comment ==> render(tokens(s).subrange(i, i + 1))
            == Seq::<char>::empty(),
    decreases j - i,
{
    let ts = tokens(s);
    let part = ts.subrange(i, j);
    if i < ts.len() {
        let one = ts.subrange(i, i + 1);
        assert(render(one.drop_last()) =~= Seq::empty());
        assert(Seq::empty() + token_text(ts[i]) =~= token_text(ts[i]));
    }
    if i < j {
        a_stretch_without_comments_is_kept(s, cuts, i, j - 1);
        assert(part.drop_last() =~= ts.subrange(i, j - 1));
        assert(reads_at(s, ts, cuts, j - 1));
        places_ascend(s, ts, cuts, i, j - 1);
        assert(s.subrange(cuts[i], cuts[j - 1]) + s.subrange(cuts[j - 1], cuts[j]) =~= s.subrange(
            cuts[i],
            cuts[j],
        ));
    } else {
        assert(render(part) =~= Seq::empty());
        if i < ts.len() {
            assert(reads_at(s, ts, cuts, i));
        }
        assert(s.subrange(cuts[i], cuts[j]) =~= Seq::empty());
    }
}

proof fn places_ascend(s: Seq<char>, ts: Seq<Token>, cuts: Seq<int>, i: int, j: int)
    requires
        is_reading(s, ts, cuts),
        0 <= i <= j < ts.len(),
    ensures
        0 <= cuts[i] <= cuts[j],
    decreases j - i,
{
    assert(reads_at(s, ts, cuts, i));
    if i < j {
        places_ascend(s, ts, cuts, i + 1, j);
    }
}

/// How many more `{` than `}` stand among the tokens.
pub open spec fn open_braces(ts: Seq<Token>) -> int {
    ts.to_multiset().count(Token::Symbol('{')) - ts.to_multiset().count(Token::Symbol('}'))
}

/// Braces nest and nothing else does: the depth is the number of `{` less the number of
/// `}`.
pub proof fn only_braces_nest(ts: Seq<Token>)
    ensures
        brace_depth(ts) == open_braces(ts),
    decreases ts.len(),
{
    broadcast use vstd::seq_lib::group_to_multiset_ensures;
    broadcast use vstd::multiset::group_multiset_axioms;

    if ts.len() > 0 {
        only_braces_nest(ts.drop_last());
        assert(ts =~= ts.drop_last().push(ts.last()));
    }
}

/// Whether no brace stands among the tokens.
pub open spec fn has_no_braces(ts: Seq<Token>) -> bool {
    forall|i: int|
        0 <= i < ts.len() ==> #[trigger] ts[i] != Token::Symbol('{') && ts[i] != Token::Symbol('}')
}

/// Tokens without braces leave none open.
pub proof fn without_braces_nothing_nests(ts: Seq<Token>)
    requires
        has_no_braces(ts),
    ensures
        brace_depth(ts) == 0,
{
    broadcast use vstd::seq_lib::group_to_multiset_ensures;

    only_braces_nest(ts);
    assert(!ts.contains(Token::Symbol('{')));
    assert(!ts.contains(Token::Symbol('}')));
}

/// Whether token `k` is a semicolon with no brace open before it.
pub open spec fn is_end(ts: Seq<Token>, k: int) -> bool {
    0 <= k < ts.len() && ts[k] == Token::Symbol(';') && open_braces(ts.take(k)) == 0
}

/// Whether `ends` are the places of all semicolons with no brace open before them, in order.
pub open spec fn are_ends(ts: Seq<Token>, ends: Seq<int>) -> bool {
    &&& forall|i: int| 0 <= i < ends.len() ==> is_end(ts, #[trigger] ends[i])
    &&& forall|i: int, j: int| 0 <= i < j < ends.len() ==> ends[i] < ends[j]
    &&& forall|k: int| #[trigger] is_end(ts, k) ==> ends.contains(k)
}

/// Where the stretch number `i` begins: behind the semicolon before it.
pub open spec fn start_of(ends: Seq<int>, i: int) -> int {
    if i == 0 {
        0
    } else {
        ends[i - 1] + 1
    }
}

/// The tokens between two ends, or before the first, or behind the last.
pub open spec fn stretch(ts: Seq<Token>, ends: Seq<int>, i: int) -> Seq<Token> {
    ts.subrange(
        start_of(ends, i),
        if i < ends.len() {
            ends[i]
        } else {
            ts.len() as int
        },
    )
}

proof fn segments_from(ts: Seq<Token>, ends: Seq<int>, i: int)
    requires
        are_ends(ts, ends),
        0 <= i <= ends.len(),
    ensures
        0 <= start_of(ends, i) <= ts.len(),
        segments(ts.skip(start_of(ends, i))) == Seq::new(
            (ends.len() + 1 - i) as nat,
            |j: int| stretch(ts, ends, i + j),
        ),
    decreases ends.len() - i,
{
    let from = start_of(ends, i);
    if i > 0 {
        assert(is_end(ts, ends[i - 1]));
    }
    let tail = ts.skip(from);
    assert(brace_depth(ts.take(from)) == 0) by {
        only_braces_nest(ts.take(from));
        if i > 0 {
            only_braces_nest(ts.take(from - 1));
            assert(ts.take(from).drop_last() =~= ts.take(from - 1));
        } else {
            assert(brace_depth(ts.take(0)) == 0);
        }
    }
    assert forall|j: int| 0 <= j < tail.len() implies #[trigger] terminates(tail, j) == is_end(
        ts,
        from + j,
    ) by {
        assert(ts.take(from + j) =~= ts.take(from) + tail.take(j));
        depth_of_two(ts.take(from), tail.take(j));
        only_braces_nest(ts.take(from + j));
    }
    next_terminator_is_first(tail, 0);
    let k = next_terminator(tail, 0);
    let all = Seq::new((ends.len() + 1 - i) as nat, |j: int| stretch(ts, ends, i + j));
    if k < tail.len() {
        assert(is_end(ts, from + k));
        let m = ends.index_of(from + k);
        assert(m >= i) by {
            if m < i {
                assert(ends[m] <= ends[i - 1]);
            }
        }
        assert(ends[i] == from + k) by {
            assert(is_end(ts, ends[i]));
            if i < m {
                assert(ends[i] < ends[m]);
                if i > 0 {
                    assert(ends[i - 1] < ends[i]);
                }
                assert(!terminates(tail, ends[i] - from));
            }
        }
        segments_from(ts, ends, i + 1);
        assert(tail.skip(k + 1) =~= ts.skip(start_of(ends, i + 1)));
        assert(tail.take(k) =~= stretch(ts, ends, i));
        let later = segments(tail.skip(k + 1));
        assert forall|j: int| 0 <= j < all.len() implies all[j] == (seq![tail.take(k)]
            + later)[j] by {
            if j > 0 {
                assert(later[j - 1] == stretch(ts, ends, i + 1 + (j - 1)));
                assert(i + 1 + (j - 1) == i + j);
            }
        }
        assert(segments(tail) =~= all);
    } else {
        if i < ends.len() {
            assert(is_end(ts, ends[i]));
            if i > 0 {
                assert(ends[i - 1] < ends[i]);
            }
            assert(!terminates(tail, ends[i] - from));
            assert(false);
        }
        assert(tail =~= stretch(ts, ends, i));
        assert(seq![tail] =~= all);
    }
}

proof fn texts_are_filtered(gs: Seq<Seq<Token>>)
    ensures
        segment_texts(gs) == gs.map_values(|g: Seq<Token>| trim(render(g))).filter(
            |x: Seq<char>| x.len() > 0,
        ),
    decreases gs.len(),
{
    reveal(Seq::filter);
    let f = |g: Seq<Token>| trim(render(g));
    if gs.len() > 0 {
        texts_are_filtered(gs.drop_last());
        assert(gs.map_values(f).drop_last() =~= gs.drop_last().map_values(f));
    } else {
        assert(segment_texts(gs) =~= gs.map_values(f).filter(|x: Seq<char>| x.len() > 0));
    }
}

/// The statements of a text are what stands between the semicolons outside of string
/// literals, comments and braces: the trimmed text of each stretch, unless nothing is left
/// of it. What stands behind the last of these semicolons is the unterminated statement.
pub proof fn statements_stand_between_semicolons(s: Seq<char>, ends: Seq<int>)
    requires
        are_ends(tokens(s), ends),
    ensures
        statements(s) == Seq::new(
            ends.len() + 1,
            |i: int| trim(render(stretch(tokens(s), ends, i))),
        ).filter(|x: Seq<char>| x.len() > 0),
        ({
            let last = trim(render(stretch(tokens(s), ends, ends.len() as int)));
            unterminated(s) == if last.len() == 0 {
                None
            } else {
                Some(last)
            }
        }),
{
    let ts = tokens(s);
    let gs = segments(ts);
    segments_from(ts, ends, 0);
    assert(ts.skip(0) =~= ts);
    texts_are_filtered(gs);
    assert(gs.map_values(|g: Seq<Token>| trim(render(g))) =~= Seq::new(
        ends.len() + 1,
        |i: int| trim(render(stretch(ts, ends, i))),
    ));
    assert(gs.last() == stretch(ts, ends, ends.len() as int));
}

/// The semicolons that end statements can be listed.
pub proof fn every_text_has_ends(ts: Seq<Token>)
    ensures
        exists|ends: Seq<int>| are_ends(ts, ends),
{
    let ends = ends_up_to(ts, ts.len() as int);
    assert forall|k: int| #[trigger] is_end(ts, k) implies ends.contains(k) by {
        assert(k < ts.len());
    }
    assert(are_ends(ts, ends));
}

proof fn ends_up_to(ts: Seq<Token>, n: int) -> (ends: Seq<int>)
    requires
        0 <= n <= ts.len(),
    ensures
        forall|i: int| 0 <= i < ends.len() ==> is_end(ts, #[trigger] ends[i]) && ends[i] < n,
        forall|i: int, j: int| 0 <= i < j < ends.len() ==> ends[i] < ends[j],
        forall|k: int| #[trigger] is_end(ts, k) && k < n ==> ends.contains(k),
    decreases n,
{
    if n == 0 {
        Seq::empty()
    } else {
        let front = ends_up_to(ts, n - 1);
        if is_end(ts, n - 1) {
            let ends = front.push(n - 1);
            assert forall|k: int| #[trigger] is_end(ts, k) && k < n implies ends.contains(k) by {
                if k < n - 1 {
                    assert(ends[front.index_of(k)] == k);
                } else {
                    assert(ends[front.len() as int] == k);
                }
            }
            ends
        } else {
            front
        }
    }
}

/// Whether neither a quote nor the beginning of a comment can stand in a text.
pub open spec fn is_simple(s: Seq<char>) -> bool {
    forall|i: int|
        0 <= i < s.len() ==> #[trigger] s[i] != '"' && s[i] != '\'' && s[i] != '-' && s[i] != '/'
}

/// A character as a token.
pub open spec fn as_token(c: char) -> Token {
    Token::Symbol(c)
}

/// Each character as a token.
pub open spec fn as_tokens(s: Seq<char>) -> Seq<Token> {
    s.map_values(|c: char| as_token(c))
}

/// In a simple text each character is a token, whatever follows the text.
pub proof fn simple_text_is_read_by_characters(s: Seq<char>, more: Seq<char>)
    requires
        is_simple(s),
    ensures
        tokens(s + more) == as_tokens(s) + tokens(more),
        tokens(s) == as_tokens(s),
    decreases s.len(),
{
    if s.len() == 0 {
        assert(s + more =~= more);
        assert(as_tokens(s) + tokens(more) =~= tokens(more));
        assert(tokens(s) =~= as_tokens(s));
    } else {
        let tail = s.skip(1);
        assert forall|i: int| 0 <= i < tail.len() implies #[trigger] tail[i] != '"' && tail[i]
            != '\'' && tail[i] != '-' && tail[i] != '/' by {
            assert(tail[i] == s[i + 1]);
        }
        simple_text_is_read_by_characters(tail, more);
        let all = s + more;
        assert(all[0] == s[0]);
        assert(token_len(all) == 1 && token_len(s) == 1);
        assert(all.skip(1) =~= tail + more);
        let head = seq![as_token(s[0])];
        let whole = as_tokens(s);
        let rest = as_tokens(tail);
        assert forall|i: int| 0 <= i < whole.len() implies whole[i] == (head + rest)[i] by {
            if i > 0 {
                assert(tail[i - 1] == s[i]);
                assert(rest[i - 1] == as_token(tail[i - 1]));
            }
        }
        assert(head + rest =~= whole);
        assert(head + (as_tokens(tail) + tokens(more)) =~= (head + as_tokens(tail)) + tokens(more));
    }
}

/// Whether neither a string literal nor a comment begins at place `i` of a text.
pub open spec fn is_code_at(s: Seq<char>, i: int) -> bool {
    &&& s[i] != '"' && s[i] != '\''
    &&& !(s[i] == '-' && i + 1 < s.len() && s[i + 1] == '-')
    &&& !(s[i] == '/' && i + 1 < s.len() && s[i + 1] == '*')
}

/// Whether neither a string literal nor a comment begins in a text, with `more` behind it.
pub open spec fn is_code(s: Seq<char>, more: Seq<char>) -> bool {
    forall|i: int| 0 <= i < s.len() ==> #[trigger] is_code_at(s + more, i)
}

/// Where no string literal and no comment begins, each character is a token.
pub proof fn code_is_read_by_characters(s: Seq<char>, more: Seq<char>)
    requires
        is_code(s, more),
    ensures
        tokens(s + more) == as_tokens(s) + tokens(more),
    decreases s.len(),
{
    if s.len() == 0 {
        assert(s + more =~= more);
        assert(as_tokens(s) + tokens(more) =~= tokens(more));
    } else {
        let tail = s.skip(1);
        let all = s + more;
        let later = tail + more;
        assert(all.skip(1) =~= later);
        assert forall|i: int| 0 <= i < tail.len() implies #[trigger] is_code_at(later, i) by {
            assert(is_code_at(all, i + 1));
            assert(later[i] == all[i + 1]);
            if i + 1 < later.len() {
                assert(later[i + 1] == all[i + 2]);
            }
        }
        code_is_read_by_characters(tail, more);
        assert(is_code_at(all, 0));
        assert(all[0] == s[0]);
        assert(token_len(all) == 1);
        let head = seq![as_token(s[0])];
        let whole = as_tokens(s);
        let rest = as_tokens(tail);
        assert forall|i: int| 0 <= i < whole.len() implies whole[i] == (head + rest)[i] by {
            if i > 0 {
                assert(tail[i - 1] == s[i]);
                assert(rest[i - 1] == as_token(tail[i - 1]));
            }
        }
        assert(head + rest =~= whole);
        assert(head + (rest + tokens(more)) =~= (head + rest) + tokens(more));
    }
}

pub(crate) proof fn text_of_characters(s: Seq<char>)
    ensures
        render(as_tokens(s)) == s,
    decreases s.len(),
{
    if s.len() > 0 {
        text_of_characters(s.drop_last());
        assert(as_tokens(s).drop_last() =~= as_tokens(s.drop_last()));
        assert(s.drop_last() + seq![s.last()] =~= s);
    } else {
        assert(render(as_tokens(s)) =~= s);
    }
}

/// In a simple text without braces every semicolon ends a statement, whatever follows.
pub proof fn a_simple_text_splits_at_semicolons(s: Seq<char>, more: Seq<char>)
    requires
        is_simple(s),
        !s.contains('{'),
        !s.contains('}'),
    ensures
        statements(s + seq![';'] + more) == statements(s) + statements(more),
        unterminated(s + seq![';'] + more) == unterminated(more),
{
    let tail = seq![';'] + more;
    assert(s + seq![';'] + more =~= s + tail);
    simple_text_is_read_by_characters(s, tail);
    simple_text_is_read_by_characters(seq![';'], more);
    assert(as_tokens(seq![';']) =~= seq![Token::Symbol(';')]);
    let ts = as_tokens(s);
    assert forall|i: int| 0 <= i < ts.len() implies #[trigger] ts[i] != Token::Symbol('{') && ts[i]
        != Token::Symbol('}') by {
        assert(s.contains(s[i]));
    }
    without_braces_nothing_nests(ts);
    segments_of_two(ts, tokens(more));
    texts_of_two(segments(ts), segments(tokens(more)));
    segments_are_some(tokens(more));
}

proof fn segments_are_some(ts: Seq<Token>)
    ensures
        segments(ts).len() > 0,
{
}

/// A semicolon behind a closed text without braces outside of its string literals and
/// comments ends a statement, whatever else stands in the text.
pub proof fn without_braces_a_semicolon_ends_a_statement(s: Seq<char>, more: Seq<char>)
    requires
        closed(s),
        has_no_braces(tokens(s)),
    ensures
        statements(s + seq![';'] + more) == statements(s) + statements(more),
{
    without_braces_nothing_nests(tokens(s));
    a_semicolon_ends_a_statement(s, more);
}

proof fn one_stretch(ts: Seq<Token>)
    requires
        forall|k: int| !is_end(ts, k),
    ensures
        segments(ts) == seq![ts],
        segment_texts(seq![ts]) == if trim(render(ts)).len() == 0 {
            Seq::<Seq<char>>::empty()
        } else {
            seq![trim(render(ts))]
        },
{
    assert(are_ends(ts, Seq::empty()));
    segments_from(ts, Seq::empty(), 0);
    assert(ts.skip(0) =~= ts);
    assert(stretch(ts, Seq::empty(), 0) =~= ts);
    assert(segments(ts) =~= seq![ts]);
    assert(seq![ts].drop_last() =~= Seq::empty());
    assert(segment_texts(Seq::empty()) =~= Seq::empty());
}

/// A simple text without a semicolon is one statement, its trimmed text, unless it is
/// blank.
pub proof fn a_simple_text_without_semicolon_is_one_statement(s: Seq<char>)
    requires
        is_simple(s),
        !s.contains(';'),
    ensures
        trim(s).len() > 0 ==> statements(s) == seq![trim(s)] && unterminated(s) == Some(trim(s)),
        trim(s).len() == 0 ==> statements(s).len() == 0 && unterminated(s) is None,
{
    let ts = as_tokens(s);
    simple_text_is_read_by_characters(s, Seq::empty());
    assert forall|k: int| !is_end(ts, k) by {
        if 0 <= k < ts.len() {
            assert(s.contains(s[k]));
        }
    }
    one_stretch(ts);
    text_of_characters(s);
}

/// Semicolons in a block in braces end no statement: the statement ends with the semicolon
/// behind the block.
pub proof fn semicolons_in_a_block_end_nothing(
    front: Seq<char>,
    body: Seq<char>,
    back: Seq<char>,
    more: Seq<char>,
)
    requires
        is_simple(front) && !front.contains('{') && !front.contains('}') && !front.contains(';'),
        is_simple(body) && !body.contains('{') && !body.contains('}'),
        is_simple(back) && !back.contains('{') && !back.contains('}') && !back.contains(';'),
    ensures
        ({
            let s = front + seq!['{'] + body + seq!['}'] + back;
            statements(s + seq![';'] + more) == seq![trim(s)] + statements(more)
        }),
{
    let s = front + seq!['{'] + body + seq!['}'] + back;
    let ts = as_tokens(s);
    let n = front.len() as int;
    let m = n + 1 + body.len();
    assert forall|i: int| 0 <= i < s.len() implies #[trigger] s[i] != '"' && s[i] != '\'' && s[i]
        != '-' && s[i] != '/' by {
        if i < n {
            assert(s[i] == front[i]);
        } else if n < i < m {
            assert(s[i] == body[i - n - 1]);
        } else if i > m {
            assert(s[i] == back[i - m - 1]);
        }
    }
    let tail = seq![';'] + more;
    assert(s + seq![';'] + more =~= s + tail);
    simple_text_is_read_by_characters(s, tail);
    simple_text_is_read_by_characters(seq![';'], more);
    assert(as_tokens(seq![';']) =~= seq![Token::Symbol(';')]);
    let a = as_tokens(front);
    let b = as_tokens(body);
    let c = as_tokens(back);
    let open = seq![Token::Symbol('{')];
    let close = seq![Token::Symbol('}')];
    assert(ts =~= a + open + b + close + c);
    braceless_tokens(front);
    braceless_tokens(body);
    braceless_tokens(back);
    assert(brace_depth(open) == 1 && brace_depth(close) == -1) by {
        assert(open.drop_last() =~= Seq::empty());
        assert(close.drop_last() =~= Seq::empty());
        assert(brace_depth(Seq::empty()) == 0);
    }
    depth_of_two(a + open + b + close, c);
    depth_of_two(a + open + b, close);
    depth_of_two(a + open, b);
    depth_of_two(a, open);
    segments_of_two(ts, tokens(more));
    texts_of_two(segments(ts), segments(tokens(more)));
    assert forall|k: int| !is_end(ts, k) by {
        if is_end(ts, k) {
            assert(ts[k] == Token::Symbol(s[k]));
            if k < n {
                assert(front.contains(front[k]));
            } else if k > m {
                assert(back.contains(back[k - m - 1]));
            } else {
                let part = body.take(k - n - 1);
                assert forall|x: char| #[trigger] part.contains(x) implies body.contains(x) by {
                    assert(body[part.index_of(x)] == x);
                }
                assert forall|i: int| 0 <= i < part.len() implies #[trigger] part[i] != '"'
                    && part[i] != '\'' && part[i] != '-' && part[i] != '/' by {
                    assert(part[i] == body[i]);
                }
                braceless_tokens(part);
                assert(ts.take(k) =~= a + open + as_tokens(part));
                depth_of_two(a + open, as_tokens(part));
                only_braces_nest(ts.take(k));
            }
        }
    }
    one_stretch(ts);
    text_of_characters(s);
    assert(trim(s).len() > 0) by {
        trimming_takes_only_white_space(s);
        let (i, j) = choose|i: int, j: int| #[trigger]
            is_trimmed_part(s, i, j) && trim(s) == s.subrange(i, j);
        assert(s[n] == '{');
    }
}

proof fn braceless_tokens(s: Seq<char>)
    requires
        is_simple(s),
        !s.contains('{'),
        !s.contains('}'),
    ensures
        brace_depth(as_tokens(s)) == 0,
{
    let ts = as_tokens(s);
    assert forall|i: int| 0 <= i < ts.len() implies #[trigger] ts[i] != Token::Symbol('{') && ts[i]
        != Token::Symbol('}') by {
        assert(s.contains(s[i]));
    }
    without_braces_nothing_nests(ts);
}

/// What stands in a string literal ends no statement.
pub proof fn semicolons_in_a_literal_end_nothing(
    front: Seq<char>,
    q: char,
    text: Seq<char>,
    back: Seq<char>,
    more: Seq<char>,
)
    requires
        is_simple(front) && !front.contains('{') && !front.contains('}') && !front.contains(';'),
        q == '"' || q == '\'',
        quotable(text, q),
        is_simple(back) && !back.contains('{') && !back.contains('}') && !back.contains(';'),
    ensures
        ({
            let s = front + (seq![q] + text + seq![q]) + back;
            statements(s + seq![';'] + more) == seq![trim(s)] + statements(more)
        }),
{
    let literal = seq![q] + text + seq![q];
    let s = front + literal + back;
    let tail = seq![';'] + more;
    let l = seq![Token::Literal(literal)];
    let semi = seq![Token::Symbol(';')];
    let ts = as_tokens(front) + l + as_tokens(back);
    assert(s + seq![';'] + more =~= front + (literal + (back + tail)));
    simple_text_is_read_by_characters(front, literal + (back + tail));
    a_string_literal_is_one_token(q, text, back + tail);
    simple_text_is_read_by_characters(back, tail);
    simple_text_is_read_by_characters(seq![';'], more);
    assert(as_tokens(seq![';']) =~= semi);
    let rest = semi + tokens(more);
    assert(as_tokens(front) + (l + (as_tokens(back) + rest)) =~= ts + rest);
    assert(tokens(s + seq![';'] + more) == ts + (semi + tokens(more)));
    assert forall|i: int| 0 <= i < ts.len() implies #[trigger] ts[i] != Token::Symbol('{') && ts[i]
        != Token::Symbol('}') && ts[i] != Token::Symbol(';') by {
        if i < front.len() {
            assert(ts[i] == Token::Symbol(front[i]));
            assert(front.contains(front[i]));
        } else if i > front.len() {
            let k = i - front.len() - 1;
            assert(ts[i] == Token::Symbol(back[k]));
            assert(back.contains(back[k]));
        }
    }
    without_braces_nothing_nests(ts);
    segments_of_two(ts, tokens(more));
    texts_of_two(segments(ts), segments(tokens(more)));
    assert forall|k: int| !is_end(ts, k) by {
        if 0 <= k < ts.len() {
            assert(ts[k] != Token::Symbol(';'));
        }
    }
    one_stretch(ts);
    render_of_two(as_tokens(front) + l, as_tokens(back));
    render_of_two(as_tokens(front), l);
    text_of_characters(front);
    text_of_characters(back);
    assert(render(l) =~= literal) by {
        assert(l.drop_last() =~= Seq::empty());
        assert(render(Seq::empty()) =~= Seq::empty());
    }
    assert(render(ts) =~= s);
    assert(trim(s).len() > 0) by {
        trimming_takes_only_white_space(s);
        let (i, j) = choose|i: int, j: int| #[trigger]
            is_trimmed_part(s, i, j) && trim(s) == s.subrange(i, j);
        assert(s[front.len() as int] == q);
    }
}

} // verus!
