//! How the words of a SurrealQL text are told apart, and what is left of its white space.

use vstd::prelude::*;

use crate::reading::{
    as_token, as_tokens, code_is_read_by_characters, is_code, is_code_at, is_simple,
    simple_text_is_read_by_characters, text_of_characters,
};
use crate::splitting::{
    a_block_comment_is_one_token, a_line_comment_is_one_token, a_string_literal_is_one_token,
    ends_no_block, quotable, render_of_two,
};
use crate::surql::{
    code_words, first_backquote, first_backquote_of, in_word, is_blank, normalized, open_word,
    render, single_spaced, token_len_bounds, token_text, tokens, with_quoted_names, words_of, Token,
    WordView,
};
use crate::text::white_space;

verus! {

/// The word without quotes that a text is.
pub open spec fn plain_word(text: Seq<char>) -> WordView {
    WordView { text, quoted: false }
}

/// The word in quotes that a text is.
pub open spec fn quoted_word(text: Seq<char>) -> WordView {
    WordView { text, quoted: true }
}

proof fn names_behind(front: Seq<Token>, rest: Seq<Token>)
    requires
        forall|i: int| 0 <= i < front.len() ==> #[trigger] front[i] != Token::Symbol('`'),
    ensures
        with_quoted_names(front + rest) == front + with_quoted_names(rest),
    decreases front.len(),
{
    if front.len() == 0 {
        assert(front + rest =~= rest);
        assert(front + with_quoted_names(rest) =~= with_quoted_names(rest));
    } else {
        let tail = front.drop_first();
        let all = front + rest;
        assert(front[0] != Token::Symbol('`'));
        assert forall|i: int| 0 <= i < tail.len() implies #[trigger] tail[i]
            != Token::Symbol('`') by {
            assert(tail[i] == front[i + 1]);
        }
        names_behind(tail, rest);
        assert(all[0] == front[0]);
        assert(all.drop_first() =~= tail + rest);
        assert(seq![front[0]] + (tail + with_quoted_names(rest)) =~= front + with_quoted_names(
            rest,
        ));
    }
}

proof fn words_of_two(a: Seq<Token>, b: Seq<Token>)
    requires
        a.len() > 0 && b.len() > 0 ==> !(in_word(a.last()) && in_word(b.first())),
    ensures
        words_of(a + b) == words_of(a) + words_of(b),
    decreases b.len(),
{
    let all = a + b;
    if b.len() == 0 {
        assert(all =~= a);
        assert(words_of(a) + words_of(b) =~= words_of(a));
    } else {
        let init = b.drop_last();
        words_of_two(a, init);
        assert(all.drop_last() =~= a + init);
        assert(all.last() == b.last());
        if b.len() >= 2 {
            assert(all[all.len() - 2] == b[b.len() - 2]);
            assert(init.last() == b[b.len() - 2]);
            if in_word(init.last()) {
                open_word(init);
                let x = words_of(a);
                let y = words_of(init);
                assert((x + y).drop_last() =~= x + y.drop_last());
                assert((x + y).last() == y.last());
            }
        } else if a.len() > 0 {
            assert(all[all.len() - 2] == a.last());
        }
        assert(words_of(all) =~= words_of(a) + words_of(b));
    }
}

proof fn words_of_one(t: Token)
    ensures
        words_of(seq![t]) == match t {
            Token::Comment => Seq::<WordView>::empty(),
            Token::Literal(text) => seq![quoted_word(text)],
            Token::Symbol(c) => if white_space(c) {
                Seq::<WordView>::empty()
            } else {
                seq![plain_word(seq![c])]
            },
        },
{
    assert(seq![t].drop_last() =~= Seq::empty());
    assert(words_of(Seq::empty()) =~= Seq::empty());
}

/// Whether no character of a text ends a word, and none is a quote or can begin a comment.
pub open spec fn is_one_word(w: Seq<char>) -> bool {
    &&& w.len() > 0
    &&& is_simple(w)
    &&& forall|i: int|
        0 <= i < w.len() ==> !white_space(#[trigger] w[i]) && w[i] != ';' && w[i] != '`'
}

/// Whether a word before the given text ends there.
pub open spec fn ends_word(more: Seq<char>) -> bool {
    ||| more.len() == 0
    ||| white_space(more[0])
    ||| more[0] == ';'
    ||| more[0] == '"'
    ||| more[0] == '\''
    ||| more.len() >= 2 && more[0] == '-' && more[1] == '-'
    ||| more.len() >= 2 && more[0] == '/' && more[1] == '*'
}

proof fn words_of_word(w: Seq<char>)
    requires
        w.len() > 0,
        forall|i: int| 0 <= i < w.len() ==> !white_space(#[trigger] w[i]) && w[i] != ';',
    ensures
        words_of(as_tokens(w)) == seq![plain_word(w)],
    decreases w.len(),
{
    let init = w.drop_last();
    let ts = as_tokens(w);
    assert(ts.drop_last() =~= as_tokens(init));
    let c = w[w.len() - 1];
    assert(ts.last() == as_token(c));
    assert(!white_space(c) && c != ';');
    if init.len() > 0 {
        assert forall|i: int| 0 <= i < init.len() implies !white_space(#[trigger] init[i])
            && init[i] != ';' by {
            assert(init[i] == w[i]);
        }
        words_of_word(init);
        let d = w[w.len() - 2];
        assert(ts[ts.len() - 2] == as_token(d));
        assert(!white_space(d) && d != ';');
        assert(init.push(c) =~= w);
        assert(words_of(ts) =~= seq![plain_word(w)]);
    } else {
        assert(words_of(as_tokens(init)) =~= Seq::empty());
        assert(seq![c] =~= w);
        assert(words_of(ts) =~= seq![plain_word(w)]);
    }
}

/// The first token of what ends a word is no part of a word.
proof fn first_token_behind_a_word(more: Seq<char>)
    requires
        ends_word(more),
        more.len() > 0,
    ensures
        ({
            let ts = with_quoted_names(tokens(more));
            ts.len() > 0 && !in_word(ts.first())
        }),
{
    token_len_bounds(more);
}

/// A word is read as a whole, up to the white space, the semicolon, the quote or the
/// comment behind it.
pub proof fn a_word_is_read_as_a_whole(w: Seq<char>, more: Seq<char>)
    requires
        is_one_word(w),
        ends_word(more),
    ensures
        code_words(w + more) == seq![plain_word(w)] + code_words(more),
{
    let ts = as_tokens(w);
    simple_text_is_read_by_characters(w, more);
    assert forall|i: int| 0 <= i < ts.len() implies #[trigger] ts[i] != Token::Symbol('`') by {
        assert(ts[i] == as_token(w[i]));
    }
    names_behind(ts, tokens(more));
    if more.len() > 0 {
        first_token_behind_a_word(more);
    } else {
        assert(with_quoted_names(tokens(more)) =~= Seq::empty());
    }
    words_of_two(ts, with_quoted_names(tokens(more)));
    words_of_word(w);
}

/// Any characters but white space, semicolons and backquotes make up one word, as long as
/// no string literal and no comment begins among them.
pub proof fn other_characters_make_up_one_word(w: Seq<char>, more: Seq<char>)
    requires
        w.len() > 0,
        forall|i: int|
            0 <= i < w.len() ==> !white_space(#[trigger] w[i]) && w[i] != ';' && w[i] != '`',
        is_code(w, more),
        ends_word(more),
    ensures
        code_words(w + more) == seq![plain_word(w)] + code_words(more),
{
    let ts = as_tokens(w);
    code_is_read_by_characters(w, more);
    assert forall|i: int| 0 <= i < ts.len() implies #[trigger] ts[i] != Token::Symbol('`') by {
        assert(ts[i] == as_token(w[i]));
    }
    names_behind(ts, tokens(more));
    if more.len() > 0 {
        first_token_behind_a_word(more);
    } else {
        assert(with_quoted_names(tokens(more)) =~= Seq::empty());
    }
    words_of_two(ts, with_quoted_names(tokens(more)));
    words_of_word(w);
}

proof fn words_behind(t: Token, more: Seq<Token>)
    requires
        t != Token::Symbol('`'),
        !in_word(t),
    ensures
        words_of(with_quoted_names(seq![t] + more)) == words_of(seq![t]) + words_of(
            with_quoted_names(more),
        ),
{
    names_behind(seq![t], more);
    words_of_two(seq![t], with_quoted_names(more));
}

proof fn one_character(c: char, more: Seq<char>)
    requires
        c != '"' && c != '\'' && c != '-' && c != '/',
    ensures
        tokens(seq![c] + more) == seq![as_token(c)] + tokens(more),
{
    simple_text_is_read_by_characters(seq![c], more);
    assert(as_tokens(seq![c]) =~= seq![as_token(c)]);
}

/// White space before a word is no part of it.
pub proof fn white_space_is_no_word(c: char, more: Seq<char>)
    requires
        white_space(c),
    ensures
        code_words(seq![c] + more) == code_words(more),
{
    one_character(c, more);
    words_behind(as_token(c), tokens(more));
    words_of_one(as_token(c));
    assert(Seq::<WordView>::empty() + code_words(more) =~= code_words(more));
}

/// A semicolon is a word of its own.
pub proof fn a_semicolon_is_a_word(more: Seq<char>)
    ensures
        code_words(seq![';'] + more) == seq![plain_word(seq![';'])] + code_words(more),
{
    one_character(';', more);
    words_behind(as_token(';'), tokens(more));
    words_of_one(as_token(';'));
}

/// The words before a semicolon do not depend on what stands behind it.
pub proof fn words_end_with_a_semicolon(s: Seq<char>, more: Seq<char>)
    requires
        is_simple(s),
        !s.contains('`'),
    ensures
        code_words(s + seq![';'] + more) == code_words(s + seq![';']) + code_words(more),
        code_words(s + seq![';']).len() > 0,
        code_words(s + seq![';']).last() == plain_word(seq![';']),
{
    let front = s + seq![';'];
    let ts = as_tokens(front);
    assert forall|i: int| 0 <= i < front.len() implies #[trigger] front[i] != '"' && front[i]
        != '\'' && front[i] != '-' && front[i] != '/' by {
        if i < s.len() {
            assert(front[i] == s[i]);
        }
    }
    simple_text_is_read_by_characters(front, more);
    assert forall|i: int| 0 <= i < ts.len() implies #[trigger] ts[i] != Token::Symbol('`') by {
        assert(ts[i] == as_token(front[i]));
        if i < s.len() {
            assert(s.contains(s[i]));
        }
    }
    let none = Seq::<Token>::empty();
    names_behind(ts, tokens(more));
    names_behind(ts, none);
    assert(ts + none =~= ts);
    assert(with_quoted_names(none) =~= none);
    assert(ts.last() == as_token(';'));
    words_of_two(ts, with_quoted_names(tokens(more)));
}

/// A string literal is one word in quotes, whatever stands in it.
pub proof fn a_string_literal_is_a_word(q: char, text: Seq<char>, more: Seq<char>)
    requires
        q == '"' || q == '\'',
        quotable(text, q),
    ensures
        code_words(seq![q] + text + seq![q] + more) == seq![
            quoted_word(seq![q] + text + seq![q]),
        ] + code_words(more),
{
    let t = Token::Literal(seq![q] + text + seq![q]);
    a_string_literal_is_one_token(q, text, more);
    words_behind(t, tokens(more));
    words_of_one(t);
}

/// Between two backquotes stands one quoted name, whatever tokens it is made of.
pub proof fn backquotes_quote_a_name(name: Seq<Token>, rest: Seq<Token>)
    requires
        forall|i: int| 0 <= i < name.len() ==> #[trigger] name[i] != Token::Symbol('`'),
    ensures
        with_quoted_names(seq![Token::Symbol('`')] + name + seq![Token::Symbol('`')] + rest)
            == seq![
            Token::Literal(render(seq![Token::Symbol('`')] + name + seq![Token::Symbol('`')])),
        ] + with_quoted_names(rest),
{
    let quote = seq![Token::Symbol('`')];
    let part = quote + name + quote;
    let ts = part + rest;
    assert(ts.drop_first() =~= name + (quote + rest));
    first_backquote_of(name, quote + rest);
    assert((quote + rest)[0] == Token::Symbol('`'));
    let k = first_backquote(ts.drop_first());
    assert(k == name.len());
    assert(ts.take(k + 2) =~= part);
    assert(ts.skip(k + 2) =~= rest);
}

/// Tokens without backquotes stay as they are.
pub proof fn without_backquotes_nothing_is_quoted(ts: Seq<Token>, rest: Seq<Token>)
    requires
        forall|i: int| 0 <= i < ts.len() ==> #[trigger] ts[i] != Token::Symbol('`'),
    ensures
        with_quoted_names(ts + rest) == ts + with_quoted_names(rest),
        with_quoted_names(seq![Token::Symbol('`')] + ts) == seq![Token::Symbol('`')] + ts,
        with_quoted_names(Seq::empty()) == Seq::<Token>::empty(),
{
    let none = Seq::<Token>::empty();
    let both = seq![Token::Symbol('`')] + ts;
    names_behind(ts, rest);
    names_behind(ts, none);
    first_backquote_of(ts, none);
    assert(ts + none =~= ts);
    assert(both.drop_first() =~= ts);
    assert(with_quoted_names(none) =~= none);
}

/// A name in backquotes is one word in quotes, whatever stands in it.
pub proof fn a_name_in_backquotes_is_a_word(name: Seq<char>, more: Seq<char>)
    requires
        is_code(name, seq!['`'] + more),
        !name.contains('`'),
    ensures
        code_words(seq!['`'] + name + seq!['`'] + more) == seq![
            quoted_word(seq!['`'] + name + seq!['`']),
        ] + code_words(more),
{
    let text = seq!['`'] + name + seq!['`'];
    let rest = tokens(more);
    let quote = seq![as_token('`')];
    let mid = as_tokens(name);
    let part = quote + mid + quote;
    assert(text + more =~= seq!['`'] + (name + (seq!['`'] + more)));
    one_character('`', name + (seq!['`'] + more));
    code_is_read_by_characters(name, seq!['`'] + more);
    one_character('`', more);
    assert(tokens(text + more) =~= part + rest);
    assert forall|i: int| 0 <= i < mid.len() implies #[trigger] mid[i] != Token::Symbol('`') by {
        assert(mid[i] == as_token(name[i]));
        assert(name.contains(name[i]));
    }
    backquotes_quote_a_name(mid, rest);
    render_of_two(quote + mid, quote);
    render_of_two(quote, mid);
    text_of_characters(name);
    assert(render(quote) =~= seq!['`']) by {
        assert(quote.drop_last() =~= Seq::empty());
        assert(render(Seq::empty()) =~= Seq::empty());
    }
    assert(render(part) =~= text);
    let t = Token::Literal(text);
    words_of_two(seq![t], with_quoted_names(rest));
    words_of_one(t);
}

/// A backquote without another behind it is a character like any other.
pub proof fn a_lone_backquote_is_a_character(w: Seq<char>)
    requires
        is_one_word(w),
    ensures
        code_words(seq!['`'] + w) == seq![plain_word(seq!['`'] + w)],
{
    let all = seq!['`'] + w;
    let ts = as_tokens(w);
    let quote = seq![as_token('`')];
    let none = Seq::<Token>::empty();
    one_character('`', w);
    simple_text_is_read_by_characters(w, Seq::empty());
    assert forall|i: int| 0 <= i < ts.len() implies #[trigger] ts[i] != Token::Symbol('`') by {
        assert(ts[i] == as_token(w[i]));
    }
    first_backquote_of(ts, none);
    names_behind(ts, none);
    assert(ts + none =~= ts);
    assert(with_quoted_names(none) =~= none);
    let both = quote + ts;
    assert(both.drop_first() =~= ts);
    assert(with_quoted_names(both) =~= both);
    assert(both =~= as_tokens(all));
    assert forall|i: int| 0 <= i < all.len() implies !white_space(#[trigger] all[i]) && all[i]
        != ';' by {
        if i > 0 {
            assert(all[i] == w[i - 1]);
        }
    }
    words_of_word(all);
}

/// No word stands in a comment.
pub proof fn a_comment_holds_no_word(text: Seq<char>, more: Seq<char>)
    ensures
        !text.contains('\n') ==> code_words(seq!['-', '-'] + text + seq!['\n'] + more)
            == code_words(more),
        ends_no_block(text) ==> code_words(seq!['/', '*'] + text + seq!['*', '/'] + more)
            == code_words(more),
{
    words_of_one(Token::Comment);
    if !text.contains('\n') {
        a_line_comment_is_one_token(text, more);
        words_behind(Token::Comment, tokens(seq!['\n'] + more));
        white_space_is_no_word('\n', more);
        assert(Seq::<WordView>::empty() + code_words(more) =~= code_words(more));
    }
    if ends_no_block(text) {
        a_block_comment_is_one_token(text, more);
        words_behind(Token::Comment, tokens(more));
        assert(Seq::<WordView>::empty() + code_words(more) =~= code_words(more));
    }
}

proof fn spaced_push(ts: Seq<Token>, t: Token)
    ensures
        single_spaced(ts.push(t)) == if !is_blank(t) {
            single_spaced(ts).push(t)
        } else if ts.len() > 0 && is_blank(ts.last()) {
            single_spaced(ts)
        } else {
            single_spaced(ts).push(Token::Symbol(' '))
        },
        render(ts.push(t)) == render(ts) + token_text(t),
{
    let all = ts.push(t);
    assert(all.drop_last() =~= ts);
    if ts.len() > 0 {
        assert(all[all.len() - 2] == ts.last());
    }
}

/// To normalize a text keeps each character but white space, and one space of each run of
/// white space.
pub proof fn normalizing_keeps_one_space(s: Seq<char>, c: char)
    requires
        is_simple(s.push(c)),
    ensures
        normalized(s.push(c)) == if !white_space(c) {
            normalized(s).push(c)
        } else if s.len() > 0 && white_space(s.last()) {
            normalized(s)
        } else {
            normalized(s).push(' ')
        },
        normalized(Seq::empty()) == Seq::<char>::empty(),
{
    let all = s.push(c);
    assert forall|i: int| 0 <= i < s.len() implies #[trigger] s[i] != '"' && s[i] != '\'' && s[i]
        != '-' && s[i] != '/' by {
        assert(all[i] == s[i]);
    }
    simple_text_is_read_by_characters(all, Seq::empty());
    simple_text_is_read_by_characters(s, Seq::empty());
    let ts = as_tokens(s);
    assert(as_tokens(all) =~= ts.push(as_token(c)));
    if s.len() > 0 {
        assert(ts.last() == as_token(s.last()));
    }
    spaced_push(ts, as_token(c));
    spaced_push(single_spaced(ts), as_token(c));
    spaced_push(single_spaced(ts), Token::Symbol(' '));
    assert(normalized(s) + seq![c] =~= normalized(s).push(c));
    assert(normalized(s) + seq![' '] =~= normalized(s).push(' '));
    assert(tokens(Seq::empty()) =~= Seq::empty());
    assert(single_spaced(Seq::empty()) =~= Seq::empty());
    assert(render(Seq::empty()) =~= Seq::empty());
}

/// To normalize code keeps each character but white space, and one space of each run of
/// white space, whatever the characters are.
pub proof fn normalizing_keeps_all_other_characters(s: Seq<char>, c: char)
    requires
        is_code(s.push(c), Seq::empty()),
    ensures
        normalized(s.push(c)) == if !white_space(c) {
            normalized(s).push(c)
        } else if s.len() > 0 && white_space(s.last()) {
            normalized(s)
        } else {
            normalized(s).push(' ')
        },
{
    let all = s.push(c);
    let none = Seq::<char>::empty();
    assert(all + none =~= all);
    assert(s + none =~= s);
    assert forall|i: int| 0 <= i < s.len() implies #[trigger] is_code_at(s + none, i) by {
        assert(is_code_at(all + none, i));
        assert(all[i] == s[i]);
        if i + 1 < s.len() {
            assert(all[i + 1] == s[i + 1]);
        }
    }
    code_is_read_by_characters(all, none);
    code_is_read_by_characters(s, none);
    assert(tokens(none) =~= Seq::empty());
    let ts = as_tokens(s);
    assert(ts + tokens(none) =~= ts);
    assert(as_tokens(all) + tokens(none) =~= ts.push(as_token(c)));
    if s.len() > 0 {
        assert(ts.last() == as_token(s.last()));
    }
    spaced_push(ts, as_token(c));
    spaced_push(single_spaced(ts), as_token(c));
    spaced_push(single_spaced(ts), Token::Symbol(' '));
    assert(normalized(s) + seq![c] =~= normalized(s).push(c));
    assert(normalized(s) + seq![' '] =~= normalized(s).push(' '));
}

/// Whether a token is a comment or white space.
pub open spec fn is_gap(t: Token) -> bool {
    match t {
        Token::Comment => true,
        Token::Literal(_) => false,
        Token::Symbol(c) => white_space(c),
    }
}

/// The tokens of a normalized text: all those of the text but comments and white space, in
/// order, and one space for each run of comments and white space.
pub proof fn normalizing_goes_token_by_token(ts: Seq<Token>, t: Token)
    ensures
        single_spaced(Seq::empty()) == Seq::<Token>::empty(),
        !is_gap(t) ==> single_spaced(ts.push(t)) == single_spaced(ts).push(t),
        is_gap(t) && ts.len() > 0 && is_gap(ts.last()) ==> single_spaced(ts.push(t))
            == single_spaced(ts),
        is_gap(t) && !(ts.len() > 0 && is_gap(ts.last())) ==> single_spaced(ts.push(t))
            == single_spaced(ts).push(Token::Symbol(' ')),
{
    spaced_push(ts, t);
    assert(single_spaced(Seq::empty()) =~= Seq::empty());
}

proof fn spaced_of_two(a: Seq<Token>, b: Seq<Token>)
    requires
        a.len() > 0 && b.len() > 0 ==> !(is_blank(a.last()) && is_blank(b.first())),
    ensures
        single_spaced(a + b) == single_spaced(a) + single_spaced(b),
    decreases b.len(),
{
    let all = a + b;
    if b.len() == 0 {
        assert(all =~= a);
        assert(single_spaced(a) + single_spaced(b) =~= single_spaced(a));
    } else {
        spaced_of_two(a, b.drop_last());
        assert(all.drop_last() =~= a + b.drop_last());
        if b.len() >= 2 {
            assert(all[all.len() - 2] == b[b.len() - 2]);
        } else if a.len() > 0 {
            assert(all[all.len() - 2] == a.last());
        }
        assert(single_spaced(all) =~= single_spaced(a) + single_spaced(b));
    }
}

/// A text can be normalized in two parts, if the first is simple and does not end with
/// white space.
pub proof fn parts_are_normalized_one_by_one(s: Seq<char>, more: Seq<char>)
    requires
        is_simple(s),
        s.len() > 0 ==> !white_space(s.last()),
    ensures
        normalized(s + more) == normalized(s) + normalized(more),
{
    simple_text_is_read_by_characters(s, more);
    let ts = as_tokens(s);
    if s.len() > 0 {
        assert(ts.last() == as_token(s.last()));
    }
    spaced_of_two(ts, tokens(more));
    render_of_two(single_spaced(ts), single_spaced(tokens(more)));
}

/// To normalize a text leaves its string literals alone.
pub proof fn normalizing_keeps_literals(s: Seq<char>, q: char, text: Seq<char>, more: Seq<char>)
    requires
        is_simple(s),
        q == '"' || q == '\'',
        quotable(text, q),
    ensures
        normalized(s + (seq![q] + text + seq![q]) + more) == normalized(s) + (seq![q] + text
            + seq![q]) + normalized(more),
{
    let literal = seq![q] + text + seq![q];
    let l = seq![Token::Literal(literal)];
    let ts = as_tokens(s);
    assert(s + literal + more =~= s + (literal + more));
    simple_text_is_read_by_characters(s, literal + more);
    a_string_literal_is_one_token(q, text, more);
    spaced_of_two(ts, l + tokens(more));
    spaced_of_two(l, tokens(more));
    let none = Seq::<Token>::empty();
    spaced_push(none, l[0]);
    assert(none.push(l[0]) =~= l);
    assert(single_spaced(none) =~= none);
    assert(render(none) =~= Seq::empty());
    assert(single_spaced(l) =~= l);
    render_of_two(single_spaced(ts), l + single_spaced(tokens(more)));
    render_of_two(l, single_spaced(tokens(more)));
    assert(render(l) =~= literal);
    assert(normalized(s) + (literal + normalized(more)) =~= normalized(s) + literal + normalized(
        more,
    ));
}

proof fn blanks_are_alike(front: Seq<Token>, a: Token, b: Token, back: Seq<Token>)
    requires
        is_blank(a),
        is_blank(b),
    ensures
        single_spaced(front.push(a) + back) == single_spaced(front.push(b) + back),
    decreases back.len(),
{
    let x = front.push(a) + back;
    let y = front.push(b) + back;
    if back.len() == 0 {
        assert(x =~= front.push(a));
        assert(y =~= front.push(b));
        spaced_push(front, a);
        spaced_push(front, b);
    } else {
        let init = back.drop_last();
        blanks_are_alike(front, a, b, init);
        assert(x.drop_last() =~= front.push(a) + init);
        assert(y.drop_last() =~= front.push(b) + init);
        if back.len() >= 2 {
            assert(x[x.len() - 2] == y[y.len() - 2]);
        } else {
            assert(x[x.len() - 2] == a && y[y.len() - 2] == b);
        }
    }
}

/// To normalize a text treats a comment as a space.
pub proof fn a_comment_is_normalized_like_a_space(s: Seq<char>, text: Seq<char>, more: Seq<char>)
    requires
        is_simple(s),
    ensures
        ends_no_block(text) ==> normalized(s + (seq!['/', '*'] + text + seq!['*', '/']) + more)
            == normalized(s + seq![' '] + more),
        !text.contains('\n') ==> normalized(
            s + (seq!['-', '-'] + text) + (seq!['\n'] + more),
        ) == normalized(s + seq![' '] + (seq!['\n'] + more)),
{
    let ts = as_tokens(s);
    let space = as_token(' ');
    assert(s + seq![' '] + more =~= s + (seq![' '] + more));
    simple_text_is_read_by_characters(s, seq![' '] + more);
    one_character(' ', more);
    assert(ts + (seq![space] + tokens(more)) =~= ts.push(space) + tokens(more));
    if ends_no_block(text) {
        let comment = seq!['/', '*'] + text + seq!['*', '/'];
        assert(s + comment + more =~= s + (comment + more));
        simple_text_is_read_by_characters(s, comment + more);
        a_block_comment_is_one_token(text, more);
        assert(ts + (seq![Token::Comment] + tokens(more)) =~= ts.push(Token::Comment) + tokens(
            more,
        ));
        blanks_are_alike(ts, Token::Comment, space, tokens(more));
    }
    if !text.contains('\n') {
        let rest = seq!['\n'] + more;
        let comment = seq!['-', '-'] + text;
        assert(s + seq![' '] + rest =~= s + (seq![' '] + rest));
        simple_text_is_read_by_characters(s, seq![' '] + rest);
        one_character(' ', rest);
        assert(ts + (seq![space] + tokens(rest)) =~= ts.push(space) + tokens(rest));
        assert(s + comment + rest =~= s + (comment + seq!['\n'] + more));
        simple_text_is_read_by_characters(s, comment + seq!['\n'] + more);
        a_line_comment_is_one_token(text, more);
        assert(ts + (seq![Token::Comment] + tokens(rest)) =~= ts.push(Token::Comment) + tokens(
            rest,
        ));
        blanks_are_alike(ts, Token::Comment, space, tokens(rest));
    }
}

} // verus!
