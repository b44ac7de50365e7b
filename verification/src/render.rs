//! Rendering tokens back to source text, and the proof that the
//! tokenizer reads the rendering back token for token.

use vstd::prelude::*;
use vstd::string::*;
use crate::chars::{
    is_ws_char, is_alpha_char, is_digit_char, is_id_char, digit_val, digit_char_of, dec_of,
    push_char,
};
use crate::lexer::{
    Token, TokenV, skip_ws, scan_id_end, scan_digit_end, keyword_of, punct_token, escape_char,
    scan_string, StrScan, spec_next_token, NextTok, spec_tokenize, digits_val, LexErr,
};

verus! {

/// How one character of a quoted string's body is written: the quote
/// and the backslash take an escape, everything else stands for
/// itself.
pub open spec fn escape_one(c: char) -> Seq<char> {
    if c == '"' || c == '\\' {
        seq!['\\', c]
    } else {
        seq![c]
    }
}

/// The written body of a quoted string.
pub open spec fn escape_body(s: Seq<char>) -> Seq<char>
    decreases s.len(),
{
    if s.len() == 0 {
        Seq::empty()
    } else {
        escape_one(s[0]) + escape_body(s.drop_first())
    }
}

/// The source text of one token.
pub open spec fn token_text(t: TokenV) -> Seq<char> {
    match t {
        TokenV::Ident(s) => s,
        TokenV::QuotedString(s) => seq!['"'] + escape_body(s) + seq!['"'],
        TokenV::Integer(n) => if n < 0 {
            seq!['-'] + dec_of(-n)
        } else {
            dec_of(n)
        },
        TokenV::Root => "tree"@,
        TokenV::Subtree => "subtree"@,
        TokenV::Selector => "selector"@,
        TokenV::Sequence => "sequence"@,
        TokenV::Priority => "priority"@,
        TokenV::Inverter => "inverter"@,
        TokenV::LeftBracket => seq!['{'],
        TokenV::RightBracket => seq!['}'],
        TokenV::Comma => seq![','],
        TokenV::Colon => seq![':'],
        TokenV::LeftParenthesis => seq!['('],
        TokenV::RightParenthesis => seq![')'],
        TokenV::LeftArray => seq!['['],
        TokenV::RightArray => seq![']'],
        TokenV::Plus => seq!['+'],
        TokenV::Minus => seq!['-'],
        TokenV::Multiply => seq!['*'],
        TokenV::Divide => seq!['/'],
    }
}

/// The source text of a token stream: each token followed by one
/// space.
pub open spec fn render_tokens(ts: Seq<TokenV>) -> Seq<char>
    decreases ts.len(),
{
    if ts.len() == 0 {
        Seq::empty()
    } else {
        token_text(ts[0]) + seq![' '] + render_tokens(ts.drop_first())
    }
}

/// A token the tokenizer can read back: identifiers are words that are
/// no reserved words, and integers fit the tokenizer's range.
pub open spec fn wf_token(t: TokenV) -> bool {
    match t {
        TokenV::Ident(s) => crate::printer::wf_ident(s),
        TokenV::Integer(n) => i64::MIN < n <= i64::MAX,
        _ => true,
    }
}

pub open spec fn wf_tokens(ts: Seq<TokenV>) -> bool {
    forall|k: int| 0 <= k < ts.len() ==> wf_token(#[trigger] ts[k])
}

/// One character of a window, read in place.
proof fn cwindow_index(s: Seq<char>, i: int, p: Seq<char>, k: int)
    requires
        0 <= i,
        i + p.len() <= s.len(),
        s.subrange(i, i + p.len()) == p,
        0 <= k < p.len(),
    ensures
        s[i + k] == p[k],
{
    assert(p[k] == s.subrange(i, i + p.len())[k]);
}

/// A window over a part of a window.
proof fn cwindow_sub(s: Seq<char>, i: int, p: Seq<char>, d: int, q: Seq<char>)
    requires
        0 <= i,
        i + p.len() <= s.len(),
        s.subrange(i, i + p.len()) == p,
        0 <= d,
        d + q.len() <= p.len(),
        forall|k: int| 0 <= k < q.len() ==> #[trigger] q[k] == p[d + k],
    ensures
        s.subrange(i + d, i + d + q.len()) == q,
{
    assert forall|k: int| 0 <= k < q.len() implies s.subrange(i + d, i + d + q.len())[k]
        == q[k] by {
        assert(s.subrange(i + d, i + d + q.len())[k] == s[i + d + k]);
        assert(s.subrange(i, i + p.len())[d + k] == s[i + d + k]);
        assert(q[k] == p[d + k]);
    }
    assert(s.subrange(i + d, i + d + q.len()) =~= q);
}

/// Every character of a decimal rendering is a digit.
proof fn lemma_dec_digits(n: int)
    requires
        n >= 0,
    ensures
        dec_of(n).len() >= 1,
        forall|k: int| 0 <= k < dec_of(n).len() ==> is_digit_char(#[trigger] dec_of(n)[k]),
    decreases n,
{
    if n >= 10 {
        lemma_dec_digits(n / 10);
        let p = dec_of(n / 10);
        let d = digit_char_of(n % 10);
        assert(is_digit_char(d));
        assert forall|k: int| 0 <= k < dec_of(n).len() implies is_digit_char(
            #[trigger] dec_of(n)[k],
        ) by {
            if k < p.len() {
                assert(dec_of(n)[k] == p[k]);
            } else {
                assert(dec_of(n)[k] == d);
            }
        }
    } else {
        assert(is_digit_char(digit_char_of(n)));
    }
}

/// Reading a decimal rendering back gives the value it renders.
proof fn lemma_digits_val_dec(n: int)
    requires
        n >= 0,
    ensures
        digits_val(dec_of(n)) == n,
    decreases n,
{
    if n >= 10 {
        lemma_digits_val_dec(n / 10);
        let w = dec_of(n);
        assert(w.drop_last() =~= dec_of(n / 10));
        assert(w.last() == digit_char_of(n % 10));
        assert(digit_val(digit_char_of(n % 10)) == n % 10);
        assert(digits_val(w) == digits_val(dec_of(n / 10)) * 10 + (n % 10));
    } else {
        let w = dec_of(n);
        assert(w.len() == 1);
        assert(w.drop_last() =~= Seq::<char>::empty());
        assert(digits_val(Seq::<char>::empty()) == 0);
        assert(digits_val(w) == digits_val(w.drop_last()) * 10 + digit_val(w.last()));
        assert(digits_val(w) == digit_val(w.last()));
        assert(digit_val(digit_char_of(n)) == n);
    }
}

/// A window of identifier characters followed by a non-identifier
/// character scans to exactly its end.
proof fn lemma_scan_id_window(s: Seq<char>, i: int, w: Seq<char>)
    requires
        0 <= i,
        i + w.len() < s.len(),
        s.subrange(i, i + w.len()) == w,
        forall|k: int| 0 <= k < w.len() ==> is_id_char(#[trigger] w[k]),
        !is_id_char(s[i + w.len()]),
    ensures
        scan_id_end(s, i) == i + w.len(),
    decreases w.len(),
{
    if w.len() == 0 {
    } else {
        cwindow_index(s, i, w, 0);
        assert(is_id_char(s[i]));
        let w2 = w.drop_first();
        assert(forall|k: int| 0 <= k < w2.len() ==> #[trigger] w2[k] == w[1 + k]);
        cwindow_sub(s, i, w, 1, w2);
        lemma_scan_id_window(s, i + 1, w2);
    }
}

/// The same for digits.
proof fn lemma_scan_digit_window(s: Seq<char>, i: int, w: Seq<char>)
    requires
        0 <= i,
        i + w.len() < s.len(),
        s.subrange(i, i + w.len()) == w,
        forall|k: int| 0 <= k < w.len() ==> is_digit_char(#[trigger] w[k]),
        !is_digit_char(s[i + w.len()]),
    ensures
        scan_digit_end(s, i) == i + w.len(),
    decreases w.len(),
{
    if w.len() == 0 {
    } else {
        cwindow_index(s, i, w, 0);
        assert(is_digit_char(s[i]));
        let w2 = w.drop_first();
        assert(forall|k: int| 0 <= k < w2.len() ==> #[trigger] w2[k] == w[1 + k]);
        cwindow_sub(s, i, w, 1, w2);
        lemma_scan_digit_window(s, i + 1, w2);
    }
}

/// Scanning the written body of a quoted string, with the closing
/// quote after it, recovers the body.
proof fn lemma_scan_string_window(s: Seq<char>, i: int, b: Seq<char>)
    requires
        0 <= i,
        i + escape_body(b).len() + 1 <= s.len(),
        s.subrange(i, i + escape_body(b).len()) == escape_body(b),
        s[i + escape_body(b).len()] == '"',
    ensures
        scan_string(s, i) == StrScan::Body(b, i + escape_body(b).len() + 1),
    decreases b.len(),
{
    let eb = escape_body(b);
    if b.len() == 0 {
        assert(s[i] == '"');
        assert(b =~= Seq::<char>::empty());
    } else {
        let c = b[0];
        let e0 = escape_one(c);
        let rest = escape_body(b.drop_first());
        assert(eb == e0 + rest);
        assert(forall|k: int| 0 <= k < rest.len() ==> #[trigger] rest[k] == eb[e0.len() + k]) by {
            assert(forall|k: int| 0 <= k < rest.len() ==> (e0 + rest)[e0.len() + k]
                == #[trigger] rest[k]);
        }
        cwindow_sub(s, i, eb, e0.len() as int, rest);
        if c == '"' || c == '\\' {
            cwindow_index(s, i, eb, 0);
            cwindow_index(s, i, eb, 1);
            assert(s[i] == '\\');
            assert(s[i + 1] == c);
            lemma_scan_string_window(s, i + 2, b.drop_first());
            assert(escape_char(c) == c);
            assert(seq![c] + b.drop_first() =~= b);
        } else {
            cwindow_index(s, i, eb, 0);
            assert(s[i] == c);
            lemma_scan_string_window(s, i + 1, b.drop_first());
            assert(seq![c] + b.drop_first() =~= b);
        }
    }
}

/// The tokenizer reads one rendered token, standing anywhere in the
/// text with a space after it, back as exactly that token.
proof fn lemma_lex_one(t: TokenV, s: Seq<char>, i: int)
    requires
        wf_token(t),
        0 <= i,
        i + token_text(t).len() < s.len(),
        s.subrange(i, i + token_text(t).len()) == token_text(t),
        s[i + token_text(t).len()] == ' ',
    ensures
        spec_next_token(s, i) == NextTok::Tok(t, i + token_text(t).len()),
{
    let w = token_text(t);
    match t {
        TokenV::Ident(name) => {
            cwindow_index(s, i, w, 0);
            let c = s[i];
            assert(c == name[0]);
            assert(is_alpha_char(c));
            assert(punct_token(c) is None);
            assert(!is_ws_char(c));
            assert(skip_ws(s, i) == i);
            lemma_scan_id_window(s, i, name);
        }
        TokenV::QuotedString(b) => {
            let eb = escape_body(b);
            let a = seq!['"'];
            assert(w =~= a + eb + a);
            assert(forall|k: int| 0 <= k < eb.len() ==> #[trigger] eb[k] == (a + eb + a)[1 + k]);
            cwindow_index(s, i, w, 0);
            assert(s[i] == '"');
            assert(skip_ws(s, i) == i);
            cwindow_sub(s, i, w, 1, eb);
            cwindow_index(s, i, w, 1 + eb.len() as int);
            assert(s[i + 1 + eb.len()] == '"');
            lemma_scan_string_window(s, i + 1, b);
        }
        TokenV::Integer(n) => {
            if n >= 0 {
                let d = dec_of(n);
                assert(w == d);
                lemma_dec_digits(n);
                cwindow_index(s, i, w, 0);
                let c = s[i];
                assert(c == d[0]);
                assert(is_digit_char(c));
                assert(punct_token(c) is None);
                assert(!is_alpha_char(c));
                assert(c != '"');
                assert(!is_ws_char(c));
                assert(skip_ws(s, i) == i);
                assert(!is_digit_char(s[i + d.len()]));
                lemma_scan_digit_window(s, i, d);
                assert(s.subrange(i, i + d.len()) == d);
                lemma_digits_val_dec(n);
            } else {
                let d = dec_of(-n);
                assert(w =~= seq!['-'] + d);
                lemma_dec_digits(-n);
                assert(forall|k: int| 0 <= k < d.len() ==> #[trigger] d[k]
                    == (seq!['-'] + d)[1 + k]);
                cwindow_index(s, i, w, 0);
                assert(s[i] == '-');
                assert(skip_ws(s, i) == i);
                cwindow_sub(s, i, w, 1, d);
                cwindow_index(s, i, w, 1);
                assert(s[i + 1] == d[0]);
                assert(is_digit_char(s[i + 1]));
                assert(!is_digit_char(s[i + 1 + d.len()]));
                lemma_scan_digit_window(s, i + 1, d);
                lemma_digits_val_dec(-n);
                assert(digits_val(s.subrange(i + 1, i + 1 + d.len())) == -n);
            }
        }
        TokenV::Root => {
            lemma_lex_keyword(s, i, w);
            assert(keyword_of(w) == Some(TokenV::Root));
        }
        TokenV::Subtree => {
            lemma_lex_keyword(s, i, w);
            assert(keyword_of(w) == Some(TokenV::Subtree)) by {
                reveal_strlit("tree");
                reveal_strlit("subtree");
            }
        }
        TokenV::Selector => {
            lemma_lex_keyword(s, i, w);
            assert(keyword_of(w) == Some(TokenV::Selector)) by {
                reveal_strlit("tree");
                reveal_strlit("subtree");
                reveal_strlit("selector");
            }
        }
        TokenV::Sequence => {
            lemma_lex_keyword(s, i, w);
            assert(keyword_of(w) == Some(TokenV::Sequence)) by {
                reveal_strlit("tree");
                reveal_strlit("subtree");
                reveal_strlit("selector");
                reveal_strlit("sequence");
                assert("sequence"@[2] != "selector"@[2]);
            }
        }
        TokenV::Priority => {
            lemma_lex_keyword(s, i, w);
            assert(keyword_of(w) == Some(TokenV::Priority)) by {
                reveal_strlit("tree");
                reveal_strlit("subtree");
                reveal_strlit("selector");
                reveal_strlit("sequence");
                reveal_strlit("inverter");
                reveal_strlit("priority");
                assert("priority"@[0] != "selector"@[0]);
                assert("priority"@[0] != "sequence"@[0]);
                assert("priority"@[0] != "inverter"@[0]);
            }
        }
        TokenV::Inverter => {
            lemma_lex_keyword(s, i, w);
            assert(keyword_of(w) == Some(TokenV::Inverter)) by {
                reveal_strlit("tree");
                reveal_strlit("subtree");
                reveal_strlit("selector");
                reveal_strlit("sequence");
                reveal_strlit("inverter");
                assert("inverter"@[0] != "selector"@[0]);
                assert("inverter"@[0] != "sequence"@[0]);
            }
        }
        TokenV::Minus => {
            cwindow_index(s, i, w, 0);
            assert(s[i] == '-');
            assert(skip_ws(s, i) == i);
            assert(!is_digit_char(s[i + 1]));
        }
        _ => {
            cwindow_index(s, i, w, 0);
            assert(!is_ws_char(s[i]));
            assert(skip_ws(s, i) == i);
        }
    }
}

/// A rendered keyword scans as one word whose text is the keyword.
proof fn lemma_lex_keyword(s: Seq<char>, i: int, w: Seq<char>)
    requires
        0 <= i,
        i + w.len() < s.len(),
        s.subrange(i, i + w.len()) == w,
        s[i + w.len()] == ' ',
        w == "tree"@ || w == "subtree"@ || w == "selector"@ || w == "sequence"@ || w
            == "priority"@ || w == "inverter"@,
    ensures
        skip_ws(s, i) == i,
        scan_id_end(s, i) == i + w.len(),
        s.subrange(i, scan_id_end(s, i)) == w,
        punct_token(s[i]) is None,
        is_alpha_char(s[i]),
    decreases w.len(),
{
    reveal_strlit("tree");
    reveal_strlit("subtree");
    reveal_strlit("selector");
    reveal_strlit("sequence");
    reveal_strlit("priority");
    reveal_strlit("inverter");
    assert(forall|k: int| 0 <= k < w.len() ==> is_id_char(#[trigger] w[k])) by {
        assert forall|k: int| 0 <= k < w.len() implies is_id_char(#[trigger] w[k]) by {
            if w == "tree"@ {
                assert(w[0] == 't' && w[1] == 'r' && w[2] == 'e' && w[3] == 'e');
            } else if w == "subtree"@ {
                assert(w[0] == 's' && w[1] == 'u' && w[2] == 'b' && w[3] == 't' && w[4] == 'r'
                    && w[5] == 'e' && w[6] == 'e');
            } else if w == "selector"@ {
                assert(w[0] == 's' && w[1] == 'e' && w[2] == 'l' && w[3] == 'e' && w[4] == 'c'
                    && w[5] == 't' && w[6] == 'o' && w[7] == 'r');
            } else if w == "sequence"@ {
                assert(w[0] == 's' && w[1] == 'e' && w[2] == 'q' && w[3] == 'u' && w[4] == 'e'
                    && w[5] == 'n' && w[6] == 'c' && w[7] == 'e');
            } else if w == "priority"@ {
                assert(w[0] == 'p' && w[1] == 'r' && w[2] == 'i' && w[3] == 'o' && w[4] == 'r'
                    && w[5] == 'i' && w[6] == 't' && w[7] == 'y');
            } else {
                assert(w[0] == 'i' && w[1] == 'n' && w[2] == 'v' && w[3] == 'e' && w[4] == 'r'
                    && w[5] == 't' && w[6] == 'e' && w[7] == 'r');
            }
        }
    }
    cwindow_index(s, i, w, 0);
    assert(is_alpha_char(s[i]));
    assert(punct_token(s[i]) is None);
    assert(!is_ws_char(s[i]));
    assert(!is_id_char(s[i + w.len()]));
    lemma_scan_id_window(s, i, w);
}

/// Reading tokens resumes identically after a whitespace character.
proof fn lemma_ws_step(s: Seq<char>, j: int)
    requires
        0 <= j < s.len(),
        is_ws_char(s[j]),
    ensures
        spec_tokenize(s, j) == spec_tokenize(s, j + 1),
{
    assert(skip_ws(s, j) == skip_ws(s, j + 1));
    assert(spec_next_token(s, j) == spec_next_token(s, j + 1));
    crate::lexer::lemma_next_token_advances(s, j + 1);
    match spec_next_token(s, j + 1) {
        NextTok::Tok(t, k) => {
            assert(j + 1 < k <= s.len());
            assert(spec_tokenize(s, j) == (match spec_tokenize(s, k) {
                Ok(rest) => Ok::<Seq<TokenV>, LexErr>(seq![t] + rest),
                Err(e) => Err::<Seq<TokenV>, LexErr>(e),
            }));
            assert(spec_tokenize(s, j + 1) == (match spec_tokenize(s, k) {
                Ok(rest) => Ok::<Seq<TokenV>, LexErr>(seq![t] + rest),
                Err(e) => Err::<Seq<TokenV>, LexErr>(e),
            }));
        }
        _ => {}
    }
}

/// Tokenizing the rendering of a token stream, standing at the tail of
/// the text, gives the stream back.
proof fn lemma_rt_lex(ts: Seq<TokenV>, s: Seq<char>, i: int)
    requires
        wf_tokens(ts),
        0 <= i <= s.len(),
        i + render_tokens(ts).len() == s.len(),
        s.subrange(i, s.len() as int) == render_tokens(ts),
    ensures
        spec_tokenize(s, i) == Ok::<Seq<TokenV>, LexErr>(ts),
    decreases ts.len(),
{
    let p = render_tokens(ts);
    if ts.len() == 0 {
        assert(i == s.len());
        assert(skip_ws(s, i) == i);
        assert(spec_next_token(s, i) == NextTok::End);
        assert(ts =~= Seq::<TokenV>::empty());
    } else {
        let t0 = ts[0];
        let text = token_text(t0);
        let rest = ts.drop_first();
        let pr = render_tokens(rest);
        assert(p =~= text + seq![' '] + pr);
        assert(forall|k: int| 0 <= k < text.len() ==> #[trigger] text[k]
            == (text + seq![' '] + pr)[k]);
        assert(forall|k: int| 0 <= k < pr.len() ==> #[trigger] pr[k]
            == (text + seq![' '] + pr)[text.len() + 1 + k]);
        cwindow_sub(s, i, p, 0, text);
        let j = i + text.len();
        cwindow_index(s, i, p, text.len() as int);
        assert(s[j] == ' ');
        assert(wf_token(t0));
        lemma_lex_one(t0, s, i);
        cwindow_sub(s, i, p, text.len() as int + 1, pr);
        assert(i + p.len() == j + 1 + pr.len());
        assert(s.subrange(j + 1, s.len() as int) == pr) by {
            assert(j + 1 + pr.len() == s.len());
        }
        assert(wf_tokens(rest)) by {
            assert(forall|k: int| 0 <= k < rest.len() ==> rest[k] == #[trigger] ts[k + 1]);
        }
        lemma_rt_lex(rest, s, j + 1);
        assert(is_ws_char(s[j]));
        lemma_ws_step(s, j);
        assert(spec_tokenize(s, j) == Ok::<Seq<TokenV>, LexErr>(rest));
        assert(i < j + 0 || text.len() > 0) by {
            lemma_token_text_nonempty(t0);
        }
        assert(i < j <= s.len());
        assert(spec_tokenize(s, i) == Ok::<Seq<TokenV>, LexErr>(seq![t0] + rest));
        assert(seq![t0] + rest =~= ts);
    }
}

/// Every token renders as at least one character.
proof fn lemma_token_text_nonempty(t: TokenV)
    requires
        wf_token(t),
    ensures
        token_text(t).len() >= 1,
{
    reveal_strlit("tree");
    reveal_strlit("subtree");
    reveal_strlit("selector");
    reveal_strlit("sequence");
    reveal_strlit("priority");
    reveal_strlit("inverter");
    match t {
        TokenV::Integer(n) => {
            if n >= 0 {
                lemma_dec_digits(n);
            } else {
                lemma_dec_digits(-n);
            }
        }
        _ => {}
    }
}

/// The tokenizer reads a rendered token stream back token for token.
pub proof fn lemma_tokenize_render(ts: Seq<TokenV>)
    requires
        wf_tokens(ts),
    ensures
        spec_tokenize(render_tokens(ts), 0) == Ok::<Seq<TokenV>, LexErr>(ts),
{
    let s = render_tokens(ts);
    assert(s.subrange(0, s.len() as int) =~= s);
    lemma_rt_lex(ts, s, 0);
}

/// Well-formed tokens stay well-formed under concatenation.
proof fn lemma_wf_concat(a: Seq<TokenV>, b: Seq<TokenV>)
    requires
        wf_tokens(a),
        wf_tokens(b),
    ensures
        wf_tokens(a + b),
{
    assert forall|k: int| 0 <= k < (a + b).len() implies wf_token(#[trigger] (a + b)[k]) by {
        if k < a.len() {
            assert((a + b)[k] == a[k]);
        } else {
            assert((a + b)[k] == b[k - a.len()]);
        }
    }
}

/// Every token a producible value prints is one the tokenizer can
/// read back.
proof fn lemma_wf_print_value(v: crate::value::ValueV)
    requires
        crate::printer::wf_value(v),
    ensures
        wf_tokens(crate::printer::print_value(v)),
    decreases v, 0int,
{
    match v {
        crate::value::ValueV::Dict(entries) => {
            lemma_wf_print_entries(entries);
            lemma_wf_concat(seq![TokenV::LeftBracket], crate::printer::print_entries(entries));
            lemma_wf_concat(
                seq![TokenV::LeftBracket] + crate::printer::print_entries(entries),
                seq![TokenV::RightBracket],
            );
        }
        crate::value::ValueV::List(items) => {
            lemma_wf_print_elems(items);
            lemma_wf_concat(seq![TokenV::LeftArray], crate::printer::print_elems(items));
            lemma_wf_concat(
                seq![TokenV::LeftArray] + crate::printer::print_elems(items),
                seq![TokenV::RightArray],
            );
        }
        _ => {
            assert(wf_tokens(crate::printer::print_value(v)));
        }
    }
}

proof fn lemma_wf_print_entries(entries: Seq<(Seq<char>, crate::value::ValueV)>)
    requires
        crate::printer::wf_entries(entries),
    ensures
        wf_tokens(crate::printer::print_entries(entries)),
    decreases entries, 1int,
{
    if entries.len() == 0 {
    } else {
        lemma_wf_print_value(entries[0].1);
        let head = seq![TokenV::Ident(entries[0].0), TokenV::Colon];
        assert(wf_tokens(head));
        lemma_wf_concat(head, crate::printer::print_value(entries[0].1));
        if entries.len() > 1 {
            lemma_wf_print_entries(entries.drop_first());
            lemma_wf_concat(
                head + crate::printer::print_value(entries[0].1),
                seq![TokenV::Comma],
            );
            lemma_wf_concat(
                head + crate::printer::print_value(entries[0].1) + seq![TokenV::Comma],
                crate::printer::print_entries(entries.drop_first()),
            );
        }
    }
}

proof fn lemma_wf_print_elems(items: Seq<crate::value::ValueV>)
    requires
        crate::printer::wf_elems(items),
    ensures
        wf_tokens(crate::printer::print_elems(items)),
    decreases items, 2int,
{
    if items.len() == 0 {
    } else {
        lemma_wf_print_elem(items[0]);
        if items.len() > 1 {
            lemma_wf_print_elems(items.drop_first());
            lemma_wf_concat(crate::printer::print_value(items[0]), seq![TokenV::Comma]);
            lemma_wf_concat(
                crate::printer::print_value(items[0]) + seq![TokenV::Comma],
                crate::printer::print_elems(items.drop_first()),
            );
        }
    }
}

proof fn lemma_wf_print_elem(v: crate::value::ValueV)
    requires
        crate::printer::wf_elem(v),
    ensures
        wf_tokens(crate::printer::print_value(v)),
    decreases v, 1int,
{
    match v {
        crate::value::ValueV::Unk(_) => {
            assert(wf_tokens(crate::printer::print_value(v)));
        }
        other => {
            lemma_wf_print_value(other);
        }
    }
}

/// Every token a producible node prints is one the tokenizer can read
/// back.
proof fn lemma_wf_print_node(n: crate::ast::NodeV)
    requires
        crate::printer::wf_node(n),
    ensures
        wf_tokens(crate::printer::print_node(n)),
    decreases n, 0int,
{
    match n {
        crate::ast::NodeV::Leaf(name, opt) => {
            match opt {
                None => {
                    assert(wf_tokens(crate::printer::print_node(n)));
                }
                Some(v) => {
                    lemma_wf_print_value(v);
                    let head = seq![TokenV::Ident(name), TokenV::LeftParenthesis];
                    assert(wf_tokens(head));
                    lemma_wf_concat(head, crate::printer::print_value(v));
                    lemma_wf_concat(
                        head + crate::printer::print_value(v),
                        seq![TokenV::RightParenthesis],
                    );
                }
            }
        }
        crate::ast::NodeV::Sequence(cs) => {
            lemma_wf_print_children(cs);
            lemma_wf_print_composite(TokenV::Sequence, cs);
        }
        crate::ast::NodeV::Selector(cs) => {
            lemma_wf_print_children(cs);
            lemma_wf_print_composite(TokenV::Selector, cs);
        }
        crate::ast::NodeV::Priority(cs) => {
            lemma_wf_print_children(cs);
            lemma_wf_print_composite(TokenV::Priority, cs);
        }
        crate::ast::NodeV::Inverter(c) => {
            lemma_wf_print_node(*c);
            let head = seq![TokenV::Inverter, TokenV::LeftBracket];
            assert(wf_tokens(head));
            lemma_wf_concat(head, crate::printer::print_node(*c));
            lemma_wf_concat(
                head + crate::printer::print_node(*c),
                seq![TokenV::RightBracket],
            );
        }
    }
}

proof fn lemma_wf_print_composite(kw: TokenV, cs: Seq<crate::ast::NodeV>)
    requires
        wf_token(kw),
        wf_tokens(crate::printer::print_children(cs)),
    ensures
        wf_tokens(
            seq![kw, TokenV::LeftBracket] + crate::printer::print_children(cs) + seq![
                TokenV::RightBracket,
            ],
        ),
{
    let head = seq![kw, TokenV::LeftBracket];
    assert(wf_tokens(head));
    lemma_wf_concat(head, crate::printer::print_children(cs));
    lemma_wf_concat(
        head + crate::printer::print_children(cs),
        seq![TokenV::RightBracket],
    );
}

proof fn lemma_wf_print_children(cs: Seq<crate::ast::NodeV>)
    requires
        crate::printer::wf_children(cs),
    ensures
        wf_tokens(crate::printer::print_children(cs)),
    decreases cs, 1int,
{
    if cs.len() == 0 {
    } else {
        lemma_wf_print_node(cs[0]);
        if cs.len() > 1 {
            lemma_wf_print_children(cs.drop_first());
            lemma_wf_concat(crate::printer::print_node(cs[0]), seq![TokenV::Comma]);
            lemma_wf_concat(
                crate::printer::print_node(cs[0]) + seq![TokenV::Comma],
                crate::printer::print_children(cs.drop_first()),
            );
        }
    }
}

proof fn lemma_wf_print_tree(t: crate::ast::TreeV)
    requires
        crate::printer::wf_tree(t),
    ensures
        wf_tokens(crate::printer::print_tree(t)),
{
    lemma_wf_print_node(t.root);
    let head = seq![TokenV::Root, TokenV::Ident(t.name), TokenV::LeftBracket];
    assert(wf_tokens(head));
    lemma_wf_concat(head, crate::printer::print_node(t.root));
    lemma_wf_concat(
        head + crate::printer::print_node(t.root),
        seq![TokenV::RightBracket],
    );
}

proof fn lemma_wf_print_trees(ts: Seq<crate::ast::TreeV>)
    requires
        crate::printer::wf_trees(ts),
    ensures
        wf_tokens(crate::printer::print_trees(ts)),
    decreases ts.len(),
{
    if ts.len() > 0 {
        lemma_wf_print_tree(ts[0]);
        lemma_wf_print_trees(ts.drop_first());
        lemma_wf_concat(
            crate::printer::print_tree(ts[0]),
            crate::printer::print_trees(ts.drop_first()),
        );
    }
}

/// Parser round trip over source text: printing any collection of
/// trees the grammar can produce, tokenizing the printed text, and
/// parsing the tokens yields a structurally equal collection.
pub proof fn lemma_parse_print_text_round_trip(trees: Seq<crate::ast::TreeV>)
    requires
        crate::printer::wf_trees(trees),
    ensures
        ({
            let toks = crate::printer::print_trees(trees);
            &&& spec_tokenize(render_tokens(toks), 0) == Ok::<Seq<TokenV>, LexErr>(toks)
            &&& crate::grammar::spec_parse_collection(toks, 0)
                == crate::grammar::PRes::<Seq<crate::ast::TreeV>>::Good(
                trees,
                toks.len() as int,
            )
        }),
{
    lemma_wf_print_trees(trees);
    lemma_tokenize_render(crate::printer::print_trees(trees));
    crate::printer::lemma_parse_print_round_trip(trees);
}

/// Writing a body one character at a time agrees with writing it
/// whole.
proof fn lemma_escape_snoc(b: Seq<char>)
    requires
        b.len() >= 1,
    ensures
        escape_body(b) == escape_body(b.drop_last()) + escape_one(b.last()),
    decreases b.len(),
{
    if b.len() == 1 {
        assert(b.drop_last() =~= Seq::<char>::empty());
        assert(b.drop_first() =~= Seq::<char>::empty());
        assert(escape_body(b) == escape_one(b[0]) + escape_body(b.drop_first()));
        assert(escape_one(b[0]) + Seq::<char>::empty() =~= escape_one(b[0]));
        assert(Seq::<char>::empty() + escape_one(b.last()) =~= escape_one(b.last()));
    } else {
        lemma_escape_snoc(b.drop_first());
        assert(b.drop_first().drop_last() =~= b.drop_last().drop_first());
        assert(b.drop_first().last() == b.last());
        assert(b.drop_last()[0] == b[0]);
        assert(escape_body(b) == escape_one(b[0]) + escape_body(b.drop_first()));
        assert(escape_body(b.drop_last())
            == escape_one(b[0]) + escape_body(b.drop_last().drop_first()));
        assert(escape_one(b[0]) + (escape_body(b.drop_last().drop_first())
            + escape_one(b.last())) =~= (escape_one(b[0])
            + escape_body(b.drop_last().drop_first())) + escape_one(b.last()));
    }
}

/// Rendering streams one token at a time agrees with rendering them
/// whole.
proof fn lemma_render_snoc(ts: Seq<TokenV>)
    requires
        ts.len() >= 1,
    ensures
        render_tokens(ts) == render_tokens(ts.drop_last()) + token_text(ts.last()) + seq![' '],
    decreases ts.len(),
{
    if ts.len() == 1 {
        assert(ts.drop_last() =~= Seq::<TokenV>::empty());
        assert(ts.drop_first() =~= Seq::<TokenV>::empty());
        assert(render_tokens(ts) == token_text(ts[0]) + seq![' '] + render_tokens(
            ts.drop_first(),
        ));
        assert(token_text(ts[0]) + seq![' '] + Seq::<char>::empty()
            =~= Seq::<char>::empty() + token_text(ts.last()) + seq![' ']);
    } else {
        lemma_render_snoc(ts.drop_first());
        assert(ts.drop_first().drop_last() =~= ts.drop_last().drop_first());
        assert(ts.drop_first().last() == ts.last());
        assert(ts.drop_last()[0] == ts[0]);
        assert(render_tokens(ts) == token_text(ts[0]) + seq![' '] + render_tokens(
            ts.drop_first(),
        ));
        assert(render_tokens(ts.drop_last()) == token_text(ts[0]) + seq![' ']
            + render_tokens(ts.drop_last().drop_first()));
        assert(token_text(ts[0]) + seq![' '] + (render_tokens(ts.drop_last().drop_first())
            + token_text(ts.last()) + seq![' ']) =~= (token_text(ts[0]) + seq![' ']
            + render_tokens(ts.drop_last().drop_first())) + token_text(ts.last())
            + seq![' ']);
    }
}

/// Writes the source text of one token.
fn render_token_into(t: &Token, out: &mut String)
    ensures
        final(out)@ == old(out)@ + token_text(t@),
{
    let ghost before = out@;
    match t {
        Token::Ident(name) => {
            out.append(name.as_str());
        }
        Token::QuotedString(body) => {
            push_char(out, '"');
            let ghost b = body@;
            let len = body.as_str().unicode_len();
            let mut k: usize = 0;
            proof {
                assert(b.take(0) =~= Seq::<char>::empty());
                assert(out@ =~= before + seq!['"'] + escape_body(b.take(0)));
            }
            while k < len
                invariant
                    len == b.len(),
                    b == body@,
                    0 <= k <= len,
                    out@ =~= before + seq!['"'] + escape_body(b.take(k as int)),
                decreases len - k,
            {
                let c = body.as_str().get_char(k);
                let ghost prev = out@;
                if c == '"' || c == '\\' {
                    push_char(out, '\\');
                    push_char(out, c);
                    proof {
                        assert(out@ =~= prev + escape_one(c));
                    }
                } else {
                    push_char(out, c);
                    proof {
                        assert(out@ =~= prev + escape_one(c));
                    }
                }
                proof {
                    lemma_escape_snoc(b.take(k + 1 as int));
                    assert(b.take(k + 1 as int).drop_last() =~= b.take(k as int));
                    assert(b.take(k + 1 as int).last() == b[k as int]);
                    assert(out@ =~= before + seq!['"'] + escape_body(b.take(k + 1 as int)));
                }
                k += 1;
            }
            push_char(out, '"');
            proof {
                assert(b.take(len as int) =~= b);
                assert(out@ =~= before + token_text(t@));
            }
        }
        Token::Integer(n) => {
            let d = crate::chars::i64_to_string(*n);
            out.append(d.as_str());
            proof {
                assert(out@ =~= before + token_text(t@));
            }
        }
        Token::Root => out.append("tree"),
        Token::Subtree => out.append("subtree"),
        Token::Selector => out.append("selector"),
        Token::Sequence => out.append("sequence"),
        Token::Priority => out.append("priority"),
        Token::Inverter => out.append("inverter"),
        Token::LeftBracket => {
            push_char(out, '{');
            proof {
                assert(out@ =~= before + token_text(t@));
            }
        }
        Token::RightBracket => {
            push_char(out, '}');
            proof {
                assert(out@ =~= before + token_text(t@));
            }
        }
        Token::Comma => {
            push_char(out, ',');
            proof {
                assert(out@ =~= before + token_text(t@));
            }
        }
        Token::Colon => {
            push_char(out, ':');
            proof {
                assert(out@ =~= before + token_text(t@));
            }
        }
        Token::LeftParenthesis => {
            push_char(out, '(');
            proof {
                assert(out@ =~= before + token_text(t@));
            }
        }
        Token::RightParenthesis => {
            push_char(out, ')');
            proof {
                assert(out@ =~= before + token_text(t@));
            }
        }
        Token::LeftArray => {
            push_char(out, '[');
            proof {
                assert(out@ =~= before + token_text(t@));
            }
        }
        Token::RightArray => {
            push_char(out, ']');
            proof {
                assert(out@ =~= before + token_text(t@));
            }
        }
        Token::Plus => {
            push_char(out, '+');
            proof {
                assert(out@ =~= before + token_text(t@));
            }
        }
        Token::Minus => {
            push_char(out, '-');
            proof {
                assert(out@ =~= before + token_text(t@));
            }
        }
        Token::Multiply => {
            push_char(out, '*');
            proof {
                assert(out@ =~= before + token_text(t@));
            }
        }
        Token::Divide => {
            push_char(out, '/');
            proof {
                assert(out@ =~= before + token_text(t@));
            }
        }
    }
}

/// Renders a token stream as source text, one space after each token.
pub fn render(tokens: &Vec<Token>) -> (r: String)
    ensures
        r@ == render_tokens(tokens.deep_view()),
{
    let ghost ts = tokens.deep_view();
    let mut out = String::new();
    let mut i: usize = 0;
    proof {
        assert(ts.take(0) =~= Seq::<TokenV>::empty());
        assert(out@ =~= render_tokens(ts.take(0)));
    }
    while i < tokens.len()
        invariant
            ts == tokens.deep_view(),
            ts.len() == tokens@.len(),
            forall|j: int| 0 <= j < tokens@.len() ==> ts[j] == tokens@[j]@,
            0 <= i <= tokens@.len(),
            out@ =~= render_tokens(ts.take(i as int)),
        decreases tokens@.len() - i,
    {
        render_token_into(&tokens[i], &mut out);
        push_char(&mut out, ' ');
        proof {
            lemma_render_snoc(ts.take(i + 1 as int));
            assert(ts.take(i + 1 as int).drop_last() =~= ts.take(i as int));
            assert(ts.take(i + 1 as int).last() == ts[i as int]);
            assert(out@ =~= render_tokens(ts.take(i + 1 as int)));
        }
        i += 1;
    }
    proof {
        assert(ts.take(ts.len() as int) =~= ts);
    }
    out
}

/// Prints a collection of trees as source text that parses back to a
/// structurally equal collection.
pub fn print(trees: &Vec<crate::ast::Tree>) -> (r: String)
    ensures
        r@ == render_tokens(crate::printer::print_trees(trees.deep_view())),
{
    let tokens = crate::printer::print_collection_tokens(trees);
    render(&tokens)
}

} // verus!
