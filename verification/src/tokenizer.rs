//! The line tokenizer: a character-by-character state machine that applies
//! the shell's quoting and escaping rules.
//!
//! The rules, stated over one input character at a time:
//! - Unquoted: whitespace ends the current token; a backslash escapes the
//!   next character; `'` and `"` enter the matching quoting mode. Entering a
//!   quote flushes the accumulated token only when its last character is
//!   whitespace, so a quote adjacent to non-whitespace text continues the
//!   same token.
//! - Single quotes: every character is literal until the closing `'`.
//! - Double quotes: a backslash escapes only `\`, `$`, `"` and a literal
//!   newline; before any other character the backslash is kept. The closing
//!   `"` returns to unquoted mode.
//! - An unterminated quote or a trailing backslash is not an error: the
//!   token ends with whatever was accumulated.

use vstd::prelude::*;

use crate::text::char_is_whitespace;
use crate::text::chars_to_string;
use crate::text::is_space;
use crate::text::to_chars;

verus! {

/// Quoting mode of the tokenizer.
#[derive(Clone, Copy, PartialEq, Eq, Structural)]
pub enum Quoting {
    Unquoted,
    Single,
    Double,
}

/// Full state of the lexer: mode, pending escape, the token being
/// accumulated, and the tokens already produced.
#[verifier::ext_equal]
pub struct LexState {
    pub quoting: Quoting,
    pub escape: bool,
    pub cur: Seq<char>,
    pub toks: Seq<Seq<char>>,
}

/// The state the lexer starts in.
pub open spec fn lex_init() -> LexState {
    LexState {
        quoting: Quoting::Unquoted,
        escape: false,
        cur: Seq::empty(),
        toks: Seq::empty(),
    }
}

/// One transition of the lexer on one input character.
pub open spec fn lex_step(st: LexState, c: char) -> LexState {
    if st.escape {
        let keep_backslash = st.quoting is Double && !(c == '\\' || c == '$' || c == '"' || c
            == '\n');
        LexState {
            escape: false,
            cur: if keep_backslash {
                st.cur.push('\\').push(c)
            } else {
                st.cur.push(c)
            },
            ..st
        }
    } else {
        match st.quoting {
            Quoting::Single => if c == '\'' {
                LexState { quoting: Quoting::Unquoted, ..st }
            } else {
                LexState { cur: st.cur.push(c), ..st }
            },
            Quoting::Double => if c == '"' {
                LexState { quoting: Quoting::Unquoted, ..st }
            } else if c == '\\' {
                LexState { escape: true, ..st }
            } else {
                LexState { cur: st.cur.push(c), ..st }
            },
            Quoting::Unquoted => if c == '\\' {
                LexState { escape: true, ..st }
            } else if c == '"' || c == '\'' {
                let q = if c == '"' {
                    Quoting::Double
                } else {
                    Quoting::Single
                };
                if st.cur.len() > 0 && is_space(st.cur.last()) {
                    LexState { quoting: q, cur: Seq::empty(), toks: st.toks.push(st.cur), ..st }
                } else {
                    LexState { quoting: q, ..st }
                }
            } else if is_space(c) {
                if st.cur.len() > 0 {
                    LexState { cur: Seq::empty(), toks: st.toks.push(st.cur), ..st }
                } else {
                    st
                }
            } else {
                LexState { cur: st.cur.push(c), ..st }
            },
        }
    }
}

/// Runs the lexer over a whole character sequence.
pub open spec fn lex_run(st: LexState, s: Seq<char>) -> LexState
    decreases s.len(),
{
    if s.len() == 0 {
        st
    } else {
        lex_run(lex_step(st, s[0]), s.drop_first())
    }
}

/// The tokens a final state yields: a non-empty accumulator becomes the
/// last token.
pub open spec fn lex_finish(st: LexState) -> Seq<Seq<char>> {
    if st.cur.len() > 0 {
        st.toks.push(st.cur)
    } else {
        st.toks
    }
}

/// The tokens of one already-trimmed input line.
pub open spec fn tokenize(s: Seq<char>) -> Seq<Seq<char>> {
    lex_finish(lex_run(lex_init(), s))
}

/// The sequence without its leading whitespace.
pub open spec fn ltrim(s: Seq<char>) -> Seq<char>
    decreases s.len(),
{
    if s.len() > 0 && is_space(s[0]) {
        ltrim(s.drop_first())
    } else {
        s
    }
}

/// The sequence without its trailing whitespace.
pub open spec fn rtrim(s: Seq<char>) -> Seq<char>
    decreases s.len(),
{
    if s.len() > 0 && is_space(s.last()) {
        rtrim(s.drop_last())
    } else {
        s
    }
}

/// The sequence without leading and trailing whitespace.
pub open spec fn trimmed(s: Seq<char>) -> Seq<char> {
    rtrim(ltrim(s))
}

/// No character of the sequence is a quote or a backslash, so the lexer's
/// quoting machinery never engages on it.
pub open spec fn no_quoting_chars(s: Seq<char>) -> bool {
    forall|i: int| 0 <= i < s.len() ==> s[i] != '\'' && s[i] != '"' && s[i] != '\\'
}

/// The longest prefix of non-whitespace characters.
pub open spec fn leading_word(s: Seq<char>) -> Seq<char>
    decreases s.len(),
{
    if s.len() > 0 && !is_space(s[0]) {
        seq![s[0]] + leading_word(s.drop_first())
    } else {
        Seq::empty()
    }
}

/// Splitting on runs of whitespace: the maximal non-whitespace runs of the
/// sequence, in order.
pub open spec fn split_ws(s: Seq<char>) -> Seq<Seq<char>>
    decreases s.len(),
    via split_ws_decreases
{
    if s.len() == 0 {
        Seq::empty()
    } else if is_space(s[0]) {
        split_ws(s.drop_first())
    } else {
        seq![leading_word(s)] + split_ws(s.skip(leading_word(s).len() as int))
    }
}

#[via_fn]
proof fn split_ws_decreases(s: Seq<char>) {
    if s.len() > 0 && !is_space(s[0]) {
        lemma_leading_word_len(s);
    }
}

proof fn lemma_leading_word_len(s: Seq<char>)
    ensures
        leading_word(s).len() <= s.len(),
        s.len() > 0 && !is_space(s[0]) ==> leading_word(s).len() >= 1,
    decreases s.len(),
{
    if s.len() > 0 && !is_space(s[0]) {
        lemma_leading_word_len(s.drop_first());
    }
}

proof fn lemma_lex_run_push(st: LexState, s: Seq<char>, c: char)
    ensures
        lex_run(st, s.push(c)) == lex_step(lex_run(st, s), c),
    decreases s.len(),
{
    if s.len() == 0 {
        assert(s.push(c)[0] == c);
        assert(s.push(c).drop_first() =~= Seq::<char>::empty());
        assert(lex_run(st, s.push(c)) == lex_run(lex_step(st, c), Seq::<char>::empty()));
        assert(lex_run(lex_step(st, c), Seq::<char>::empty()) == lex_step(st, c));
        assert(lex_run(st, s) == st);
    } else {
        assert(s.push(c)[0] == s[0]);
        assert(s.push(c).drop_first() =~= s.drop_first().push(c));
        lemma_lex_run_push(lex_step(st, s[0]), s.drop_first(), c);
    }
}

proof fn lemma_ltrim_skip(s: Seq<char>, k: int)
    requires
        0 <= k <= s.len(),
        forall|j: int| 0 <= j < k ==> is_space(s[j]),
        k == s.len() || !is_space(s[k]),
    ensures
        ltrim(s) == s.skip(k),
    decreases k,
{
    if k == 0 {
        assert(s.skip(0) =~= s);
    } else {
        assert(is_space(s[0]));
        lemma_ltrim_skip(s.drop_first(), k - 1);
        assert(s.drop_first().skip(k - 1) =~= s.skip(k));
    }
}

proof fn lemma_rtrim_take(s: Seq<char>, k: int)
    requires
        0 <= k <= s.len(),
        forall|j: int| k <= j < s.len() ==> is_space(s[j]),
        k == 0 || !is_space(s[k - 1]),
    ensures
        rtrim(s) == s.take(k),
    decreases s.len(),
{
    if s.len() == k {
        assert(s.take(k) =~= s);
    } else {
        assert(is_space(s.last()));
        lemma_rtrim_take(s.drop_last(), k);
        assert(s.drop_last().take(k) =~= s.take(k));
    }
}

/// The index of the first non-whitespace character, or the length.
fn scan_ws_start(chars: &Vec<char>) -> (r: usize)
    ensures
        r <= chars@.len(),
        forall|j: int| 0 <= j < r ==> is_space(chars@[j]),
        r < chars@.len() ==> !is_space(chars@[r as int]),
{
    let mut i: usize = 0;
    while i < chars.len()
        invariant
            i <= chars@.len(),
            forall|j: int| 0 <= j < i ==> is_space(chars@[j]),
        decreases chars@.len() - i,
    {
        if !char_is_whitespace(chars[i]) {
            return i;
        }
        i = i + 1;
    }
    i
}

/// The index just past the last non-whitespace character at or after
/// `start`, or `start` if there is none.
fn scan_ws_end(chars: &Vec<char>, start: usize) -> (r: usize)
    requires
        start <= chars@.len(),
    ensures
        start <= r <= chars@.len(),
        forall|j: int| r <= j < chars@.len() ==> is_space(chars@[j]),
        r > start ==> !is_space(chars@[r - 1]),
{
    let mut i: usize = chars.len();
    while i > start
        invariant
            start <= i <= chars@.len(),
            forall|j: int| i <= j < chars@.len() ==> is_space(chars@[j]),
        decreases i,
    {
        if !char_is_whitespace(chars[i - 1]) {
            return i;
        }
        i = i - 1;
    }
    i
}

/// Splits one raw input line into its tokens: the line is trimmed of
/// surrounding whitespace, then run through the lexer.
pub fn parse_input(input: &str) -> (tokens: Vec<String>)
    ensures
        tokens.deep_view() == tokenize(trimmed(input@)),
{
    let chars = to_chars(input);
    let start = scan_ws_start(&chars);
    let end = scan_ws_end(&chars, start);
    let ghost line = input@.subrange(start as int, end as int);
    proof {
        lemma_ltrim_skip(input@, start as int);
        lemma_rtrim_take(input@.skip(start as int), end - start as int);
        assert(input@.skip(start as int).take(end - start as int) =~= line);
        assert(trimmed(input@) == line);
    }
    let mut quoting = Quoting::Unquoted;
    let mut escape = false;
    let mut cur: Vec<char> = Vec::new();
    let mut toks: Vec<String> = Vec::new();
    let mut i: usize = start;
    proof {
        assert(line.take(0) =~= Seq::<char>::empty());
    }
    while i < end
        invariant
            start <= i <= end <= chars@.len(),
            chars@ == input@,
            line == input@.subrange(start as int, end as int),
            quoting == lex_run(lex_init(), line.take(i - start)).quoting,
            escape == lex_run(lex_init(), line.take(i - start)).escape,
            cur@ == lex_run(lex_init(), line.take(i - start)).cur,
            toks.deep_view() == lex_run(lex_init(), line.take(i - start)).toks,
        decreases end - i,
    {
        let ghost st = lex_run(lex_init(), line.take(i - start));
        let c = chars[i];
        proof {
            assert(line.take(i + 1 - start) =~= line.take(i - start).push(c));
            lemma_lex_run_push(lex_init(), line.take(i - start), c);
        }
        let ghost st2 = lex_step(st, c);
        if escape {
            let keep_backslash = match quoting {
                Quoting::Double => !(c == '\\' || c == '$' || c == '"' || c == '\n'),
                _ => false,
            };
            if keep_backslash {
                cur.push('\\');
            }
            cur.push(c);
            escape = false;
        } else {
            match quoting {
                Quoting::Single => {
                    if c == '\'' {
                        quoting = Quoting::Unquoted;
                    } else {
                        cur.push(c);
                    }
                },
                Quoting::Double => {
                    if c == '"' {
                        quoting = Quoting::Unquoted;
                    } else if c == '\\' {
                        escape = true;
                    } else {
                        cur.push(c);
                    }
                },
                Quoting::Unquoted => {
                    if c == '\\' {
                        escape = true;
                    } else if c == '"' || c == '\'' {
                        let flush = cur.len() > 0 && char_is_whitespace(cur[cur.len() - 1]);
                        if flush {
                            let ghost before = toks.deep_view();
                            let t = chars_to_string(&cur);
                            toks.push(t);
                            cur = Vec::new();
                            proof {
                                assert(toks.deep_view() =~= before.push(st.cur));
                            }
                        }
                        quoting = if c == '"' {
                            Quoting::Double
                        } else {
                            Quoting::Single
                        };
                    } else if char_is_whitespace(c) {
                        if cur.len() > 0 {
                            let ghost before = toks.deep_view();
                            let t = chars_to_string(&cur);
                            toks.push(t);
                            cur = Vec::new();
                            proof {
                                assert(toks.deep_view() =~= before.push(st.cur));
                            }
                        }
                    } else {
                        cur.push(c);
                    }
                },
            }
        }
        proof {
            assert(cur@ == st2.cur);
            assert(toks.deep_view() == st2.toks);
        }
        i = i + 1;
    }
    proof {
        assert(line.take(end - start as int) =~= line);
    }
    if cur.len() > 0 {
        let ghost before = toks.deep_view();
        let t = chars_to_string(&cur);
        toks.push(t);
        proof {
            assert(toks.deep_view() =~= before.push(cur@));
        }
    }
    toks
}

proof fn lemma_leading_word_concat(t: Seq<char>, s2: Seq<char>)
    requires
        forall|j: int| 0 <= j < t.len() ==> !is_space(t[j]),
        s2.len() == 0 || is_space(s2[0]),
    ensures
        leading_word(t + s2) == t,
    decreases t.len(),
{
    if t.len() == 0 {
        assert(t + s2 =~= s2);
        assert(leading_word(s2) =~= t);
    } else {
        assert((t + s2)[0] == t[0]);
        assert((t + s2).drop_first() =~= t.drop_first() + s2);
        lemma_leading_word_concat(t.drop_first(), s2);
        assert(seq![t[0]] + t.drop_first() =~= t);
    }
}

proof fn lemma_lex_plain(cur: Seq<char>, toks: Seq<Seq<char>>, s: Seq<char>)
    requires
        no_quoting_chars(s),
        forall|j: int| 0 <= j < cur.len() ==> !is_space(cur[j]),
    ensures
        lex_finish(
            lex_run(LexState { quoting: Quoting::Unquoted, escape: false, cur, toks }, s),
        ) == toks + split_ws(cur + s),
    decreases s.len(),
{
    let st = LexState { quoting: Quoting::Unquoted, escape: false, cur, toks };
    if s.len() == 0 {
        assert(cur + s =~= cur);
        if cur.len() > 0 {
            lemma_leading_word_concat(cur, Seq::empty());
            assert(cur + Seq::<char>::empty() =~= cur);
            assert(leading_word(cur) == cur);
            assert(cur.skip(cur.len() as int) =~= Seq::<char>::empty());
            assert(!is_space(cur[0]));
            assert(split_ws(Seq::<char>::empty()) == Seq::<Seq<char>>::empty());
            assert(split_ws(cur) == seq![cur] + Seq::<Seq<char>>::empty());
            assert(split_ws(cur) =~= seq![cur]);
            assert(toks + seq![cur] =~= toks.push(cur));
        } else {
            assert(split_ws(cur) =~= Seq::<Seq<char>>::empty());
            assert(toks + Seq::<Seq<char>>::empty() =~= toks);
        }
    } else {
        let c = s[0];
        let rest = s.drop_first();
        assert(no_quoting_chars(rest));
        assert(c != '\\' && c != '"' && c != '\'');
        if !is_space(c) {
            let st2 = lex_step(st, c);
            assert(st2 == LexState { quoting: Quoting::Unquoted, escape: false, cur: cur.push(c), toks });
            lemma_lex_plain(cur.push(c), toks, rest);
            assert(cur.push(c) + rest =~= cur + s);
        } else if cur.len() > 0 {
            let st2 = lex_step(st, c);
            assert(st2 == LexState {
                quoting: Quoting::Unquoted,
                escape: false,
                cur: Seq::empty(),
                toks: toks.push(cur),
            });
            lemma_lex_plain(Seq::empty(), toks.push(cur), rest);
            assert(Seq::<char>::empty() + rest =~= rest);
            // split_ws(cur + s) peels off exactly cur, then skips the space.
            lemma_leading_word_concat(cur, s);
            assert((cur + s)[0] == cur[0]);
            assert(!is_space(cur[0]));
            assert(leading_word(cur + s) == cur);
            assert((cur + s).skip(cur.len() as int) =~= s);
            assert(split_ws(cur + s) == seq![cur] + split_ws(s));
            assert(split_ws(s) == split_ws(rest));
            assert(toks.push(cur) + split_ws(rest) =~= toks + (seq![cur] + split_ws(rest)));
        } else {
            let st2 = lex_step(st, c);
            assert(st2 == st);
            lemma_lex_plain(cur, toks, rest);
            assert(cur + rest =~= rest);
            assert(cur + s =~= s);
            assert(split_ws(s) == split_ws(rest));
        }
    }
}

proof fn lemma_leading_word_drop_last(s: Seq<char>)
    requires
        s.len() > 0,
        is_space(s.last()),
    ensures
        leading_word(s.drop_last()) == leading_word(s),
    decreases s.len(),
{
    if s.len() > 0 && !is_space(s[0]) {
        assert(s.drop_last()[0] == s[0]);
        lemma_leading_word_drop_last(s.drop_first());
        assert(s.drop_last().drop_first() =~= s.drop_first().drop_last());
    } else {
        if s.drop_last().len() > 0 {
            assert(s.drop_last()[0] == s[0]);
        }
    }
}

proof fn lemma_split_ws_drop_last_space(s: Seq<char>)
    requires
        s.len() > 0,
        is_space(s.last()),
    ensures
        split_ws(s.drop_last()) == split_ws(s),
    decreases s.len(),
{
    if s.len() == 1 {
        assert(s[0] == s.last());
        assert(s.drop_last() =~= Seq::<char>::empty());
        assert(s.drop_first() =~= Seq::<char>::empty());
        assert(split_ws(s) == split_ws(s.drop_first()));
        assert(split_ws(s.drop_last()) == split_ws(s));
    } else if is_space(s[0]) {
        assert(s.drop_last()[0] == s[0]);
        assert(s.drop_first().last() == s.last());
        lemma_split_ws_drop_last_space(s.drop_first());
        assert(s.drop_last().drop_first() =~= s.drop_first().drop_last());
        assert(split_ws(s.drop_last()) == split_ws(s.drop_last().drop_first()));
        assert(split_ws(s) == split_ws(s.drop_first()));
    } else {
        lemma_leading_word_drop_last(s);
        let w = leading_word(s);
        assert(s.drop_last()[0] == s[0]);
        lemma_leading_word_len(s.drop_last());
        assert(w.len() <= s.len() - 1);
        lemma_leading_word_len(s);
        assert(w.len() >= 1);
        assert(s.skip(w.len() as int).last() == s.last());
        lemma_split_ws_drop_last_space(s.skip(w.len() as int));
        assert(s.drop_last().skip(w.len() as int) =~= s.skip(w.len() as int).drop_last());
        assert(split_ws(s) == seq![w] + split_ws(s.skip(w.len() as int)));
        assert(leading_word(s.drop_last()) == w);
        assert(split_ws(s.drop_last()) == seq![w] + split_ws(s.drop_last().skip(w.len() as int)));
        assert(split_ws(s.drop_last().skip(w.len() as int)) == split_ws(
            s.skip(w.len() as int).drop_last(),
        ));
        assert(split_ws(s.drop_last()) == split_ws(s));
    }
}

proof fn lemma_split_ws_ltrim(s: Seq<char>)
    ensures
        split_ws(ltrim(s)) == split_ws(s),
    decreases s.len(),
{
    if s.len() > 0 && is_space(s[0]) {
        lemma_split_ws_ltrim(s.drop_first());
    }
}

proof fn lemma_split_ws_rtrim(s: Seq<char>)
    ensures
        split_ws(rtrim(s)) == split_ws(s),
    decreases s.len(),
{
    if s.len() > 0 && is_space(s.last()) {
        lemma_split_ws_drop_last_space(s);
        lemma_split_ws_rtrim(s.drop_last());
    }
}

proof fn lemma_no_quoting_trim(s: Seq<char>)
    requires
        no_quoting_chars(s),
    ensures
        no_quoting_chars(trimmed(s)),
    decreases s.len(),
{
    assert forall|k: int| 0 <= k <= s.len() implies no_quoting_chars(s.skip(k)) by {
        assert(forall|j: int| 0 <= j < s.skip(k).len() ==> s.skip(k)[j] == s[j + k]);
    }
    assert forall|k: int| 0 <= k <= s.len() implies no_quoting_chars(s.take(k)) by {
        assert(forall|j: int| 0 <= j < s.take(k).len() ==> s.take(k)[j] == s[j]);
    }
    lemma_ltrim_is_skip(s);
    let t = ltrim(s);
    assert(no_quoting_chars(t));
    assert forall|k: int| 0 <= k <= t.len() implies no_quoting_chars(t.take(k)) by {
        assert(forall|j: int| 0 <= j < t.take(k).len() ==> t.take(k)[j] == t[j]);
    }
    lemma_rtrim_is_take(t);
}

proof fn lemma_ltrim_is_skip(s: Seq<char>)
    ensures
        exists|k: int| 0 <= k <= s.len() && ltrim(s) == s.skip(k),
    decreases s.len(),
{
    if s.len() > 0 && is_space(s[0]) {
        lemma_ltrim_is_skip(s.drop_first());
        let k = choose|k: int| 0 <= k <= s.drop_first().len() && ltrim(s.drop_first())
            == s.drop_first().skip(k);
        assert(s.drop_first().skip(k) =~= s.skip(k + 1));
        assert(ltrim(s) == s.skip(k + 1));
    } else {
        assert(s.skip(0) =~= s);
    }
}

proof fn lemma_rtrim_is_take(s: Seq<char>)
    ensures
        exists|k: int| 0 <= k <= s.len() && rtrim(s) == s.take(k),
    decreases s.len(),
{
    if s.len() > 0 && is_space(s.last()) {
        lemma_rtrim_is_take(s.drop_last());
        let k = choose|k: int| 0 <= k <= s.drop_last().len() && rtrim(s.drop_last())
            == s.drop_last().take(k);
        assert(s.drop_last().take(k) =~= s.take(k));
    } else {
        assert(s.take(s.len() as int) =~= s);
    }
}

proof fn lemma_lex_run_tokens_nonempty(st: LexState, s: Seq<char>)
    requires
        forall|i: int| 0 <= i < st.toks.len() ==> st.toks[i].len() > 0,
    ensures
        forall|i: int|
            0 <= i < lex_run(st, s).toks.len() ==> lex_run(st, s).toks[i].len() > 0,
    decreases s.len(),
{
    if s.len() > 0 {
        let st2 = lex_step(st, s[0]);
        assert(forall|i: int| 0 <= i < st2.toks.len() ==> st2.toks[i].len() > 0) by {
            assert(st2.toks == st.toks || st2.toks == st.toks.push(st.cur));
        }
        lemma_lex_run_tokens_nonempty(st2, s.drop_first());
    }
}

/// Law: no token is ever empty. The lexer flushes the accumulator only
/// when it is non-empty, so an empty quoted string contributes nothing.
pub proof fn lemma_tokens_nonempty(s: Seq<char>)
    ensures
        forall|i: int| 0 <= i < tokenize(s).len() ==> tokenize(s)[i].len() > 0,
{
    lemma_lex_run_tokens_nonempty(lex_init(), s);
}

/// Law: on a line that holds no quote and no backslash, tokenizing is
/// exactly splitting on runs of whitespace. This is what `parse_input`
/// computes for such a line, since trimming does not change the runs.
pub proof fn lemma_plain_tokenize_is_split_ws(s: Seq<char>)
    requires
        no_quoting_chars(s),
    ensures
        tokenize(trimmed(s)) == split_ws(s),
{
    lemma_no_quoting_trim(s);
    lemma_lex_plain(Seq::empty(), Seq::empty(), trimmed(s));
    assert(Seq::<char>::empty() + trimmed(s) =~= trimmed(s));
    assert(Seq::<Seq<char>>::empty() + split_ws(trimmed(s)) =~= split_ws(trimmed(s)));
    lemma_split_ws_rtrim(ltrim(s));
    lemma_split_ws_ltrim(s);
}

} // verus!
