//! Turning a query into a glob pattern, and quoting a path for the shell.
use vstd::prelude::*;
use vstd::utf8::{encode_scalar, encode_utf8};
use crate::glob::{glob_matches, law_anchored_pattern_finds_prefixes, law_wrapped_pattern_finds_occurrences, occurs_in, plain};
use crate::text::{is_white_space, push_char, white_space};

verus! {

/// `q` with every maximal run of whitespace replaced by a single `*`.
pub open spec fn collapse_spaces(q: Seq<char>) -> Seq<char>
    decreases q.len(),
{
    if q.len() == 0 {
        Seq::empty()
    } else if !white_space(q.last()) {
        collapse_spaces(q.drop_last()).push(q.last())
    } else if q.len() > 1 && white_space(q[q.len() - 2]) {
        collapse_spaces(q.drop_last())
    } else {
        collapse_spaces(q.drop_last()).push('*')
    }
}

/// The glob for a query: its whitespace runs become `*`; it then ends in `*`, and,
/// unless the match is restricted to the current directory, also starts with `*`.
pub open spec fn query_pattern(q: Seq<char>, restrict_cwd: bool) -> Seq<char> {
    if restrict_cwd {
        collapse_spaces(q).push('*')
    } else {
        seq!['*'] + collapse_spaces(q).push('*')
    }
}

/// Build the glob pattern from the query (runs of whitespace become `*`), wrapped as
/// `fnd*` when restricted to `$PWD`-rooted paths, else as `*fnd*`.
pub fn make_pattern(query: &str, restrict_cwd: bool) -> (r: String)
    ensures
        r@ == query_pattern(query@, restrict_cwd),
{
    let mut s = String::new();
    if !restrict_cwd {
        push_char(&mut s, '*');
    }
    let ghost head: Seq<char> = if restrict_cwd { Seq::empty() } else { seq!['*'] };
    let n = query.unicode_len();
    let mut prev_space = false;
    let mut i: usize = 0;
    while i < n
        invariant
            n == query@.len(),
            i <= n,
            s@ == head + collapse_spaces(query@.take(i as int)),
            prev_space == (i > 0 && white_space(query@[i - 1])),
        decreases n - i,
    {
        let c = query.get_char(i);
        let ghost before = query@.take(i as int);
        let ghost after = query@.take(i + 1);
        proof {
            assert(after.drop_last() =~= before);
            assert(after.last() == c);
            if i > 0 {
                assert(after[after.len() - 2] == query@[i - 1]);
            }
        }
        if is_white_space(c) {
            if !prev_space {
                push_char(&mut s, '*');
            }
            prev_space = true;
        } else {
            push_char(&mut s, c);
            prev_space = false;
        }
        proof {
            assert(s@ =~= head + collapse_spaces(after));
        }
        i = i + 1;
    }
    push_char(&mut s, '*');
    proof {
        assert(query@.take(n as int) =~= query@);
        assert(s@ =~= query_pattern(query@, restrict_cwd));
    }
    s
}

/// `s` with each `'` written as `'\''`, the way to carry a quote inside single quotes.
pub open spec fn escape_quotes(s: Seq<char>) -> Seq<char>
    decreases s.len(),
{
    if s.len() == 0 {
        Seq::empty()
    } else if s.last() == '\'' {
        escape_quotes(s.drop_last()) + seq!['\'', '\\', '\'', '\'']
    } else {
        escape_quotes(s.drop_last()).push(s.last())
    }
}

/// `s` as one single-quoted shell word.
pub open spec fn shell_quoted(s: Seq<char>) -> Seq<char> {
    seq!['\''] + escape_quotes(s).push('\'')
}

/// Quote `s` for the shell: wrap it in `'…'`, writing each `'` inside as `'\''`.
pub fn shquote(s: &str) -> (r: String)
    ensures
        r@ == shell_quoted(s@),
{
    let mut out = String::new();
    push_char(&mut out, '\'');
    let n = s.unicode_len();
    let mut i: usize = 0;
    while i < n
        invariant
            n == s@.len(),
            i <= n,
            out@ == seq!['\''] + escape_quotes(s@.take(i as int)),
        decreases n - i,
    {
        let c = s.get_char(i);
        proof {
            assert(s@.take(i + 1).drop_last() =~= s@.take(i as int));
            assert(s@.take(i + 1).last() == c);
        }
        if c == '\'' {
            push_char(&mut out, '\'');
            push_char(&mut out, '\\');
            push_char(&mut out, '\'');
            push_char(&mut out, '\'');
        } else {
            push_char(&mut out, c);
        }
        proof {
            assert(out@ =~= seq!['\''] + escape_quotes(s@.take(i + 1)));
        }
        i = i + 1;
    }
    push_char(&mut out, '\'');
    proof {
        assert(s@.take(n as int) =~= s@);
        assert(out@ =~= shell_quoted(s@));
    }
    out
}

/// A query word with no whitespace and no glob characters.
pub open spec fn plain_query(q: Seq<char>) -> bool {
    forall|k: int| 0 <= k < q.len() ==> !white_space(#[trigger] q[k]) && q[k] != '*' && q[k] != '?'
}

proof fn lemma_collapse_keeps_plain(q: Seq<char>)
    requires
        forall|k: int| 0 <= k < q.len() ==> !white_space(#[trigger] q[k]),
    ensures
        collapse_spaces(q) == q,
    decreases q.len(),
{
    if q.len() > 0 {
        assert(!white_space(q[q.len() - 1]));
        assert forall|k: int| 0 <= k < q.drop_last().len() implies !white_space(
            #[trigger] q.drop_last()[k],
        ) by {
            assert(q.drop_last()[k] == q[k]);
        }
        lemma_collapse_keeps_plain(q.drop_last());
        assert(q.drop_last().push(q.last()) =~= q);
    }
}

proof fn lemma_encode_concat(a: Seq<char>, b: Seq<char>)
    ensures
        encode_utf8(a + b) == encode_utf8(a) + encode_utf8(b),
    decreases a.len(),
{
    if a.len() > 0 {
        assert((a + b).drop_first() =~= a.drop_first() + b);
        assert((a + b)[0] == a[0]);
        lemma_encode_concat(a.drop_first(), b);
        assert(encode_utf8(a + b) =~= encode_utf8(a) + encode_utf8(b));
    } else {
        assert(a + b =~= b);
        assert(encode_utf8(a) =~= Seq::<u8>::empty());
        assert(encode_utf8(a) + encode_utf8(b) =~= encode_utf8(b));
    }
}

proof fn lemma_encode_star()
    ensures
        encode_utf8(seq!['*']) == seq![42u8],
{
    let v: u32 = '*' as u32;
    assert(v == 42);
    assert(((42u32 & 0x7Fu32) as u8) == 42u8) by (bit_vector);
    let star = seq!['*'];
    assert(star.drop_first() =~= Seq::<char>::empty());
    assert(encode_utf8(star.drop_first()) =~= Seq::<u8>::empty());
    assert(star[0] as u32 == 42u32);
    assert(encode_scalar(42u32) =~= seq![42u8]);
    assert(encode_utf8(star) == encode_scalar(star[0] as u32) + encode_utf8(star.drop_first()));
    assert(encode_utf8(star) =~= seq![42u8]);
}

proof fn lemma_scalar_plain(c: char)
    requires
        c != '*',
        c != '?',
    ensures
        plain(encode_scalar(c as u32)),
{
    let v = c as u32;
    assert(v != 42 && v != 63);
    assert(forall|x: u32| x <= 0x7F && x != 42 && x != 63 ==> #[trigger] ((x & 0x7F) as u8) != 42u8 && ((x & 0x7F) as u8) != 63u8) by (bit_vector);
    assert(forall|x: u8| #[trigger] (0xC0u8 | x) >= 0x80u8) by (bit_vector);
    assert(forall|x: u8| #[trigger] (0xE0u8 | x) >= 0x80u8) by (bit_vector);
    assert(forall|x: u8| #[trigger] (0xF0u8 | x) >= 0x80u8) by (bit_vector);
    assert(forall|x: u8| #[trigger] (0x80u8 | x) >= 0x80u8) by (bit_vector);
    let e = encode_scalar(v);
    assert forall|k: int| 0 <= k < e.len() implies !crate::glob::is_star(#[trigger] e[k]) && e[k] != 63u8 by {
    }
}

proof fn lemma_encode_plain(q: Seq<char>)
    requires
        plain_query(q),
    ensures
        plain(encode_utf8(q)),
    decreases q.len(),
{
    if q.len() > 0 {
        assert(q[0] != '*' && q[0] != '?' && !white_space(q[0]));
        lemma_scalar_plain(q[0]);
        assert forall|k: int| 0 <= k < q.drop_first().len() implies !white_space(
            #[trigger] q.drop_first()[k],
        ) && q.drop_first()[k] != '*' && q.drop_first()[k] != '?' by {
            assert(q.drop_first()[k] == q[k + 1]);
        }
        lemma_encode_plain(q.drop_first());
        let a = encode_scalar(q[0] as u32);
        let b = encode_utf8(q.drop_first());
        assert forall|k: int| 0 <= k < (a + b).len() implies !crate::glob::is_star(#[trigger] (a + b)[k])
            && (a + b)[k] != 63u8 by {
            if k < a.len() {
                assert((a + b)[k] == a[k]);
            } else {
                assert((a + b)[k] == b[k - a.len()]);
            }
        }
    }
}

/// For a plain query, the pattern `*query*` matches exactly the paths that contain the
/// query, and the `-c` pattern `query*` exactly the paths that start with it (as UTF-8 bytes).
pub proof fn law_plain_query_selects_paths_containing_it(q: Seq<char>, path: Seq<char>)
    requires
        plain_query(q),
    ensures
        glob_matches(encode_utf8(query_pattern(q, false)), encode_utf8(path)) <==> occurs_in(
            encode_utf8(q),
            encode_utf8(path),
        ),
        glob_matches(encode_utf8(query_pattern(q, true)), encode_utf8(path)) <==> ({
            let lit = encode_utf8(q);
            let text = encode_utf8(path);
            lit.len() <= text.len() && text.subrange(0, lit.len() as int) == lit
        }),
{
    lemma_collapse_keeps_plain(q);
    lemma_encode_plain(q);
    lemma_encode_star();
    let lit = encode_utf8(q);
    assert(query_pattern(q, true) =~= q + seq!['*']);
    assert(query_pattern(q, false) =~= seq!['*'] + q + seq!['*']);
    lemma_encode_concat(q, seq!['*']);
    lemma_encode_concat(seq!['*'], q);
    lemma_encode_concat(seq!['*'] + q, seq!['*']);
    law_wrapped_pattern_finds_occurrences(lit, encode_utf8(path));
    law_anchored_pattern_finds_prefixes(lit, encode_utf8(path));
}

/// `Some(head + x)` for `Some(x)`; nothing for nothing.
pub open spec fn prefixed(head: Seq<char>, r: Option<Seq<char>>) -> Option<Seq<char>> {
    match r {
        Some(x) => Some(head + x),
        None => None,
    }
}

/// The value the shell reads from a word built of single-quoted stretches and
/// backslash-escaped characters (`in_quotes`: reading inside `'…'`); nothing when a
/// quote is left open or a backslash ends the word.
pub open spec fn shell_word_value(w: Seq<char>, in_quotes: bool) -> Option<Seq<char>>
    decreases w.len(),
{
    if w.len() == 0 {
        if in_quotes {
            None
        } else {
            Some(Seq::empty())
        }
    } else if in_quotes {
        if w[0] == '\'' {
            shell_word_value(w.drop_first(), false)
        } else {
            prefixed(seq![w[0]], shell_word_value(w.drop_first(), true))
        }
    } else if w[0] == '\'' {
        shell_word_value(w.drop_first(), true)
    } else if w[0] == '\\' {
        if w.len() < 2 {
            None
        } else {
            prefixed(seq![w[1]], shell_word_value(w.skip(2), false))
        }
    } else {
        prefixed(seq![w[0]], shell_word_value(w.drop_first(), false))
    }
}

proof fn lemma_read_escaped(s: Seq<char>, rest: Seq<char>)
    ensures
        shell_word_value(escape_quotes(s) + rest, true) == prefixed(s, shell_word_value(rest, true)),
    decreases s.len(),
{
    if s.len() == 0 {
        assert(escape_quotes(s) + rest =~= rest);
        match shell_word_value(rest, true) {
            Some(x) => assert(s + x =~= x),
            None => {},
        }
    } else {
        let c = s.last();
        let piece = if c == '\'' { seq!['\'', '\\', '\'', '\''] } else { seq![c] };
        assert(escape_quotes(s) == escape_quotes(s.drop_last()) + piece);
        assert(escape_quotes(s) + rest =~= escape_quotes(s.drop_last()) + (piece + rest));
        lemma_read_escaped(s.drop_last(), piece + rest);
        let w = piece + rest;
        if c == '\'' {
            let w1 = seq!['\\', '\'', '\''] + rest;
            let w2 = seq!['\''] + rest;
            assert(w.drop_first() =~= w1);
            assert(w1.skip(2) =~= w2);
            assert(w2.drop_first() =~= rest);
            assert(w[0] == '\'');
            assert(shell_word_value(w, true) == shell_word_value(w1, false));
            assert(w1[0] == '\\' && w1[1] == '\'' && w1.len() >= 2);
            assert(shell_word_value(w1, false) == prefixed(seq!['\''], shell_word_value(w2, false)));
            assert(w2[0] == '\'');
            assert(shell_word_value(w2, false) == shell_word_value(rest, true));
        } else {
            assert(w.drop_first() =~= rest);
        }
        match shell_word_value(rest, true) {
            Some(x) => {
                assert(s.drop_last() + (seq![c] + x) =~= s + x);
            },
            None => {},
        }
    }
}

/// The shell reads the quoted word back as exactly the string that was quoted.
pub proof fn law_quoted_word_reads_back(s: Seq<char>)
    ensures
        shell_word_value(shell_quoted(s), false) == Some(s),
{
    let q = shell_quoted(s);
    assert(q.drop_first() =~= escape_quotes(s) + seq!['\'']);
    lemma_read_escaped(s, seq!['\'']);
    let close = seq!['\''];
    assert(close.drop_first() =~= Seq::<char>::empty());
    assert(close[0] == '\'');
    assert(shell_word_value(close.drop_first(), false) == Some(Seq::<char>::empty()));
    assert(shell_word_value(close, true) == Some(Seq::<char>::empty()));
    assert(s + Seq::<char>::empty() =~= s);
}

} // verus!
