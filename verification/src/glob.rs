//! zsh-style string globbing with `*` and `?`, where `*` also crosses `/`.
use vstd::prelude::*;

verus! {

/// The byte `*`: matches any run of bytes, the empty run included.
pub open spec fn is_star(c: u8) -> bool {
    c == 42u8
}

/// A pattern byte that is not `*` matches one text byte: itself, or any byte when it is `?`.
pub open spec fn byte_matches(p: u8, c: u8) -> bool {
    p == c || p == 63u8
}

/// `pat[i..]` matches all of `text[j..]` as a glob.
pub open spec fn glob_from(pat: Seq<u8>, text: Seq<u8>, i: int, j: int) -> bool
    decreases pat.len() - i, text.len() - j,
{
    if i < 0 || j < 0 || j > text.len() {
        false
    } else if i >= pat.len() {
        j == text.len()
    } else if is_star(pat[i]) {
        glob_from(pat, text, i + 1, j) || (j < text.len() && glob_from(pat, text, i, j + 1))
    } else {
        j < text.len() && byte_matches(pat[i], text[j]) && glob_from(pat, text, i + 1, j + 1)
    }
}

/// The whole of `pat` matches the whole of `text`.
pub open spec fn glob_matches(pat: Seq<u8>, text: Seq<u8>) -> bool {
    glob_from(pat, text, 0, 0)
}

/// `pat[a..a+n]` holds no `*` and matches `text[b..b+n]` byte for byte.
pub open spec fn literal_run(pat: Seq<u8>, text: Seq<u8>, a: int, b: int, n: int) -> bool {
    &&& 0 <= a
    &&& 0 <= b
    &&& 0 <= n
    &&& a + n <= pat.len()
    &&& b + n <= text.len()
    &&& forall|k: int|
        a <= k < a + n ==> !is_star(#[trigger] pat[k]) && byte_matches(pat[k], text[b + (k - a)])
}

/// Every byte of `pat[i..]` is `*`.
pub open spec fn only_stars_from(pat: Seq<u8>, i: int) -> bool {
    forall|k: int| i <= k < pat.len() ==> is_star(#[trigger] pat[k])
}

/// Against the empty rest of a text, a pattern rest matches exactly when it is all `*`.
proof fn lemma_at_text_end(pat: Seq<u8>, text: Seq<u8>, i: int)
    requires
        0 <= i <= pat.len(),
    ensures
        glob_from(pat, text, i, text.len() as int) == only_stars_from(pat, i),
    decreases pat.len() - i,
{
    if i < pat.len() {
        lemma_at_text_end(pat, text, i + 1);
        if !is_star(pat[i]) {
            assert(!only_stars_from(pat, i));
        }
    }
}

/// Matching across a literal run is the same as matching after it.
proof fn lemma_literal_run(pat: Seq<u8>, text: Seq<u8>, a: int, b: int, n: int)
    requires
        literal_run(pat, text, a, b, n),
    ensures
        glob_from(pat, text, a, b) == glob_from(pat, text, a + n, b + n),
    decreases n,
{
    if n > 0 {
        assert(!is_star(pat[a]) && byte_matches(pat[a], text[b + (a - a)]));
        assert(literal_run(pat, text, a + 1, b + 1, n - 1)) by {
            assert forall|k: int| a + 1 <= k < a + 1 + (n - 1) implies !is_star(#[trigger] pat[k])
                && byte_matches(pat[k], text[b + 1 + (k - (a + 1))]) by {
                assert(a <= k < a + n);
            }
        }
        lemma_literal_run(pat, text, a + 1, b + 1, n - 1);
    }
}

/// A star-free stretch of the pattern consumes exactly as many text bytes.
proof fn lemma_star_free_consumes(pat: Seq<u8>, text: Seq<u8>, a: int, j: int, n: int)
    requires
        0 <= a,
        0 <= n,
        a + n <= pat.len(),
        0 <= j <= text.len(),
        forall|k: int| a <= k < a + n ==> !is_star(#[trigger] pat[k]),
        glob_from(pat, text, a, j),
    ensures
        j + n <= text.len(),
        glob_from(pat, text, a + n, j + n),
        literal_run(pat, text, a, j, n),
    decreases n,
{
    if n > 0 {
        assert(!is_star(pat[a]));
        lemma_star_free_consumes(pat, text, a + 1, j + 1, n - 1);
        assert forall|k: int| a <= k < a + n implies !is_star(#[trigger] pat[k]) && byte_matches(
            pat[k],
            text[j + (k - a)],
        ) by {
            if k > a {
                assert(byte_matches(pat[k], text[j + 1 + (k - (a + 1))]));
            }
        }
    }
}

/// A `*` that matches from `j` lets the rest of the pattern match from some `k >= j`.
proof fn lemma_star_witness(pat: Seq<u8>, text: Seq<u8>, s: int, j: int)
    requires
        0 <= s < pat.len(),
        is_star(pat[s]),
        0 <= j <= text.len(),
        glob_from(pat, text, s, j),
    ensures
        exists|k: int| j <= k <= text.len() && #[trigger] glob_from(pat, text, s + 1, k),
    decreases text.len() - j,
{
    if glob_from(pat, text, s + 1, j) {
    } else {
        lemma_star_witness(pat, text, s, j + 1);
        let k = choose|k: int| j + 1 <= k <= text.len() && #[trigger] glob_from(pat, text, s + 1, k);
        assert(j <= k <= text.len() && glob_from(pat, text, s + 1, k));
    }
}

/// A `*` that matches from `k` also matches from any earlier position.
proof fn lemma_star_earlier(pat: Seq<u8>, text: Seq<u8>, s: int, j: int, k: int)
    requires
        0 <= s < pat.len(),
        is_star(pat[s]),
        0 <= j <= k <= text.len(),
        glob_from(pat, text, s, k),
    ensures
        glob_from(pat, text, s, j),
    decreases k - j,
{
    if j < k {
        lemma_star_earlier(pat, text, s, j + 1, k);
    }
}

/// Moving the remembered `*` forward to a later `*` keeps the answer.
proof fn lemma_next_star(pat: Seq<u8>, text: Seq<u8>, star: int, mark: int, n: int)
    requires
        0 <= star < pat.len(),
        is_star(pat[star]),
        literal_run(pat, text, star + 1, mark, n),
        star + 1 + n < pat.len(),
        is_star(pat[star + 1 + n]),
    ensures
        glob_from(pat, text, star, mark) == glob_from(pat, text, star + 1 + n, mark + n),
{
    let p = star + 1 + n;
    let t = mark + n;
    lemma_literal_run(pat, text, star + 1, mark, n);
    if glob_from(pat, text, star, mark) {
        lemma_star_witness(pat, text, star, mark);
        let k = choose|k: int| mark <= k <= text.len() && #[trigger] glob_from(pat, text, star + 1, k);
        lemma_star_free_consumes(pat, text, star + 1, k, n);
        lemma_star_earlier(pat, text, p, t, k + n);
    }
}

/// With the text used up, only the alignment at the remembered `*` can still match.
proof fn lemma_end_with_star(pat: Seq<u8>, text: Seq<u8>, star: int, mark: int, n: int)
    requires
        0 <= star < pat.len(),
        is_star(pat[star]),
        literal_run(pat, text, star + 1, mark, n),
        mark + n == text.len(),
    ensures
        glob_from(pat, text, star, mark) == glob_from(pat, text, star + 1 + n, mark + n),
{
    lemma_literal_run(pat, text, star + 1, mark, n);
    if glob_from(pat, text, star, mark) {
        lemma_star_witness(pat, text, star, mark);
        let k = choose|k: int| mark <= k <= text.len() && #[trigger] glob_from(pat, text, star + 1, k);
        lemma_star_free_consumes(pat, text, star + 1, k, n);
    }
}

/// Does the glob `pat` match all of `text`? `*` matches any run of bytes (`/` included),
/// `?` matches exactly one byte, every other byte matches itself.
pub fn glob_match(pat: &[u8], text: &[u8]) -> (r: bool)
    ensures
        r == glob_matches(pat@, text@),
{
    let mut p: usize = 0;
    let mut t: usize = 0;
    let mut star: usize = 0;
    let mut mark: usize = 0;
    let mut has_star: bool = false;
    while t < text.len()
        invariant
            p <= pat.len(),
            t <= text.len(),
            has_star ==> {
                &&& star < p
                &&& is_star(pat@[star as int])
                &&& mark <= t
                &&& p - (star + 1) == t - mark
                &&& literal_run(pat@, text@, star + 1, mark as int, t - mark)
                &&& glob_matches(pat@, text@) == glob_from(pat@, text@, star as int, mark as int)
            },
            !has_star ==> glob_matches(pat@, text@) == glob_from(pat@, text@, p as int, t as int),
        decreases
            (if has_star { text.len() - mark } else { text.len() + 1 }),
            text.len() - t,
            pat.len() - p,
    {
        if p < pat.len() && pat[p] == 42u8 {
            proof {
                if has_star {
                    lemma_next_star(pat@, text@, star as int, mark as int, t - mark);
                }
            }
            star = p;
            mark = t;
            p = p + 1;
            has_star = true;
        } else if p < pat.len() && (pat[p] == text[t] || pat[p] == 63u8) {
            proof {
                if has_star {
                    assert(literal_run(pat@, text@, star + 1, mark as int, t + 1 - mark)) by {
                        assert forall|k: int| star + 1 <= k < star + 1 + (t + 1 - mark) implies !is_star(
                            #[trigger] pat@[k],
                        ) && byte_matches(pat@[k], text@[mark + (k - (star + 1))]) by {
                            if k < p {
                            } else {
                                assert(k == p);
                            }
                        }
                    }
                }
            }
            p = p + 1;
            t = t + 1;
        } else if has_star {
            proof {
                lemma_literal_run(pat@, text@, star + 1, mark as int, t - mark);
                assert(!glob_from(pat@, text@, p as int, t as int));
            }
            p = star + 1;
            mark = mark + 1;
            t = mark;
        } else {
            return false;
        }
    }
    proof {
        if has_star {
            lemma_end_with_star(pat@, text@, star as int, mark as int, t - mark);
        }
        lemma_at_text_end(pat@, text@, p as int);
    }
    let ghost p0 = p;
    while p < pat.len() && pat[p] == 42u8
        invariant
            p0 <= p <= pat.len(),
            forall|k: int| p0 <= k < p ==> is_star(#[trigger] pat@[k]),
        decreases pat.len() - p,
    {
        p = p + 1;
    }
    proof {
        if p < pat.len() {
            assert(!is_star(pat@[p as int]));
        }
    }
    p == pat.len()
}

/// No `*` and no `?`: every byte of `s` stands for itself.
pub open spec fn plain(s: Seq<u8>) -> bool {
    forall|k: int| 0 <= k < s.len() ==> !is_star(#[trigger] s[k]) && s[k] != 63u8
}

/// `lit` occurs in `text` as a contiguous run of bytes.
pub open spec fn occurs_in(lit: Seq<u8>, text: Seq<u8>) -> bool {
    exists|k: int| 0 <= k && k + lit.len() <= text.len() && #[trigger] text.subrange(k, k + lit.len()) == lit
}

/// A trailing `*` matches from any position of the text.
proof fn lemma_final_star(pat: Seq<u8>, text: Seq<u8>, j: int)
    requires
        pat.len() > 0,
        is_star(pat.last()),
        0 <= j <= text.len(),
    ensures
        glob_from(pat, text, pat.len() - 1, j),
{
    let s = pat.len() - 1;
    assert(glob_from(pat, text, s + 1, text.len() as int));
    assert(glob_from(pat, text, s, text.len() as int));
    lemma_star_earlier(pat, text, s, j, text.len() as int);
}

/// A plain stretch of the pattern matches exactly the same bytes of the text.
proof fn lemma_plain_run(pat: Seq<u8>, text: Seq<u8>, a: int, j: int, lit: Seq<u8>)
    requires
        plain(lit),
        0 <= a,
        a + lit.len() <= pat.len(),
        pat.subrange(a, a + lit.len()) == lit,
        0 <= j,
        j + lit.len() <= text.len(),
    ensures
        literal_run(pat, text, a, j, lit.len() as int) <==> text.subrange(j, j + lit.len()) == lit,
{
    let n = lit.len() as int;
    if literal_run(pat, text, a, j, n) {
        assert forall|q: int| 0 <= q < n implies text.subrange(j, j + n)[q] == lit[q] by {
            assert(pat[a + q] == lit[q]);
            assert(!is_star(pat[a + q]) && byte_matches(pat[a + q], text[j + (a + q - a)]));
        }
        assert(text.subrange(j, j + n) =~= lit);
    }
    if text.subrange(j, j + n) == lit {
        assert forall|k: int| a <= k < a + n implies !is_star(#[trigger] pat[k]) && byte_matches(
            pat[k],
            text[j + (k - a)],
        ) by {
            assert(pat[k] == lit[k - a]);
            assert(text.subrange(j, j + n)[k - a] == text[j + (k - a)]);
        }
    }
}

/// `*` alone matches every text, `/` included.
pub proof fn law_star_matches_everything(text: Seq<u8>)
    ensures
        glob_matches(seq![42u8], text),
{
    lemma_final_star(seq![42u8], text, 0);
}

/// `?` alone matches exactly the texts of one byte.
pub proof fn law_question_mark_is_one_byte(text: Seq<u8>)
    ensures
        glob_matches(seq![63u8], text) <==> text.len() == 1,
{
    let pat = seq![63u8];
    if text.len() >= 1 {
        assert(glob_from(pat, text, 1, 1) <==> text.len() == 1);
    }
}

/// A pattern without `*` and `?` matches only the text equal to it.
pub proof fn law_plain_pattern_matches_itself_only(pat: Seq<u8>, text: Seq<u8>)
    requires
        plain(pat),
    ensures
        glob_matches(pat, text) <==> pat == text,
{
    if glob_matches(pat, text) {
        lemma_star_free_consumes(pat, text, 0, 0, pat.len() as int);
        assert(glob_from(pat, text, pat.len() as int, pat.len() as int));
        assert(pat.subrange(0, pat.len() as int) =~= pat);
        lemma_plain_run(pat, text, 0, 0, pat);
        assert(text.subrange(0, pat.len() as int) =~= text);
    }
    if pat == text {
        assert(pat.subrange(0, pat.len() as int) =~= pat);
        assert(text.subrange(0, pat.len() as int) =~= text);
        lemma_plain_run(pat, text, 0, 0, pat);
        lemma_literal_run(pat, text, 0, 0, pat.len() as int);
    }
}

/// `*LIT*`, for a plain `LIT`, matches exactly the texts in which `LIT` occurs.
pub proof fn law_wrapped_pattern_finds_occurrences(lit: Seq<u8>, text: Seq<u8>)
    requires
        plain(lit),
    ensures
        glob_matches(seq![42u8] + lit + seq![42u8], text) <==> occurs_in(lit, text),
{
    let pat = seq![42u8] + lit + seq![42u8];
    let n = lit.len() as int;
    assert(pat.subrange(1, 1 + n) =~= lit);
    assert(is_star(pat[0]) && is_star(pat.last()));
    if glob_matches(pat, text) {
        lemma_star_witness(pat, text, 0, 0);
        let k = choose|k: int| 0 <= k <= text.len() && #[trigger] glob_from(pat, text, 1, k);
        assert forall|q: int| 1 <= q < 1 + n implies !is_star(#[trigger] pat[q]) by {
            assert(pat[q] == lit[q - 1]);
        }
        lemma_star_free_consumes(pat, text, 1, k, n);
        lemma_plain_run(pat, text, 1, k, lit);
        assert(text.subrange(k, k + n) == lit);
    }
    if occurs_in(lit, text) {
        let k = choose|k: int| 0 <= k && k + lit.len() <= text.len() && #[trigger] text.subrange(k, k + lit.len()) == lit;
        lemma_plain_run(pat, text, 1, k, lit);
        lemma_literal_run(pat, text, 1, k, n);
        lemma_final_star(pat, text, k + n);
        assert(glob_from(pat, text, 1, k));
        assert(glob_from(pat, text, 0, k));
        lemma_star_earlier(pat, text, 0, 0, k);
    }
}

/// `LIT*`, for a plain `LIT`, matches exactly the texts that start with `LIT`.
pub proof fn law_anchored_pattern_finds_prefixes(lit: Seq<u8>, text: Seq<u8>)
    requires
        plain(lit),
    ensures
        glob_matches(lit + seq![42u8], text) <==> (lit.len() <= text.len() && text.subrange(
            0,
            lit.len() as int,
        ) == lit),
{
    let pat = lit + seq![42u8];
    let n = lit.len() as int;
    assert(pat.subrange(0, n) =~= lit);
    assert(is_star(pat.last()));
    if glob_matches(pat, text) {
        assert forall|q: int| 0 <= q < n implies !is_star(#[trigger] pat[q]) by {
            assert(pat[q] == lit[q]);
        }
        lemma_star_free_consumes(pat, text, 0, 0, n);
        lemma_plain_run(pat, text, 0, 0, lit);
    }
    if lit.len() <= text.len() && text.subrange(0, n) == lit {
        lemma_plain_run(pat, text, 0, 0, lit);
        lemma_literal_run(pat, text, 0, 0, n);
        lemma_final_star(pat, text, n);
    }
}

} // verus!
