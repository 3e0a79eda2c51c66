//! Character-level helpers: whitespace, trimming, prefixes, joining, number
//! reading and the standard library's string primitives behind contracts.
use vstd::prelude::*;

verus! {

/// Whether `c` has the Unicode `White_Space` property (the whitespace of `char::is_whitespace`
/// and `str::trim`): tab, line feed, vertical tab, form feed, carriage return, space,
/// next line, no-break space, ogham space mark, the spaces U+2000 to U+200A, line and
/// paragraph separators, narrow no-break space, medium mathematical space, ideographic space.
pub open spec fn white_space(c: char) -> bool {
    ||| '\u{9}' <= c <= '\u{d}'
    ||| c == ' '
    ||| c == '\u{85}'
    ||| c == '\u{a0}'
    ||| c == '\u{1680}'
    ||| '\u{2000}' <= c <= '\u{200a}'
    ||| c == '\u{2028}'
    ||| c == '\u{2029}'
    ||| c == '\u{202f}'
    ||| c == '\u{205f}'
    ||| c == '\u{3000}'
}

/// Is `c` whitespace (the Unicode `White_Space` property)?
pub fn is_white_space(c: char) -> (r: bool)
    ensures
        r == white_space(c),
{
    ('\u{9}' <= c && c <= '\u{d}') || c == ' ' || c == '\u{85}' || c == '\u{a0}' || c
        == '\u{1680}' || ('\u{2000}' <= c && c <= '\u{200a}') || c == '\u{2028}' || c
        == '\u{2029}' || c == '\u{202f}' || c == '\u{205f}' || c == '\u{3000}'
}

/// `String::push`. Claimed: the character is appended at the end.
#[verifier::external_body]
pub(crate) fn push_char(s: &mut String, c: char)
    ensures
        final(s)@ == old(s)@.push(c),
{
    s.push(c)
}

/// The characters of `s` mapped to lower case, as `str::to_lowercase` does.
pub uninterp spec fn lowered(s: Seq<char>) -> Seq<char>;

/// `str::to_lowercase`. Claimed: the result is `lowered(s@)`, a function of `s` alone.
#[verifier::external_body]
pub(crate) fn to_lower(s: &str) -> (r: String)
    ensures
        r@ == lowered(s@),
{
    s.to_lowercase()
}

/// An ASCII decimal digit.
pub open spec fn is_digit(c: char) -> bool {
    '0' <= c <= '9'
}

/// Every character of `s` is a decimal digit.
pub open spec fn all_digits(s: Seq<char>) -> bool {
    forall|k: int| 0 <= k < s.len() ==> is_digit(#[trigger] s[k])
}

/// The value of a string of decimal digits.
pub open spec fn digits_value(s: Seq<char>) -> int
    decreases s.len(),
{
    if s.len() == 0 {
        0
    } else {
        digits_value(s.drop_last()) * 10 + (s.last() as int - '0' as int)
    }
}

/// The number that `s` spells in decimal: an optional `+` (or, when `signed`, `-`)
/// followed by one or more digits and nothing else.
pub open spec fn decimal_value(s: Seq<char>, signed: bool) -> Option<int> {
    if s.len() > 0 && (s[0] == '+' || (signed && s[0] == '-')) {
        let d = s.drop_first();
        if d.len() > 0 && all_digits(d) {
            Some(if s[0] == '-' { -digits_value(d) } else { digits_value(d) })
        } else {
            None
        }
    } else if s.len() > 0 && all_digits(s) {
        Some(digits_value(s))
    } else {
        None
    }
}

/// `s` read as an `i64`, when it spells one in range.
pub open spec fn decimal_i64(s: Seq<char>) -> Option<i64> {
    match decimal_value(s, true) {
        Some(v) => if i64::MIN <= v <= i64::MAX {
            Some(v as i64)
        } else {
            None
        },
        None => None,
    }
}

/// `s` read as a `usize`, when it spells one in range.
pub open spec fn decimal_usize(s: Seq<char>) -> Option<usize> {
    match decimal_value(s, false) {
        Some(v) => if 0 <= v <= usize::MAX {
            Some(v as usize)
        } else {
            None
        },
        None => None,
    }
}

/// The value of a prefix of a digit string is at most the value of the whole.
proof fn lemma_digits_prefix(t: Seq<char>, j: int)
    requires
        all_digits(t),
        0 <= j <= t.len(),
    ensures
        0 <= digits_value(t.take(j)) <= digits_value(t),
    decreases t.len(),
{
    if t.len() > 0 {
        let u = t.drop_last();
        assert(all_digits(u)) by {
            assert forall|k: int| 0 <= k < u.len() implies is_digit(#[trigger] u[k]) by {
                assert(u[k] == t[k]);
            }
        }
        assert(is_digit(t[t.len() - 1]));
        if j == t.len() {
            assert(t.take(j) =~= t);
            lemma_digits_prefix(u, u.len() as int);
            assert(u.take(u.len() as int) =~= u);
        } else {
            assert(u.take(j) =~= t.take(j));
            lemma_digits_prefix(u, j);
            lemma_digits_prefix(u, u.len() as int);
            assert(u.take(u.len() as int) =~= u);
        }
    } else {
        assert(t.take(j) =~= t);
    }
}

/// Read `s[from..]` as one or more decimal digits whose value is at most `limit`.
fn read_digits(s: &str, from: usize, limit: u64) -> (r: Option<u64>)
    requires
        from <= s@.len(),
    ensures
        ({
            let t = s@.skip(from as int);
            r == if t.len() > 0 && all_digits(t) && digits_value(t) <= limit {
                Some(digits_value(t) as u64)
            } else {
                None::<u64>
            }
        }),
{
    let ghost t = s@.skip(from as int);
    let n = s.unicode_len();
    if from == n {
        return None;
    }
    let mut acc: u128 = 0;
    let mut k: usize = from;
    while k < n
        invariant
            n == s@.len(),
            from <= k <= n,
            t == s@.skip(from as int),
            all_digits(s@.subrange(from as int, k as int)),
            acc == digits_value(s@.subrange(from as int, k as int)),
            acc <= limit,
        decreases n - k,
    {
        let c = s.get_char(k);
        let ghost before = s@.subrange(from as int, k as int);
        let ghost after = s@.subrange(from as int, k + 1);
        proof {
            assert(after.drop_last() =~= before);
            assert(after.last() == c);
            assert(t.take(k + 1 - from) =~= after);
        }
        if c < '0' || c > '9' {
            proof {
                assert(t[k - from] == c);
            }
            return None;
        }
        acc = acc * 10 + (c as u32 - '0' as u32) as u128;
        proof {
            assert(all_digits(after)) by {
                assert forall|q: int| 0 <= q < after.len() implies is_digit(#[trigger] after[q]) by {
                    if q < before.len() {
                        assert(after[q] == before[q]);
                    }
                }
            }
        }
        if acc > limit as u128 {
            proof {
                if all_digits(t) {
                    lemma_digits_prefix(t, k + 1 - from);
                }
            }
            return None;
        }
        k = k + 1;
    }
    proof {
        assert(s@.subrange(from as int, k as int) =~= t);
    }
    Some(acc as u64)
}

/// Read `s` as an `i64`: an optional `+` or `-` followed by only digits, in range
/// (what `str::parse::<i64>` accepts); anything else gives nothing.
pub fn parse_i64(s: &str) -> (r: Option<i64>)
    ensures
        r == decimal_i64(s@),
{
    let n = s.unicode_len();
    if n == 0 {
        return None;
    }
    let c0 = s.get_char(0);
    proof {
        assert(s@.drop_first() =~= s@.skip(1));
        assert(s@.skip(0) =~= s@);
        if all_digits(s@.skip(1)) {
            lemma_digits_prefix(s@.skip(1), s@.len() - 1);
            assert(s@.skip(1).take(s@.len() - 1) =~= s@.skip(1));
        }
        if all_digits(s@) {
            lemma_digits_prefix(s@, s@.len() as int);
            assert(s@.take(s@.len() as int) =~= s@);
        }
    }
    if c0 == '+' {
        match read_digits(s, 1, 9223372036854775807u64) {
            Some(v) => Some(v as i64),
            None => None,
        }
    } else if c0 == '-' {
        match read_digits(s, 1, 9223372036854775808u64) {
            Some(v) => {
                if v == 9223372036854775808u64 {
                    Some(i64::MIN)
                } else {
                    let w: i64 = v as i64;
                    Some(-w)
                }
            },
            None => None,
        }
    } else {
        match read_digits(s, 0, 9223372036854775807u64) {
            Some(v) => Some(v as i64),
            None => None,
        }
    }
}

/// Read `s` as a `usize`: an optional `+` followed by only digits, in range
/// (what `str::parse::<usize>` accepts); anything else gives nothing.
pub fn parse_usize(s: &str) -> (r: Option<usize>)
    ensures
        r == decimal_usize(s@),
{
    let n = s.unicode_len();
    if n == 0 {
        return None;
    }
    let c0 = s.get_char(0);
    proof {
        assert(s@.drop_first() =~= s@.skip(1));
        assert(s@.skip(0) =~= s@);
        if all_digits(s@.skip(1)) {
            lemma_digits_prefix(s@.skip(1), s@.len() - 1);
            assert(s@.skip(1).take(s@.len() - 1) =~= s@.skip(1));
        }
        if all_digits(s@) {
            lemma_digits_prefix(s@, s@.len() as int);
            assert(s@.take(s@.len() as int) =~= s@);
        }
    }
    let max: u64 = usize::MAX as u64;
    if c0 == '+' {
        match read_digits(s, 1, max) {
            Some(v) => Some(v as usize),
            None => None,
        }
    } else {
        match read_digits(s, 0, max) {
            Some(v) => Some(v as usize),
            None => None,
        }
    }
}

/// `s` without its leading whitespace.
pub open spec fn trim_start(s: Seq<char>) -> Seq<char>
    decreases s.len(),
{
    if s.len() > 0 && white_space(s[0]) {
        trim_start(s.drop_first())
    } else {
        s
    }
}

/// `s` without its trailing whitespace.
pub open spec fn trim_end(s: Seq<char>) -> Seq<char>
    decreases s.len(),
{
    if s.len() > 0 && white_space(s.last()) {
        trim_end(s.drop_last())
    } else {
        s
    }
}

/// `s` without leading and trailing whitespace.
pub open spec fn trimmed(s: Seq<char>) -> Seq<char> {
    trim_end(trim_start(s))
}

/// Trimming from the front is dropping the whitespace before index `i`, when there is only whitespace.
proof fn lemma_trim_start_skip(s: Seq<char>, i: int)
    requires
        0 <= i <= s.len(),
        forall|k: int| 0 <= k < i ==> white_space(#[trigger] s[k]),
    ensures
        trim_start(s) == trim_start(s.skip(i)),
    decreases i,
{
    if i > 0 {
        assert(s.skip(1).skip(i - 1) =~= s.skip(i));
        assert(s.drop_first() =~= s.skip(1));
        lemma_trim_start_skip(s.drop_first(), i - 1);
    } else {
        assert(s.skip(0) =~= s);
    }
}

/// Trimming from the back is dropping the whitespace from index `j` on, when there is only whitespace.
proof fn lemma_trim_end_take(s: Seq<char>, j: int)
    requires
        0 <= j <= s.len(),
        forall|k: int| j <= k < s.len() ==> white_space(#[trigger] s[k]),
    ensures
        trim_end(s) == trim_end(s.take(j)),
    decreases s.len() - j,
{
    if j < s.len() {
        assert(s.drop_last().take(j) =~= s.take(j));
        lemma_trim_end_take(s.drop_last(), j);
    } else {
        assert(s.take(j) =~= s);
    }
}

/// `s` with leading and trailing whitespace removed (`str::trim`).
pub fn trim(s: &str) -> (r: String)
    ensures
        r@ == trimmed(s@),
{
    let n = s.unicode_len();
    let mut i: usize = 0;
    while i < n && is_white_space(s.get_char(i))
        invariant
            n == s@.len(),
            i <= n,
            forall|k: int| 0 <= k < i ==> white_space(#[trigger] s@[k]),
        decreases n - i,
    {
        i = i + 1;
    }
    proof {
        lemma_trim_start_skip(s@, i as int);
        if i < n {
            assert(!white_space(s@.skip(i as int)[0]));
        }
    }
    let mut j: usize = n;
    while j > i && is_white_space(s.get_char(j - 1))
        invariant
            n == s@.len(),
            i <= j <= n,
            forall|k: int| j <= k < n ==> white_space(#[trigger] s@[k]),
        decreases j,
    {
        j = j - 1;
    }
    let ghost rest = s@.skip(i as int);
    proof {
        assert forall|k: int| j - i <= k < rest.len() implies white_space(#[trigger] rest[k]) by {
            assert(rest[k] == s@[k + i]);
        }
        lemma_trim_end_take(rest, j - i);
        assert(rest.take(j - i) =~= s@.subrange(i as int, j as int));
        if j > i {
            assert(rest.take(j - i).last() == s@[j - 1]);
        } else {
            assert(rest.take(j - i).len() == 0);
        }
    }
    s.substring_char(i, j).to_owned()
}

/// `w` is a prefix of `s`.
pub open spec fn is_prefix(w: Seq<char>, s: Seq<char>) -> bool {
    w.len() <= s.len() && s.take(w.len() as int) == w
}

/// Is `word[from..to]` a prefix of `s`?
pub(crate) fn slice_is_prefix(word: &str, from: usize, to: usize, s: &str) -> (r: bool)
    requires
        from <= to <= word@.len(),
    ensures
        r == is_prefix(word@.subrange(from as int, to as int), s@),
{
    let n = s.unicode_len();
    if to - from > n {
        return false;
    }
    let mut k: usize = 0;
    while k < to - from
        invariant
            from <= to <= word@.len(),
            n == s@.len(),
            to - from <= n,
            k <= to - from,
            forall|q: int| 0 <= q < k ==> s@[q] == word@[from + q],
        decreases to - from - k,
    {
        if s.get_char(k) != word.get_char(from + k) {
            proof {
                let w = word@.subrange(from as int, to as int);
                assert(s@.take(w.len() as int)[k as int] != w[k as int]);
            }
            return false;
        }
        k = k + 1;
    }
    proof {
        assert(s@.take((to - from) as int) =~= word@.subrange(from as int, to as int));
    }
    true
}

/// The strings of `parts`, joined with single spaces between them.
pub open spec fn joined(parts: Seq<Seq<char>>) -> Seq<char>
    decreases parts.len(),
{
    if parts.len() == 0 {
        Seq::empty()
    } else if parts.len() == 1 {
        parts[0]
    } else {
        joined(parts.drop_last()) + seq![' '] + parts.last()
    }
}

/// The views of a list of strings.
pub open spec fn views(v: Seq<String>) -> Seq<Seq<char>> {
    v.map_values(|s: String| s@)
}

/// `parts[from..]` joined with single spaces (`[String]::join(" ")`).
pub fn join_words(parts: &Vec<String>, from: usize) -> (r: String)
    requires
        from <= parts.len(),
    ensures
        r@ == joined(views(parts@).skip(from as int)),
{
    let mut r = String::new();
    let mut i: usize = from;
    let ghost all = views(parts@);
    while i < parts.len()
        invariant
            from <= i <= parts.len(),
            all == views(parts@),
            r@ == joined(all.subrange(from as int, i as int)),
        decreases parts.len() - i,
    {
        if i > from {
            push_char(&mut r, ' ');
        }
        r.append(parts[i].as_str());
        proof {
            let next = all.subrange(from as int, i + 1);
            assert(next.drop_last() =~= all.subrange(from as int, i as int));
            assert(next.last() == parts@[i as int]@);
            if i == from {
                assert(next.len() == 1);
            }
        }
        i = i + 1;
    }
    proof {
        assert(all.subrange(from as int, i as int) =~= all.skip(from as int));
    }
    r
}

/// The characters of `s`, in order.
pub fn chars_of(s: &str) -> (r: Vec<char>)
    ensures
        r@ == s@,
{
    broadcast use vstd::string::axiom_spec_iter;
    let mut r: Vec<char> = Vec::new();
    for c in it: s.chars()
        invariant
            r@ == it.seq().take(it.index() as int),
            it.seq() == s@,
    {
        r.push(c);
    }
    r
}
} // verus!
