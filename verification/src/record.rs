//! Which visited directories are worth recording.
use vstd::prelude::*;
use crate::datafile::opt_view;
use crate::text::{is_white_space, is_prefix, slice_is_prefix, white_space};

verus! {

/// `ex[a..b]` is one whitespace-separated word of `ex`: non-empty, free of whitespace,
/// and bounded by whitespace or the ends of `ex`.
pub open spec fn is_word_at(ex: Seq<char>, a: int, b: int) -> bool {
    &&& 0 <= a < b <= ex.len()
    &&& (a == 0 || white_space(ex[a - 1]))
    &&& (b == ex.len() || white_space(ex[b]))
    &&& forall|k: int| a <= k < b ==> !white_space(#[trigger] ex[k])
}

/// Some word of the exclusion list `ex` is a prefix of `path`.
pub open spec fn excluded_by(ex: Seq<char>, path: Seq<char>) -> bool {
    exists|a: int, b: int| #[trigger] is_word_at(ex, a, b) && is_prefix(ex.subrange(a, b), path)
}

/// A visit of `path` is recorded unless the path is empty, is the home directory,
/// or starts with one of the excluded directories.
pub open spec fn worth_recording(
    path: Seq<char>,
    home: Option<Seq<char>>,
    exclude: Option<Seq<char>>,
) -> bool {
    &&& path.len() > 0
    &&& home != Some(path)
    &&& match exclude {
        Some(ex) => !excluded_by(ex, path),
        None => true,
    }
}

/// A visit is recorded only for a non-empty path other than the home directory; and
/// never when the path starts with (or is) a word of the exclusion list: a stretch
/// `ex[a..b]` without whitespace, with whitespace or an end of `ex` on either side.
pub proof fn law_excluded_directories_are_not_recorded(
    path: Seq<char>,
    home: Option<Seq<char>>,
    ex: Seq<char>,
    a: int,
    b: int,
)
    ensures
        worth_recording(path, home, Some(ex)) ==> path.len() > 0 && home != Some(path),
        ({
            &&& 0 <= a < b <= ex.len()
            &&& (a == 0 || white_space(ex[a - 1]))
            &&& (b == ex.len() || white_space(ex[b]))
            &&& forall|k: int| a <= k < b ==> !white_space(#[trigger] ex[k])
            &&& b - a <= path.len()
            &&& path.take(b - a) == ex.subrange(a, b)
        }) ==> !worth_recording(path, home, Some(ex)),
{
    if 0 <= a < b <= ex.len() && b - a <= path.len() && path.take(b - a) == ex.subrange(a, b) {
        assert(ex.subrange(a, b).len() == b - a);
        if is_word_at(ex, a, b) {
            assert(is_prefix(ex.subrange(a, b), path));
        }
    }
}

/// When a non-empty path other than the home directory is not recorded, some word of
/// the exclusion list is a prefix of it.
pub proof fn law_unrecorded_paths_have_an_excluded_prefix(
    path: Seq<char>,
    home: Option<Seq<char>>,
    ex: Seq<char>,
)
    requires
        path.len() > 0,
        home != Some(path),
        !worth_recording(path, home, Some(ex)),
    ensures
        exists|a: int, b: int|
            {
                &&& 0 <= a < b <= ex.len()
                &&& (a == 0 || white_space(ex[a - 1]))
                &&& (b == ex.len() || white_space(ex[b]))
                &&& forall|k: int| a <= k < b ==> !white_space(#[trigger] ex[k])
                &&& b - a <= path.len()
                &&& path.take(b - a) == #[trigger] ex.subrange(a, b)
            },
{
    let (a, b) = choose|a: int, b: int| #[trigger] is_word_at(ex, a, b) && is_prefix(ex.subrange(a, b), path);
    assert(ex.subrange(a, b).len() == b - a);
}

/// The word of `ex` that ends where whitespace starts at `i` begins at `start`.
proof fn lemma_word_ending_at(ex: Seq<char>, start: int, i: int, a: int)
    requires
        0 <= start < i <= ex.len(),
        start == 0 || white_space(ex[start - 1]),
        forall|k: int| start <= k < i ==> !white_space(#[trigger] ex[k]),
        is_word_at(ex, a, i),
    ensures
        a == start,
{
    if a < start {
        assert(!white_space(ex[start - 1]));
    } else if a > start {
        assert(!white_space(ex[a - 1]));
    }
}

/// Should the visit of `path` be recorded? Not when `path` is empty, equals `home`,
/// or starts with a word of `exclude` (the excluded directories, whitespace-separated).
pub fn should_record(path: &str, home: Option<String>, exclude: Option<String>) -> (r: bool)
    ensures
        r == worth_recording(path@, opt_view(home), opt_view(exclude)),
        r ==> path@.len() > 0 && opt_view(home) != Some(path@),
        match exclude {
            Some(ex) => forall|a: int, b: int|
                ({
                    &&& 0 <= a < b <= ex@.len()
                    &&& (a == 0 || white_space(ex@[a - 1]))
                    &&& (b == ex@.len() || white_space(ex@[b]))
                    &&& forall|k: int| a <= k < b ==> !white_space(#[trigger] ex@[k])
                    &&& b - a <= path@.len()
                    &&& path@.take(b - a) == #[trigger] ex@.subrange(a, b)
                }) ==> !r,
            None => true,
        },
{
    proof {
        if let Some(ex) = &exclude {
            assert forall|a: int, b: int|
                ({
                    &&& 0 <= a < b <= ex@.len()
                    &&& (a == 0 || white_space(ex@[a - 1]))
                    &&& (b == ex@.len() || white_space(ex@[b]))
                    &&& forall|k: int| a <= k < b ==> !white_space(#[trigger] ex@[k])
                    &&& b - a <= path@.len()
                    &&& path@.take(b - a) == #[trigger] ex@.subrange(a, b)
                }) implies !worth_recording(path@, opt_view(home), opt_view(exclude)) by {
                law_excluded_directories_are_not_recorded(path@, opt_view(home), ex@, a, b);
            }
        }
    }
    if path.is_empty() {
        return false;
    }
    if let Some(h) = &home {
        if h.as_str().unicode_len() == path.unicode_len() && slice_is_prefix(path, 0, path.unicode_len(), h.as_str()) {
            proof {
                assert(path@.subrange(0, path@.len() as int) =~= path@);
                assert(h@.take(path@.len() as int) =~= h@);
            }
            return false;
        }
        proof {
            if h@ == path@ {
                assert(path@.subrange(0, path@.len() as int) =~= path@);
                assert(h@.take(path@.len() as int) =~= h@);
            }
        }
    }
    match &exclude {
        None => true,
        Some(ex_string) => {
            let ex = ex_string.as_str();
            let n = ex.unicode_len();
            let mut i: usize = 0;
            let mut start: usize = 0;
            let mut in_word = false;
            while i < n
                invariant
                    n == ex@.len(),
                    ex@ == ex_string@,
                    path@.len() > 0,
                    opt_view(home) != Some(path@),
                    opt_view(exclude) == Some(ex@),
                    i <= n,
                    start <= i,
                    in_word ==> start < i && (start == 0 || white_space(ex@[start - 1])) && forall|
                        k: int,
                    |
                        start <= k < i ==> !white_space(#[trigger] ex@[k]),
                    !in_word ==> (i == 0 || white_space(ex@[i - 1])),
                    forall|a: int, b: int|
                        #[trigger] is_word_at(ex@, a, b) && b < i ==> !is_prefix(
                            ex@.subrange(a, b),
                            path@,
                        ),
                decreases n - i,
            {
                let c = ex.get_char(i);
                if is_white_space(c) {
                    if in_word {
                        if slice_is_prefix(ex, start, i, path) {
                            proof {
                                assert(is_word_at(ex@, start as int, i as int));
                            }
                            return false;
                        }
                        in_word = false;
                    }
                } else {
                    if !in_word {
                        start = i;
                        in_word = true;
                    }
                }
                proof {
                    assert forall|a: int, b: int|
                        #[trigger] is_word_at(ex@, a, b) && b < i + 1 implies !is_prefix(
                        ex@.subrange(a, b),
                        path@,
                    ) by {
                        if b == i {
                            if i > 0 && !white_space(ex@[i - 1]) {
                                assert(start < i);
                                lemma_word_ending_at(ex@, start as int, i as int, a);
                            } else {
                                assert(!white_space(ex@[b - 1]));
                            }
                        }
                    }
                }
                i = i + 1;
            }
            if in_word && slice_is_prefix(ex, start, n, path) {
                proof {
                    assert(is_word_at(ex@, start as int, n as int));
                }
                return false;
            }
            proof {
                assert forall|a: int, b: int| #[trigger] is_word_at(ex@, a, b) implies !is_prefix(
                    ex@.subrange(a, b),
                    path@,
                ) by {
                    if b == n {
                        if in_word {
                            lemma_word_ending_at(ex@, start as int, n as int, a);
                        } else {
                            assert(!white_space(ex@[b - 1]));
                        }
                    }
                }
            }
            true
        },
    }
}

} // verus!
