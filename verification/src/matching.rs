//! Which remembered directories a query pattern selects.
use vstd::prelude::*;
use vstd::utf8::encode_utf8;
use crate::glob::{glob_match, glob_matches};
use crate::text::{lowered, to_lower, views};

verus! {

/// The pattern matches the path, byte for byte as UTF-8; when `fold` is set, both are
/// first mapped to lower case.
pub open spec fn path_matches(pat: Seq<char>, path: Seq<char>, fold: bool) -> bool {
    if fold {
        glob_matches(encode_utf8(lowered(pat)), encode_utf8(lowered(path)))
    } else {
        glob_matches(encode_utf8(pat), encode_utf8(path))
    }
}

/// The indices, ascending, of the first `n` paths that the pattern matches.
pub open spec fn hits(paths: Seq<Seq<char>>, pat: Seq<char>, n: int, fold: bool) -> Seq<usize>
    decreases n,
{
    if n <= 0 {
        Seq::empty()
    } else if path_matches(pat, paths[n - 1], fold) {
        hits(paths, pat, n - 1, fold).push((n - 1) as usize)
    } else {
        hits(paths, pat, n - 1, fold)
    }
}

/// Case-sensitive matches win; only when there are none do case-insensitive ones count.
pub open spec fn selected(paths: Seq<Seq<char>>, pat: Seq<char>) -> Seq<usize> {
    let exact = hits(paths, pat, paths.len() as int, false);
    if exact.len() > 0 {
        exact
    } else {
        hits(paths, pat, paths.len() as int, true)
    }
}

/// The positions, in order, of the paths that `pattern` selects: those it matches
/// exactly if there are any, else those it matches ignoring case.
pub fn select_matches(pattern: &str, paths: &Vec<String>) -> (r: Vec<usize>)
    ensures
        r@ == selected(views(paths@), pattern@),
        forall|k: int| 0 <= k < r@.len() ==> #[trigger] r@[k] < paths@.len(),
        (exists|i: int|
            0 <= i < paths@.len() && #[trigger] glob_matches(
                encode_utf8(pattern@),
                encode_utf8(paths@[i]@),
            )) ==> forall|i: int|
            0 <= i < paths@.len() ==> (#[trigger] glob_matches(
                encode_utf8(pattern@),
                encode_utf8(paths@[i]@),
            ) <==> r@.contains(i as usize)),
        !(exists|i: int|
            0 <= i < paths@.len() && #[trigger] glob_matches(
                encode_utf8(pattern@),
                encode_utf8(paths@[i]@),
            )) ==> forall|i: int|
            0 <= i < paths@.len() ==> (#[trigger] glob_matches(
                encode_utf8(lowered(pattern@)),
                encode_utf8(lowered(paths@[i]@)),
            ) <==> r@.contains(i as usize)),
{
    let ghost all = views(paths@);
    let lower_pattern = to_lower(pattern);
    let mut exact: Vec<usize> = Vec::new();
    let mut folded: Vec<usize> = Vec::new();
    let mut i: usize = 0;
    while i < paths.len()
        invariant
            i <= paths.len(),
            all == views(paths@),
            lower_pattern@ == lowered(pattern@),
            exact@ == hits(all, pattern@, i as int, false),
            exact@.len() == 0 ==> folded@ == hits(all, pattern@, i as int, true),
        decreases paths.len() - i,
    {
        let path = paths[i].as_str();
        proof {
            assert(all[i as int] == path@);
        }
        if glob_match(pattern.as_bytes(), path.as_bytes()) {
            exact.push(i);
        } else {
            let lower_path = to_lower(path);
            if glob_match(lower_pattern.as_str().as_bytes(), lower_path.as_str().as_bytes()) {
                folded.push(i);
            }
        }
        i = i + 1;
    }
    let r = if exact.len() > 0 {
        exact
    } else {
        folded
    };
    proof {
        law_selection_prefers_exact_matches(all, pattern@);
        assert forall|i: int| 0 <= i < paths@.len() implies #[trigger] all[i] == paths@[i]@ by {}
        let p = pattern@;
        if exists|i: int| 0 <= i < paths@.len() && #[trigger] glob_matches(encode_utf8(p), encode_utf8(paths@[i]@)) {
            let i0 = choose|i: int| 0 <= i < paths@.len() && #[trigger] glob_matches(encode_utf8(p), encode_utf8(paths@[i]@));
            assert(all[i0] == paths@[i0]@);
            assert(glob_matches(encode_utf8(p), encode_utf8(all[i0])));
            assert forall|i: int| 0 <= i < paths@.len() implies (#[trigger] glob_matches(
                encode_utf8(p),
                encode_utf8(paths@[i]@),
            ) <==> r@.contains(i as usize)) by {
                assert(all[i] == paths@[i]@);
                if r@.contains(i as usize) {
                    let k = choose|k: int| 0 <= k < r@.len() && r@[k] == i as usize;
                    assert(glob_matches(encode_utf8(p), encode_utf8(all[r@[k] as int])));
                }
            }
        } else {
            assert forall|i: int| 0 <= i < all.len() implies !#[trigger] glob_matches(encode_utf8(p), encode_utf8(all[i])) by {
                assert(all[i] == paths@[i]@);
                assert(!glob_matches(encode_utf8(p), encode_utf8(paths@[i]@)));
            }
            assert forall|i: int| 0 <= i < paths@.len() implies (#[trigger] glob_matches(
                encode_utf8(lowered(p)),
                encode_utf8(lowered(paths@[i]@)),
            ) <==> r@.contains(i as usize)) by {
                assert(all[i] == paths@[i]@);
                if r@.contains(i as usize) {
                    let k = choose|k: int| 0 <= k < r@.len() && r@[k] == i as usize;
                    assert(glob_matches(encode_utf8(lowered(p)), encode_utf8(lowered(all[r@[k] as int]))));
                }
            }
        }
    }
    r
}

/// The matches among the first `n` paths, as positions: in range, ascending,
/// each a match, and every match among them present.
proof fn lemma_hits(paths: Seq<Seq<char>>, pat: Seq<char>, n: int, fold: bool)
    requires
        0 <= n <= paths.len(),
        paths.len() <= usize::MAX,
    ensures
        ({
            let h = hits(paths, pat, n, fold);
            &&& forall|k: int| 0 <= k < h.len() ==> #[trigger] h[k] < n && path_matches(pat, paths[h[k] as int], fold)
            &&& forall|k1: int, k2: int| 0 <= k1 < k2 < h.len() ==> #[trigger] h[k1] < #[trigger] h[k2]
            &&& forall|i: int| 0 <= i < n && #[trigger] path_matches(pat, paths[i], fold) ==> h.contains(i as usize)
        }),
    decreases n,
{
    if n > 0 {
        lemma_hits(paths, pat, n - 1, fold);
        let prev = hits(paths, pat, n - 1, fold);
        let h = hits(paths, pat, n, fold);
        if path_matches(pat, paths[n - 1], fold) {
            assert(h == prev.push((n - 1) as usize));
            assert(h[h.len() - 1] == (n - 1) as usize);
            assert forall|i: int| 0 <= i < n && #[trigger] path_matches(pat, paths[i], fold) implies h.contains(i as usize) by {
                if i < n - 1 {
                    let k = choose|k: int| 0 <= k < prev.len() && prev[k] == i as usize;
                    assert(h[k] == i as usize);
                }
            }
        }
    }
}

/// The selection lists positions of real paths, in ascending order. When the pattern
/// matches some path exactly (its UTF-8 bytes against the path's), the selection is
/// exactly the paths it matches so; otherwise it is exactly the paths whose lower case
/// the lower-cased pattern matches.
pub proof fn law_selection_prefers_exact_matches(paths: Seq<Seq<char>>, pat: Seq<char>)
    requires
        paths.len() <= usize::MAX,
    ensures
        forall|k1: int, k2: int|
            0 <= k1 < k2 < selected(paths, pat).len() ==> #[trigger] selected(paths, pat)[k1]
                < #[trigger] selected(paths, pat)[k2],
        forall|k: int|
            0 <= k < selected(paths, pat).len() ==> #[trigger] selected(paths, pat)[k] < paths.len(),
        (exists|i: int|
            0 <= i < paths.len() && #[trigger] glob_matches(encode_utf8(pat), encode_utf8(paths[i])))
            ==> {
            &&& forall|k: int|
                0 <= k < selected(paths, pat).len() ==> glob_matches(
                    encode_utf8(pat),
                    encode_utf8(paths[#[trigger] selected(paths, pat)[k] as int]),
                )
            &&& forall|i: int|
                0 <= i < paths.len() && #[trigger] glob_matches(encode_utf8(pat), encode_utf8(paths[i]))
                    ==> selected(paths, pat).contains(i as usize)
        },
        !(exists|i: int|
            0 <= i < paths.len() && #[trigger] glob_matches(encode_utf8(pat), encode_utf8(paths[i])))
            ==> {
            &&& forall|k: int|
                0 <= k < selected(paths, pat).len() ==> glob_matches(
                    encode_utf8(lowered(pat)),
                    encode_utf8(lowered(paths[#[trigger] selected(paths, pat)[k] as int])),
                )
            &&& forall|i: int|
                0 <= i < paths.len() && #[trigger] glob_matches(
                    encode_utf8(lowered(pat)),
                    encode_utf8(lowered(paths[i])),
                ) ==> selected(paths, pat).contains(i as usize)
        },
{
    let n = paths.len() as int;
    lemma_hits(paths, pat, n, false);
    lemma_hits(paths, pat, n, true);
    let exact = hits(paths, pat, n, false);
    let folded = hits(paths, pat, n, true);
    assert forall|i: int| 0 <= i < n implies (#[trigger] path_matches(pat, paths[i], false)
        == glob_matches(encode_utf8(pat), encode_utf8(paths[i]))) && path_matches(pat, paths[i], true)
        == glob_matches(encode_utf8(lowered(pat)), encode_utf8(lowered(paths[i]))) by {}
    if exists|i: int| 0 <= i < paths.len() && #[trigger] glob_matches(encode_utf8(pat), encode_utf8(paths[i])) {
        let i = choose|i: int| 0 <= i < paths.len() && #[trigger] glob_matches(encode_utf8(pat), encode_utf8(paths[i]));
        assert(path_matches(pat, paths[i], false));
        assert(exact.contains(i as usize));
        assert(exact.len() > 0);
        assert(selected(paths, pat) == exact);
        assert forall|k: int| 0 <= k < exact.len() implies glob_matches(
            encode_utf8(pat),
            encode_utf8(paths[#[trigger] exact[k] as int]),
        ) by {
            assert(path_matches(pat, paths[exact[k] as int], false));
        }
        assert forall|i: int|
            0 <= i < paths.len() && #[trigger] glob_matches(encode_utf8(pat), encode_utf8(paths[i]))
            implies exact.contains(i as usize) by {
            assert(path_matches(pat, paths[i], false));
        }
    } else {
        if exact.len() > 0 {
            assert(path_matches(pat, paths[exact[0] as int], false));
            assert(glob_matches(encode_utf8(pat), encode_utf8(paths[exact[0] as int])));
        }
        assert(selected(paths, pat) == folded);
        assert forall|k: int| 0 <= k < folded.len() implies glob_matches(
            encode_utf8(lowered(pat)),
            encode_utf8(lowered(paths[#[trigger] folded[k] as int])),
        ) by {
            assert(path_matches(pat, paths[folded[k] as int], true));
        }
        assert forall|i: int|
            0 <= i < paths.len() && #[trigger] glob_matches(
                encode_utf8(lowered(pat)),
                encode_utf8(lowered(paths[i])),
            ) implies folded.contains(i as usize) by {
            assert(path_matches(pat, paths[i], true));
        }
    }
}

} // verus!
