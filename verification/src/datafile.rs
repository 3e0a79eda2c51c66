//! The datafile: where it lives, how a `path|rank|time` line splits, and how its
//! rows change when a directory is visited or forgotten. A row's rank is carried
//! as an opaque value `R`: the library moves ranks around but never computes with them.
use vstd::prelude::*;
use crate::text::{
    all_digits, chars_of, decimal_i64, decimal_value, digits_value, is_digit, parse_i64, push_char,
    trim, trim_end, trim_start, trimmed, white_space,
};

verus! {

/// A shell setting counts only when it is set to a non-empty value.
pub open spec fn setting(v: Option<Seq<char>>) -> Option<Seq<char>> {
    match v {
        Some(s) => if s.len() > 0 {
            Some(s)
        } else {
            None
        },
        None => None,
    }
}

/// The view of an optional string.
pub open spec fn opt_view(v: Option<String>) -> Option<Seq<char>> {
    match v {
        Some(s) => Some(s@),
        None => None,
    }
}

/// A non-empty value, or nothing: how a shell variable is read as a setting.
pub fn nonempty(v: Option<String>) -> (r: Option<String>)
    ensures
        opt_view(r) == setting(opt_view(v)),
{
    match v {
        Some(s) => if s.as_str().is_empty() {
            None
        } else {
            Some(s)
        },
        None => None,
    }
}

/// The first of two settings that is set: `primary`, else `fallback`.
pub open spec fn first_setting(primary: Option<Seq<char>>, fallback: Option<Seq<char>>) -> Option<Seq<char>> {
    match setting(primary) {
        Some(s) => Some(s),
        None => setting(fallback),
    }
}

/// The value of the preferred variable when set, else of the older alternative name.
pub fn pick_setting(primary: Option<String>, fallback: Option<String>) -> (r: Option<String>)
    ensures
        opt_view(r) == first_setting(opt_view(primary), opt_view(fallback)),
{
    match nonempty(primary) {
        Some(s) => Some(s),
        None => nonempty(fallback),
    }
}

/// The home directory: the shell's `$HOME` when set, else the process environment's.
pub open spec fn home_dir(home_var: Option<Seq<char>>, home_env: Option<Seq<char>>) -> Option<Seq<char>> {
    match setting(home_var) {
        Some(h) => Some(h),
        None => home_env,
    }
}

/// Where the datafile lives: `$ZSHZ_DATA`, else `$_Z_DATA`, else `~/.z`
/// (with an empty home when none is known).
pub open spec fn datafile_location(
    zshz_data: Option<Seq<char>>,
    z_data: Option<Seq<char>>,
    home_var: Option<Seq<char>>,
    home_env: Option<Seq<char>>,
) -> Seq<char> {
    match first_setting(zshz_data, z_data) {
        Some(p) => p,
        None => {
            let home = match home_dir(home_var, home_env) {
                Some(h) => h,
                None => Seq::empty(),
            };
            home + seq!['/', '.', 'z']
        },
    }
}

/// The home directory from the shell variable and the environment variable `HOME`.
pub fn home_from(home_var: Option<String>, home_env: Option<String>) -> (r: Option<String>)
    ensures
        opt_view(r) == home_dir(opt_view(home_var), opt_view(home_env)),
{
    match nonempty(home_var) {
        Some(h) => Some(h),
        None => home_env,
    }
}

/// The datafile's path from the values of `$ZSHZ_DATA`, `$_Z_DATA`, the shell's `$HOME`
/// and the environment's `HOME`.
pub fn datafile_path(
    zshz_data: Option<String>,
    z_data: Option<String>,
    home_var: Option<String>,
    home_env: Option<String>,
) -> (r: String)
    ensures
        r@ == datafile_location(
            opt_view(zshz_data),
            opt_view(z_data),
            opt_view(home_var),
            opt_view(home_env),
        ),
        match zshz_data {
            Some(d) => d@.len() > 0 ==> r@ == d@,
            None => true,
        },
        (match zshz_data {
            Some(d) => d@.len() == 0,
            None => true,
        }) ==> match z_data {
            Some(d) => d@.len() > 0 ==> r@ == d@,
            None => true,
        },
        (match zshz_data {
            Some(d) => d@.len() == 0,
            None => true,
        }) && (match z_data {
            Some(d) => d@.len() == 0,
            None => true,
        }) ==> r@ == (match home_var {
            Some(h) => if h@.len() > 0 {
                h@
            } else {
                match home_env {
                    Some(e) => e@,
                    None => Seq::empty(),
                }
            },
            None => match home_env {
                Some(e) => e@,
                None => Seq::empty(),
            },
        }) + seq!['/', '.', 'z'],
{
    proof {
        law_datafile_location(opt_view(zshz_data), opt_view(z_data), opt_view(home_var), opt_view(home_env));
    }
    match pick_setting(zshz_data, z_data) {
        Some(p) => p,
        None => {
            let mut s = match home_from(home_var, home_env) {
                Some(h) => h,
                None => String::new(),
            };
            push_char(&mut s, '/');
            push_char(&mut s, '.');
            push_char(&mut s, 'z');
            s
        },
    }
}

/// Where the datafile lives: `$ZSHZ_DATA` when set and non-empty; else `$_Z_DATA` when set
/// and non-empty; else `.z` in the home directory (the shell's `$HOME` when set and
/// non-empty, else the environment's). An unset variable and an empty one are alike.
pub proof fn law_datafile_location(
    zshz_data: Option<Seq<char>>,
    z_data: Option<Seq<char>>,
    home_var: Option<Seq<char>>,
    home_env: Option<Seq<char>>,
)
    ensures
        datafile_location(None, z_data, home_var, home_env) == datafile_location(
            Some(Seq::empty()),
            z_data,
            home_var,
            home_env,
        ),
        datafile_location(zshz_data, None, home_var, home_env) == datafile_location(
            zshz_data,
            Some(Seq::empty()),
            home_var,
            home_env,
        ),
        match zshz_data {
            Some(d) => d.len() > 0 ==> datafile_location(zshz_data, z_data, home_var, home_env) == d,
            None => true,
        },
        (match zshz_data {
            Some(d) => d.len() == 0,
            None => true,
        }) ==> match z_data {
            Some(d) => d.len() > 0 ==> datafile_location(zshz_data, z_data, home_var, home_env) == d,
            None => true,
        },
        (match zshz_data {
            Some(d) => d.len() == 0,
            None => true,
        }) && (match z_data {
            Some(d) => d.len() == 0,
            None => true,
        }) ==> datafile_location(zshz_data, z_data, home_var, home_env) == (match home_var {
            Some(h) => if h.len() > 0 {
                h
            } else {
                match home_env {
                    Some(e) => e,
                    None => Seq::empty(),
                }
            },
            None => match home_env {
                Some(e) => e,
                None => Seq::empty(),
            },
        }) + seq!['/', '.', 'z'],
{
}

/// Index of the first `|` in `s`, or `s.len()` when there is none.
pub open spec fn first_bar(s: Seq<char>) -> int
    decreases s.len(),
{
    if s.len() == 0 {
        0
    } else if s[0] == '|' {
        0
    } else {
        1 + first_bar(s.drop_first())
    }
}

/// Index of the last `|` in `s`, or `-1` when there is none.
pub open spec fn last_bar(s: Seq<char>) -> int
    decreases s.len(),
{
    if s.len() == 0 {
        -1
    } else if s.last() == '|' {
        s.len() - 1
    } else {
        last_bar(s.drop_last())
    }
}

/// The fields of a datafile line: the path up to the first `|`, the trimmed rank text
/// between the first and the last `|`, and the trimmed time after the last `|` read as
/// an `i64`; nothing when the line has fewer than two `|` or the time is not a number.
pub open spec fn line_fields(s: Seq<char>) -> Option<(Seq<char>, Seq<char>, i64)> {
    let i = first_bar(s);
    let j = last_bar(s);
    if i < j {
        match decimal_i64(trimmed(s.skip(j + 1))) {
            Some(t) => Some((s.take(i), trimmed(s.subrange(i + 1, j)), t)),
            None => None,
        }
    } else {
        None
    }
}

proof fn lemma_first_bar(s: Seq<char>, i: int)
    requires
        0 <= i <= s.len(),
        forall|k: int| 0 <= k < i ==> #[trigger] s[k] != '|',
        i < s.len() ==> s[i] == '|',
    ensures
        first_bar(s) == i,
    decreases i,
{
    if i > 0 {
        assert forall|k: int| 0 <= k < i - 1 implies #[trigger] s.drop_first()[k] != '|' by {
            assert(s.drop_first()[k] == s[k + 1]);
        }
        lemma_first_bar(s.drop_first(), i - 1);
    }
}

proof fn lemma_last_bar(s: Seq<char>, j: int)
    requires
        -1 <= j < s.len(),
        forall|k: int| j < k < s.len() ==> #[trigger] s[k] != '|',
        j >= 0 ==> s[j] == '|',
    ensures
        last_bar(s) == j,
    decreases s.len(),
{
    if j < s.len() - 1 {
        lemma_last_bar(s.drop_last(), j);
    }
}

/// One line of the datafile, split into its fields.
pub struct DataRow {
    pub path: String,
    pub rank_text: String,
    pub time: i64,
}

/// Split `path|rank|time`: the path is up to the first `|`, the time after the last `|`,
/// the rank between them (as `%%\|*` and `##*\|` split it).
pub fn split_row(line: &str) -> (r: Option<DataRow>)
    ensures
        match line_fields(line@) {
            Some((p, rank, t)) => r matches Some(row) && row.path@ == p && row.rank_text@ == rank
                && row.time == t,
            None => r is None,
        },
{
    let n = line.unicode_len();
    let mut i: usize = 0;
    while i < n && line.get_char(i) != '|'
        invariant
            n == line@.len(),
            i <= n,
            forall|k: int| 0 <= k < i ==> #[trigger] line@[k] != '|',
        decreases n - i,
    {
        i = i + 1;
    }
    proof {
        lemma_first_bar(line@, i as int);
    }
    if i == n {
        proof {
            lemma_last_bar(line@, -1);
        }
        return None;
    }
    let mut j: usize = n - 1;
    while j > i && line.get_char(j) != '|'
        invariant
            n == line@.len(),
            i <= j < n,
            line@[i as int] == '|',
            forall|k: int| j < k < n ==> #[trigger] line@[k] != '|',
        decreases j,
    {
        j = j - 1;
    }
    proof {
        lemma_last_bar(line@, j as int);
    }
    if j <= i {
        return None;
    }
    let time_text = trim(line.substring_char(j + 1, n));
    proof {
        assert(line@.subrange(j + 1, n as int) =~= line@.skip(j + 1));
    }
    match parse_i64(time_text.as_str()) {
        Some(t) => {
            let path = line.substring_char(0, i).to_owned();
            let rank_text = trim(line.substring_char(i + 1, j));
            proof {
                assert(line@.subrange(0, i as int) =~= line@.take(i as int));
            }
            Some(DataRow { path, rank_text, time: t })
        },
        None => None,
    }
}

/// A row of the datafile: a directory, its rank, and when it was last visited.
pub struct Row<R> {
    pub path: String,
    pub rank: R,
    pub time: i64,
}

/// Whether a row records some other directory than `path`.
pub open spec fn other_than<R>(path: Seq<char>) -> spec_fn(Row<R>) -> bool {
    |row: Row<R>| row.path@ != path
}

/// The rows that do not record `path`.
pub open spec fn rows_without<R>(rows: Seq<Row<R>>, path: Seq<char>) -> Seq<Row<R>> {
    rows.filter(other_than(path))
}

/// Forget `path`: drop every row that records it. Also says whether any row went.
pub fn forget_path<R>(rows: Vec<Row<R>>, path: &str) -> (r: (Vec<Row<R>>, bool))
    ensures
        r.0@ == rows_without(rows@, path@),
        r.1 == (r.0@.len() != rows@.len()),
        r.1 == exists|k: int| 0 <= k < rows@.len() && #[trigger] rows@[k].path@ == path@,
{
    let ghost all = rows@;
    let ghost pred = other_than::<R>(path@);
    let mut rest = rows;
    let mut kept: Vec<Row<R>> = Vec::new();
    let mut removed = false;
    let mut i: usize = 0;
    let n = rest.len();
    while rest.len() > 0
        invariant
            n == all.len(),
            pred == other_than::<R>(path@),
            i + rest@.len() == n,
            rest@ == all.skip(i as int),
            kept@ == all.take(i as int).filter(pred),
            removed == exists|k: int| 0 <= k < i && #[trigger] all[k].path@ == path@,
            removed == (kept@.len() != i),
        decreases rest.len(),
    {
        let row = rest.remove(0);
        proof {
            assert(all.take(i + 1) =~= all.take(i as int).push(row));
            all.take(i as int).lemma_filter_push(row, pred);
            assert(pred(row) == (row.path@ != path@));
            assert(all.skip(i + 1) =~= all.skip(i as int).drop_first());
            all.take(i as int).lemma_filter_len(pred);
        }
        if !string_eq(&row.path, path) {
            kept.push(row);
        } else {
            removed = true;
        }
        i = i + 1;
    }
    proof {
        assert(all.take(i as int) =~= all);
    }
    (kept, removed)
}

/// Some row records `path`.
pub open spec fn recorded<R>(rows: Seq<Row<R>>, path: Seq<char>) -> bool {
    exists|k: int| 0 <= k < rows.len() && #[trigger] rows[k].path@ == path
}

/// What a visit of `path` at `now` makes of one existing row: a row of `path` gets the
/// rank that `bump` gives for its old rank and the time `now`; any other row stays.
pub open spec fn visited_row<R, F: Fn(R) -> R>(
    before: Row<R>,
    after: Row<R>,
    path: Seq<char>,
    now: i64,
    bump: F,
) -> bool {
    if before.path@ == path {
        &&& after.path == before.path
        &&& after.time == now
        &&& call_ensures(bump, (before.rank,), after.rank)
    } else {
        after == before
    }
}

/// The rows after a visit of `path` at `now`: each existing row as `visited_row` says,
/// followed, when no row recorded `path`, by a new row of `path` with rank `fresh`.
pub open spec fn visit_result<R, F: Fn(R) -> R>(
    before: Seq<Row<R>>,
    after: Seq<Row<R>>,
    path: Seq<char>,
    now: i64,
    bump: F,
    fresh: R,
) -> bool {
    &&& after.len() == before.len() + (if recorded(before, path) {
        0int
    } else {
        1int
    })
    &&& forall|k: int|
        0 <= k < before.len() ==> visited_row(before[k], #[trigger] after[k], path, now, bump)
    &&& !recorded(before, path) ==> {
        let last = after[before.len() as int];
        &&& last.path@ == path
        &&& last.rank == fresh
        &&& last.time == now
    }
}

/// Record a visit of `path` at `now`: every row of `path` gets its rank bumped and its
/// time set to `now`; when no row records `path`, a row with rank `fresh` is appended.
pub fn visit_path<R, F: Fn(R) -> R>(rows: Vec<Row<R>>, path: &str, now: i64, bump: F, fresh: R) -> (r:
    Vec<Row<R>>)
    requires
        forall|x: R| call_requires(bump, (x,)),
    ensures
        visit_result(rows@, r@, path@, now, bump, fresh),
{
    let ghost all = rows@;
    let mut rest = rows;
    let mut out: Vec<Row<R>> = Vec::new();
    let mut found = false;
    let mut i: usize = 0;
    let n = rest.len();
    while rest.len() > 0
        invariant
            n == all.len(),
            i + rest@.len() == n,
            rest@ == all.skip(i as int),
            out@.len() == i,
            forall|x: R| call_requires(bump, (x,)),
            forall|k: int| 0 <= k < i ==> visited_row(all[k], #[trigger] out@[k], path@, now, bump),
            found == exists|k: int| 0 <= k < i && #[trigger] all[k].path@ == path@,
        decreases rest.len(),
    {
        let row = rest.remove(0);
        proof {
            assert(all.skip(i + 1) =~= all.skip(i as int).drop_first());
            assert(row == all[i as int]);
        }
        if string_eq(&row.path, path) {
            let rank = bump(row.rank);
            out.push(Row { path: row.path, rank, time: now });
            found = true;
        } else {
            out.push(row);
        }
        i = i + 1;
    }
    if !found {
        out.push(Row { path: path.to_owned(), rank: fresh, time: now });
    }
    out
}

/// The rows among the first `n` that stay: those whose `keep` flag is set, and those of `path`.
pub open spec fn kept_rows<R>(rows: Seq<Row<R>>, keep: Seq<bool>, path: Seq<char>, n: int) -> Seq<
    Row<R>,
>
    decreases n,
{
    if n <= 0 {
        Seq::empty()
    } else if keep[n - 1] || rows[n - 1].path@ == path {
        kept_rows(rows, keep, path, n - 1).push(rows[n - 1])
    } else {
        kept_rows(rows, keep, path, n - 1)
    }
}

/// Keep the rows whose flag in `keep` is set, and every row of `path` whatever its flag.
pub fn keep_rows<R>(rows: Vec<Row<R>>, keep: &Vec<bool>, path: &str) -> (r: Vec<Row<R>>)
    requires
        keep@.len() == rows@.len(),
    ensures
        r@ == kept_rows(rows@, keep@, path@, rows@.len() as int),
        forall|k: int|
            0 <= k < rows@.len() && (keep@[k] || rows@[k].path@ == path@) ==> r@.contains(
                #[trigger] rows@[k],
            ),
{
    let ghost all = rows@;
    let mut rest = rows;
    let mut out: Vec<Row<R>> = Vec::new();
    let mut i: usize = 0;
    let n = rest.len();
    while rest.len() > 0
        invariant
            n == all.len(),
            keep@.len() == n,
            i + rest@.len() == n,
            rest@ == all.skip(i as int),
            out@ == kept_rows(all, keep@, path@, i as int),
        decreases rest.len(),
    {
        let row = rest.remove(0);
        proof {
            assert(all.skip(i + 1) =~= all.skip(i as int).drop_first());
            assert(row == all[i as int]);
        }
        if keep[i] || string_eq(&row.path, path) {
            out.push(row);
        }
        i = i + 1;
    }
    proof {
        law_kept_rows_are_the_flagged_and_the_visited(all, keep@, path@);
    }
    out
}

/// Positions of the kept rows among the first `n`: ascending, each a row that stays,
/// and every row that stays among them.
proof fn lemma_kept_positions<R>(rows: Seq<Row<R>>, keep: Seq<bool>, path: Seq<char>, n: int) -> (idx: Seq<int>)
    requires
        0 <= n <= rows.len(),
        keep.len() == rows.len(),
    ensures
        idx.len() == kept_rows(rows, keep, path, n).len(),
        forall|j: int| 0 <= j < idx.len() ==> 0 <= #[trigger] idx[j] < n && kept_rows(rows, keep, path, n)[j] == rows[idx[j]],
        forall|j1: int, j2: int| 0 <= j1 < j2 < idx.len() ==> #[trigger] idx[j1] < #[trigger] idx[j2],
        forall|k: int| 0 <= k < n ==> ((keep[k] || rows[k].path@ == path) <==> #[trigger] idx.contains(k)),
    decreases n,
{
    if n == 0 {
        Seq::empty()
    } else {
        let prev = lemma_kept_positions(rows, keep, path, n - 1);
        if keep[n - 1] || rows[n - 1].path@ == path {
            let idx = prev.push(n - 1);
            assert forall|k: int| 0 <= k < n implies ((keep[k] || rows[k].path@ == path) <==> #[trigger] idx.contains(k)) by {
                if k < n - 1 {
                    if prev.contains(k) {
                        let j = choose|j: int| 0 <= j < prev.len() && prev[j] == k;
                        assert(idx[j] == k);
                    }
                    if idx.contains(k) {
                        let j = choose|j: int| 0 <= j < idx.len() && idx[j] == k;
                        assert(j < prev.len());
                        assert(prev[j] == k);
                    }
                } else {
                    assert(idx[idx.len() - 1] == k);
                }
            }
            idx
        } else {
            assert forall|k: int| 0 <= k < n implies ((keep[k] || rows[k].path@ == path) <==> #[trigger] prev.contains(k)) by {
                if k == n - 1 && prev.contains(k) {
                    let j = choose|j: int| 0 <= j < prev.len() && prev[j] == k;
                    assert(prev[j] < n - 1);
                }
            }
            prev
        }
    }
}

/// Pruning keeps each row whose flag is set and each row of the visited path (that no
/// other row is kept, and that the order stays, is `law_kept_rows_keep_their_order`).
pub proof fn law_kept_rows_are_the_flagged_and_the_visited<R>(rows: Seq<Row<R>>, keep: Seq<bool>, path: Seq<char>)
    requires
        keep.len() == rows.len(),
    ensures
        forall|k: int|
            0 <= k < rows.len() && (keep[k] || rows[k].path@ == path) ==> kept_rows(
                rows,
                keep,
                path,
                rows.len() as int,
            ).contains(#[trigger] rows[k]),
{
    let n = rows.len() as int;
    let r = kept_rows(rows, keep, path, n);
    let idx = law_kept_rows_keep_their_order(rows, keep, path);
    assert forall|k: int| 0 <= k < rows.len() && (keep[k] || rows[k].path@ == path) implies r.contains(#[trigger] rows[k]) by {
        assert(idx.contains(k));
        let j = choose|j: int| 0 <= j < idx.len() && idx[j] == k;
        assert(r[j] == rows[k]);
    }
}

/// The rows kept are the rows that stay, in their order: the returned positions are
/// ascending, the kept rows are the rows at them, and a row's position is among them
/// exactly when its flag is set or it records the visited path.
pub proof fn law_kept_rows_keep_their_order<R>(rows: Seq<Row<R>>, keep: Seq<bool>, path: Seq<char>) -> (idx: Seq<int>)
    requires
        keep.len() == rows.len(),
    ensures
        idx.len() == kept_rows(rows, keep, path, rows.len() as int).len(),
        forall|j: int|
            0 <= j < idx.len() ==> 0 <= #[trigger] idx[j] < rows.len() && kept_rows(
                rows,
                keep,
                path,
                rows.len() as int,
            )[j] == rows[idx[j]],
        forall|j1: int, j2: int| 0 <= j1 < j2 < idx.len() ==> #[trigger] idx[j1] < #[trigger] idx[j2],
        forall|k: int| 0 <= k < rows.len() ==> ((keep[k] || rows[k].path@ == path) <==> #[trigger] idx.contains(k)),
{
    lemma_kept_positions(rows, keep, path, rows.len() as int)
}

/// Do `a` and `b` hold the same characters?
fn string_eq(a: &String, b: &str) -> (r: bool)
    ensures
        r == (a@ == b@),
{
    let s = a.as_str();
    let n = s.unicode_len();
    if n != b.unicode_len() {
        return false;
    }
    let mut k: usize = 0;
    while k < n
        invariant
            n == s@.len(),
            n == b@.len(),
            s@ == a@,
            k <= n,
            forall|q: int| 0 <= q < k ==> s@[q] == b@[q],
        decreases n - k,
    {
        if s.get_char(k) != b.get_char(k) {
            return false;
        }
        k = k + 1;
    }
    proof {
        assert(s@ =~= b@);
    }
    true
}

/// No `|` in `s`.
pub open spec fn bar_free(s: Seq<char>) -> bool {
    forall|k: int| 0 <= k < s.len() ==> #[trigger] s[k] != '|'
}

/// A line written as `path|rank|time`, with no `|` inside the fields, reads back as
/// the same path, the trimmed rank, and the time that the trimmed time text spells.
pub proof fn law_written_line_reads_back(path: Seq<char>, rank: Seq<char>, time_text: Seq<char>)
    requires
        bar_free(path),
        bar_free(rank),
        bar_free(time_text),
    ensures
        line_fields(path + seq!['|'] + rank + seq!['|'] + time_text) == match decimal_i64(
            trimmed(time_text),
        ) {
            Some(t) => Some((path, trimmed(rank), t)),
            None => None,
        },
{
    let line = path + seq!['|'] + rank + seq!['|'] + time_text;
    let i = path.len() as int;
    let j = i + 1 + rank.len();
    assert forall|k: int| 0 <= k < i implies #[trigger] line[k] != '|' by {
        assert(line[k] == path[k]);
    }
    assert(line[i] == '|');
    lemma_first_bar(line, i);
    assert forall|k: int| j < k < line.len() implies #[trigger] line[k] != '|' by {
        assert(line[k] == time_text[k - j - 1]);
    }
    assert(line[j] == '|');
    lemma_last_bar(line, j);
    assert(line.take(i) =~= path);
    assert(line.subrange(i + 1, j) =~= rank);
    assert(line.skip(j + 1) =~= time_text);
}

/// After forgetting `path`, no row records it, and the other rows stay in their order.
pub proof fn law_forgotten_path_is_gone<R>(rows: Seq<Row<R>>, path: Seq<char>)
    ensures
        !recorded(rows_without(rows, path), path),
        rows_without(rows, path).len() <= rows.len(),
        forall|k: int| 0 <= k < rows.len() && rows[k].path@ != path ==> #[trigger] rows_without(rows, path).contains(rows[k]),
{
    let kept = rows_without(rows, path);
    broadcast use Seq::lemma_filter_pred, Seq::lemma_filter_len, Seq::lemma_filter_contains;
    if recorded(kept, path) {
        let k = choose|k: int| 0 <= k < kept.len() && #[trigger] kept[k].path@ == path;
        assert(other_than::<R>(path)(kept[k]));
    }
    assert forall|k: int| 0 <= k < rows.len() && rows[k].path@ != path implies #[trigger] kept.contains(rows[k]) by {
        assert(other_than::<R>(path)(rows[k]));
    }
}

/// After a visit, the path is recorded, every row of it carries the visit's time,
/// and no row was added or dropped for any other directory.
pub proof fn law_visited_path_is_recorded_now<R, F: Fn(R) -> R>(
    before: Seq<Row<R>>,
    after: Seq<Row<R>>,
    path: Seq<char>,
    now: i64,
    bump: F,
    fresh: R,
)
    requires
        visit_result(before, after, path, now, bump, fresh),
    ensures
        recorded(after, path),
        forall|k: int| 0 <= k < after.len() && #[trigger] after[k].path@ == path ==> after[k].time == now,
        forall|k: int| 0 <= k < before.len() && before[k].path@ != path ==> #[trigger] after[k] == before[k],
{
    if recorded(before, path) {
        let k = choose|k: int| 0 <= k < before.len() && #[trigger] before[k].path@ == path;
        assert(visited_row(before[k], after[k], path, now, bump));
        assert(after[k].path@ == path);
    } else {
        assert(after[before.len() as int].path@ == path);
    }
    assert forall|k: int| 0 <= k < after.len() && #[trigger] after[k].path@ == path implies after[k].time == now by {
        if k < before.len() {
            assert(visited_row(before[k], after[k], path, now, bump));
        }
    }
    assert forall|k: int| 0 <= k < before.len() && before[k].path@ != path implies #[trigger] after[k] == before[k] by {
        assert(visited_row(before[k], after[k], path, now, bump));
    }
}

/// The decimal digit character for `d` (0 to 9).
pub open spec fn digit_char(d: int) -> char {
    (48 + d) as char
}

/// The decimal digits of `n`, without leading zeros (`0` for zero).
pub open spec fn decimal_digits(n: nat) -> Seq<char>
    decreases n,
{
    if n < 10 {
        seq![digit_char(n as int)]
    } else {
        decimal_digits(n / 10).push(digit_char((n % 10) as int))
    }
}

/// `t` written in decimal, with a leading `-` when negative (how an `i64` displays).
pub open spec fn decimal_text(t: int) -> Seq<char> {
    if t < 0 {
        seq!['-'] + decimal_digits((-t) as nat)
    } else {
        decimal_digits(t as nat)
    }
}

/// The line that records a row: `path|rank|time`.
pub open spec fn row_line(path: Seq<char>, rank_text: Seq<char>, time: i64) -> Seq<char> {
    path + seq!['|'] + rank_text + seq!['|'] + decimal_text(time as int)
}

proof fn lemma_decimal_digits(n: nat)
    ensures
        decimal_digits(n).len() > 0,
        all_digits(decimal_digits(n)),
        digits_value(decimal_digits(n)) == n,
    decreases n,
{
    assert(digit_char((n % 10) as int) as int == 48 + (n % 10) as int);
    if n >= 10 {
        lemma_decimal_digits(n / 10);
        let prev = decimal_digits(n / 10);
        let d = decimal_digits(n);
        assert(d.drop_last() =~= prev);
        assert(n == (n / 10) * 10 + n % 10);
        assert(d.last() == digit_char((n % 10) as int));
        assert('0' as int == 48);
        assert(digits_value(d) == digits_value(prev) * 10 + (d.last() as int - '0' as int));
        assert(digits_value(d) == (n / 10) * 10 + (n % 10));
        assert forall|k: int| 0 <= k < d.len() implies is_digit(#[trigger] d[k]) by {
            if k < prev.len() {
                assert(d[k] == prev[k]);
            }
        }
    } else {
        let d = decimal_digits(n);
        assert(d.drop_last() =~= Seq::<char>::empty());
        assert(digits_value(d.drop_last()) == 0);
        assert(d.last() == digit_char(n as int));
        assert(n % 10 == n);
    }
}

/// Reading back the decimal text of an `i64` gives the same number.
proof fn lemma_decimal_text(t: i64)
    ensures
        decimal_i64(decimal_text(t as int)) == Some(t),
        bar_free(decimal_text(t as int)),
        trimmed(decimal_text(t as int)) == decimal_text(t as int),
{
    let s = decimal_text(t as int);
    let m: nat = if t < 0 { (-t) as nat } else { t as nat };
    lemma_decimal_digits(m);
    let d = decimal_digits(m);
    if t < 0 {
        assert(s.drop_first() =~= d);
        assert(decimal_value(s, true) == Some(-(m as int)));
        assert forall|k: int| 0 <= k < s.len() implies #[trigger] s[k] != '|' by {
            if k > 0 {
                assert(s[k] == d[k - 1]);
                assert(is_digit(d[k - 1]));
            }
        }
    } else {
        assert(is_digit(s[0]));
        assert(decimal_value(s, true) == Some(m as int));
        assert forall|k: int| 0 <= k < s.len() implies #[trigger] s[k] != '|' by {
            assert(is_digit(s[k]));
        }
    }
    assert(!white_space(s[0]));
    assert(is_digit(s.last()));
    assert(!white_space(s.last()));
    assert(trim_start(s) == s);
    assert(trim_end(s) == s);
}

/// The digit character for `d`.
fn digit(d: u64) -> (c: char)
    requires
        d < 10,
    ensures
        c == digit_char(d as int),
{
    ((48 + d) as u8) as char
}

/// Append the decimal digits of `n`.
fn push_digits(s: &mut String, n: u64)
    ensures
        final(s)@ == old(s)@ + decimal_digits(n as nat),
    decreases n,
{
    if n >= 10 {
        push_digits(s, n / 10);
    }
    push_char(s, digit(n % 10));
    proof {
        if n >= 10 {
            assert(old(s)@ + decimal_digits(n as nat) =~= (old(s)@ + decimal_digits((n / 10) as nat)).push(digit_char((n % 10) as int)));
        } else {
            assert(old(s)@ + decimal_digits(n as nat) =~= old(s)@.push(digit_char((n % 10) as int)));
        }
    }
}

/// The datafile line for a row: its path, rank text and time, separated by `|`.
pub fn format_row(path: &str, rank_text: &str, time: i64) -> (r: String)
    ensures
        r@ == row_line(path@, rank_text@, time),
{
    let mut s = path.to_owned();
    push_char(&mut s, '|');
    s.append(rank_text);
    push_char(&mut s, '|');
    let ghost before = s@;
    if time < 0 {
        push_char(&mut s, '-');
        let m: u64 = if time == i64::MIN {
            9223372036854775808u64
        } else {
            (-time) as u64
        };
        push_digits(&mut s, m);
        proof {
            assert(s@ =~= before + decimal_text(time as int));
        }
    } else {
        push_digits(&mut s, time as u64);
    }
    s
}

/// A row written by `format_row`, with no `|` in its path or rank text, reads back
/// as the same path, the trimmed rank text and the same time.
pub proof fn law_formatted_row_reads_back(path: Seq<char>, rank_text: Seq<char>, time: i64)
    requires
        bar_free(path),
        bar_free(rank_text),
    ensures
        line_fields(row_line(path, rank_text, time)) == Some((path, trimmed(rank_text), time)),
{
    lemma_decimal_text(time);
    law_written_line_reads_back(path, rank_text, decimal_text(time as int));
}

/// Index of the first line feed in `s`, or `s.len()` when there is none.
pub open spec fn first_newline(s: Seq<char>) -> int
    decreases s.len(),
{
    if s.len() == 0 {
        0
    } else if s[0] == '\n' {
        0
    } else {
        1 + first_newline(s.drop_first())
    }
}

/// A line without the carriage return that ended it along with its line feed.
pub open spec fn without_cr(line: Seq<char>) -> Seq<char> {
    if line.len() > 0 && line.last() == '\r' {
        line.drop_last()
    } else {
        line
    }
}

/// The lines of a text as `str::lines` gives them: split at `\n` or `\r\n`, the line
/// endings left out, the final line ending optional.
pub open spec fn text_lines(s: Seq<char>) -> Seq<Seq<char>>
    decreases s.len(),
{
    if s.len() == 0 {
        Seq::empty()
    } else {
        let i = first_newline(s);
        if i >= s.len() {
            seq![s]
        } else {
            proof {
                lemma_first_newline_bounds(s);
            }
            seq![without_cr(s.take(i))] + text_lines(s.skip(i + 1))
        }
    }
}

/// The first line feed lies within the text, or just past it when there is none.
pub proof fn lemma_first_newline_bounds(s: Seq<char>)
    ensures
        0 <= first_newline(s) <= s.len(),
    decreases s.len(),
{
    if s.len() > 0 && s[0] != '\n' {
        lemma_first_newline_bounds(s.drop_first());
    }
}

proof fn lemma_first_newline(s: Seq<char>, i: int)
    requires
        0 <= i <= s.len(),
        forall|k: int| 0 <= k < i ==> #[trigger] s[k] != '\n',
        i < s.len() ==> s[i] == '\n',
    ensures
        first_newline(s) == i,
    decreases i,
{
    if i > 0 {
        assert forall|k: int| 0 <= k < i - 1 implies #[trigger] s.drop_first()[k] != '\n' by {
            assert(s.drop_first()[k] == s[k + 1]);
        }
        lemma_first_newline(s.drop_first(), i - 1);
    }
}

/// Split a text into its lines (`str::lines`).
pub fn split_lines(text: &str) -> (r: Vec<String>)
    ensures
        crate::text::views(r@) == text_lines(text@),
{
    let cs = chars_of(text);
    let n = cs.len();
    let ghost s = text@;
    let mut out: Vec<String> = Vec::new();
    let mut cur = String::new();
    let mut pending_cr = false;
    let mut start: usize = 0;
    let mut i: usize = 0;
    proof {
        assert(s.skip(0) =~= s);
        assert(crate::text::views(out@) + text_lines(s) =~= text_lines(s));
    }
    while i < n
        invariant
            cs@ == s,
            n == s.len(),
            start <= i <= n,
            crate::text::views(out@) + text_lines(s.skip(start as int)) == text_lines(s),
            forall|k: int| start <= k < i ==> #[trigger] s[k] != '\n',
            (if pending_cr { cur@.push('\r') } else { cur@ }) == s.subrange(start as int, i as int),
            pending_cr == (i > start && s[i - 1] == '\r'),
        decreases n - i,
    {
        let c = cs[i];
        if c == '\n' {
            proof {
                let rest = s.skip(start as int);
                assert forall|k: int| 0 <= k < i - start implies #[trigger] rest[k] != '\n' by {
                    assert(rest[k] == s[start + k]);
                }
                lemma_first_newline(rest, i - start);
                assert(rest.take(i - start) =~= s.subrange(start as int, i as int));
                assert(rest.skip(i - start + 1) =~= s.skip(i + 1));
                if pending_cr {
                    assert(without_cr(cur@.push('\r')) =~= cur@);
                }
                assert(text_lines(rest) == seq![without_cr(rest.take(i - start))] + text_lines(rest.skip(i - start + 1)));
            }
            let ghost before = out@;
            out.push(cur);
            proof {
                assert(crate::text::views(out@) =~= crate::text::views(before).push(without_cr(s.subrange(start as int, i as int))));
                assert(crate::text::views(out@) + text_lines(s.skip(i + 1)) =~= crate::text::views(before) + (seq![without_cr(s.subrange(start as int, i as int))] + text_lines(s.skip(i + 1))));
            }
            cur = String::new();
            pending_cr = false;
            start = i + 1;
        } else if c == '\r' {
            if pending_cr {
                push_char(&mut cur, '\r');
            }
            pending_cr = true;
        } else {
            if pending_cr {
                push_char(&mut cur, '\r');
            }
            push_char(&mut cur, c);
            pending_cr = false;
        }
        i = i + 1;
        proof {
            assert(s.subrange(start as int, i as int) =~= if start == i { Seq::<char>::empty() } else { s.subrange(start as int, i - 1).push(s[i - 1]) });
        }
    }
    if start < n {
        if pending_cr {
            push_char(&mut cur, '\r');
        }
        proof {
            let rest = s.skip(start as int);
            assert forall|k: int| 0 <= k < rest.len() implies #[trigger] rest[k] != '\n' by {
                assert(rest[k] == s[start + k]);
            }
            lemma_first_newline(rest, rest.len() as int);
            assert(rest =~= s.subrange(start as int, n as int));
            assert(text_lines(rest) == seq![rest]);
        }
        let ghost before = out@;
        out.push(cur);
        proof {
            assert(crate::text::views(out@) =~= crate::text::views(before) + seq![s.skip(start as int)]);
        }
    } else {
        proof {
            assert(s.skip(start as int) =~= Seq::<char>::empty());
            assert(crate::text::views(out@) + Seq::<Seq<char>>::empty() =~= crate::text::views(out@));
        }
    }
    out
}

/// Lines each followed by a line feed, one after another: the text of a written datafile.
pub open spec fn terminated_lines(lines: Seq<Seq<char>>) -> Seq<char>
    decreases lines.len(),
{
    if lines.len() == 0 {
        Seq::empty()
    } else {
        lines[0] + seq!['\n'] + terminated_lines(lines.drop_first())
    }
}

/// A text written as lines, each ended by a line feed, splits back into the same lines,
/// when no line holds a line feed or ends with a carriage return.
pub proof fn law_written_lines_split_back(lines: Seq<Seq<char>>)
    requires
        forall|k: int| 0 <= k < lines.len() ==> {
            &&& forall|q: int| 0 <= q < lines[k].len() ==> #[trigger] lines[k][q] != '\n'
            &&& (#[trigger] lines[k]).len() > 0 ==> lines[k].last() != '\r'
        },
    ensures
        text_lines(terminated_lines(lines)) == lines,
    decreases lines.len(),
{
    if lines.len() > 0 {
        let first = lines[0];
        let rest = terminated_lines(lines.drop_first());
        let text = first + seq!['\n'] + rest;
        assert(lines[0] == first);
        assert forall|q: int| 0 <= q < first.len() implies #[trigger] text[q] != '\n' by {
            assert(text[q] == first[q]);
            assert(lines[0][q] != '\n');
        }
        lemma_first_newline(text, first.len() as int);
        assert(text.take(first.len() as int) =~= first);
        assert(text.skip(first.len() as int + 1) =~= rest);
        assert forall|k: int| 0 <= k < lines.drop_first().len() implies {
            &&& forall|q: int| 0 <= q < lines.drop_first()[k].len() ==> #[trigger] lines.drop_first()[k][q] != '\n'
            &&& (#[trigger] lines.drop_first()[k]).len() > 0 ==> lines.drop_first()[k].last() != '\r'
        } by {
            assert(lines.drop_first()[k] == lines[k + 1]);
        }
        law_written_lines_split_back(lines.drop_first());
        assert(seq![first] + lines.drop_first() =~= lines);
    } else {
        assert(terminated_lines(lines) =~= Seq::<char>::empty());
    }
}

} // verus!
