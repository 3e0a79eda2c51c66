//! The `z` command line: internal requests, options, and the choices made from them.
use vstd::prelude::*;
use crate::datafile::opt_view;
use crate::pattern::{shell_quoted, shquote};
use crate::text::{joined, join_words, parse_usize, decimal_usize, views};

verus! {

/// How matches are ranked.
#[derive(Clone, Copy, PartialEq, Eq, Structural, Debug)]
pub enum Method {
    /// Rank weighted by how recently the directory was visited.
    Frecency,
    /// Rank alone (`-r`).
    Rank,
    /// Time of the last visit alone (`-t`).
    Time,
}

/// How option parsing ended.
#[derive(Clone, Copy, PartialEq, Eq, Structural, Debug)]
pub enum Outcome {
    /// Options and words were read; run the query.
    Run,
    /// `-h` or `--help` was given.
    Help,
    /// An unknown option was given.
    BadOption,
}

/// The options of a `z` invocation and the words of its query.
pub struct Options {
    pub outcome: Outcome,
    pub method: Method,
    pub restrict_cwd: bool,
    pub echo: bool,
    pub list: bool,
    pub remove: bool,
    pub words: Vec<String>,
}

/// What option parsing has gathered so far.
pub struct OptionState {
    pub outcome: Outcome,
    pub method: Method,
    pub restrict_cwd: bool,
    pub echo: bool,
    pub list: bool,
    pub remove: bool,
    pub words: Seq<Seq<char>>,
}

impl Options {
    /// The parsed options as plain values.
    pub open spec fn state(&self) -> OptionState {
        OptionState {
            outcome: self.outcome,
            method: self.method,
            restrict_cwd: self.restrict_cwd,
            echo: self.echo,
            list: self.list,
            remove: self.remove,
            words: views(self.words@),
        }
    }
}

/// Nothing parsed yet: frecency, no flags, no words.
pub open spec fn initial_state() -> OptionState {
    OptionState {
        outcome: Outcome::Run,
        method: Method::Frecency,
        restrict_cwd: false,
        echo: false,
        list: false,
        remove: false,
        words: Seq::empty(),
    }
}

/// The two-character option `-c`.
pub open spec fn short_option(c: char) -> Seq<char> {
    seq!['-', c]
}

/// The option `--help`.
pub open spec fn long_help() -> Seq<char> {
    seq!['-', '-', 'h', 'e', 'l', 'p']
}

/// A word that looks like an option: `-` followed by at least one more character.
pub open spec fn looks_like_option(w: Seq<char>) -> bool {
    w.len() > 1 && w[0] == '-'
}

/// Read the arguments from `i` on, left to right: `--` ends the options and makes the
/// rest words; `-c -e -l -r -t -x` set their options (the later of `-r`/`-t` wins);
/// `-h`/`--help` asks for help; any other word starting with `-` (and longer than it)
/// is an unknown option; every other word joins the query.
pub open spec fn scan_options(raw: Seq<Seq<char>>, i: int, st: OptionState) -> OptionState
    decreases raw.len() - i,
{
    if i < 0 || i >= raw.len() {
        st
    } else {
        let w = raw[i];
        if w == short_option('-') {
            OptionState { words: st.words + raw.skip(i + 1), ..st }
        } else if w == short_option('c') {
            scan_options(raw, i + 1, OptionState { restrict_cwd: true, ..st })
        } else if w == short_option('e') {
            scan_options(raw, i + 1, OptionState { echo: true, ..st })
        } else if w == short_option('l') {
            scan_options(raw, i + 1, OptionState { list: true, ..st })
        } else if w == short_option('r') {
            scan_options(raw, i + 1, OptionState { method: Method::Rank, ..st })
        } else if w == short_option('t') {
            scan_options(raw, i + 1, OptionState { method: Method::Time, ..st })
        } else if w == short_option('x') {
            scan_options(raw, i + 1, OptionState { remove: true, ..st })
        } else if w == short_option('h') || w == long_help() {
            OptionState { outcome: Outcome::Help, ..st }
        } else if looks_like_option(w) {
            OptionState { outcome: Outcome::BadOption, ..st }
        } else {
            scan_options(raw, i + 1, OptionState { words: st.words.push(w), ..st })
        }
    }
}

/// Is `w` exactly the characters of `expected`?
fn is_word(w: &str, chars: &Vec<char>) -> (r: bool)
    ensures
        r == (w@ == chars@),
{
    let n = w.unicode_len();
    if n != chars.len() {
        return false;
    }
    let mut k: usize = 0;
    while k < n
        invariant
            n == w@.len(),
            n == chars@.len(),
            k <= n,
            forall|q: int| 0 <= q < k ==> w@[q] == chars@[q],
        decreases n - k,
    {
        if w.get_char(k) != chars[k] {
            return false;
        }
        k = k + 1;
    }
    proof {
        assert(w@ =~= chars@);
    }
    true
}

/// Is `w` the option `-c` for the given `c`?
fn is_short(w: &str, c: char) -> (r: bool)
    ensures
        r == (w@ == short_option(c)),
{
    let chars = vec!['-', c];
    proof {
        assert(chars@ =~= short_option(c));
    }
    is_word(w, &chars)
}

/// Does `w` start with `-` and have more characters after it?
fn is_option_like(w: &str) -> (r: bool)
    ensures
        r == looks_like_option(w@),
{
    w.unicode_len() > 1 && w.get_char(0) == '-'
}

/// Parse the options of `z` (flags, then the query words).
pub fn parse_options(raw: &Vec<String>) -> (r: Options)
    ensures
        r.state() == scan_options(views(raw@), 0, initial_state()),
{
    let ghost all = views(raw@);
    let mut r = Options {
        outcome: Outcome::Run,
        method: Method::Frecency,
        restrict_cwd: false,
        echo: false,
        list: false,
        remove: false,
        words: Vec::new(),
    };
    let help_chars = vec!['-', '-', 'h', 'e', 'l', 'p'];
    proof {
        assert(views(r.words@) =~= Seq::<Seq<char>>::empty());
        assert(r.state() == initial_state());
        assert(help_chars@ =~= long_help());
    }
    let mut i: usize = 0;
    while i < raw.len()
        invariant
            i <= raw.len(),
            all == views(raw@),
            help_chars@ == long_help(),
            r.outcome == Outcome::Run,
            scan_options(all, 0, initial_state()) == scan_options(all, i as int, r.state()),
        decreases raw.len() - i,
    {
        let w = raw[i].as_str();
        proof {
            assert(all[i as int] == w@);
        }
        if is_short(w, '-') {
            let mut k: usize = i + 1;
            let ghost st0 = r.state();
            while k < raw.len()
                invariant
                    i < k <= raw.len(),
                    all == views(raw@),
                    r.state() == (OptionState { words: st0.words + all.subrange(i + 1, k as int), ..st0 }),
                decreases raw.len() - k,
            {
                let ghost before = r.words@;
                r.words.push(raw[k].clone());
                proof {
                    assert(views(r.words@) =~= views(before).push(all[k as int]));
                    assert(views(r.words@) =~= st0.words + all.subrange(i + 1, k + 1));
                }
                k = k + 1;
            }
            proof {
                assert(all.subrange(i + 1, k as int) =~= all.skip(i + 1));
            }
            return r;
        } else if is_short(w, 'c') {
            r.restrict_cwd = true;
        } else if is_short(w, 'e') {
            r.echo = true;
        } else if is_short(w, 'l') {
            r.list = true;
        } else if is_short(w, 'r') {
            r.method = Method::Rank;
        } else if is_short(w, 't') {
            r.method = Method::Time;
        } else if is_short(w, 'x') {
            r.remove = true;
        } else if is_short(w, 'h') || is_word(w, &help_chars) {
            r.outcome = Outcome::Help;
            return r;
        } else if is_option_like(w) {
            r.outcome = Outcome::BadOption;
            return r;
        } else {
            let ghost before = r.words@;
            r.words.push(raw[i].clone());
            proof {
                assert(views(r.words@) =~= views(before).push(w@));
            }
        }
        i = i + 1;
    }
    r
}

/// The internal request `--add`.
pub open spec fn add_request() -> Seq<char> {
    seq!['-', '-', 'a', 'd', 'd']
}

/// The internal request `--complete`.
pub open spec fn complete_request() -> Seq<char> {
    seq!['-', '-', 'c', 'o', 'm', 'p', 'l', 'e', 't', 'e']
}

/// A request that the shell itself makes: record a directory, or list completions.
pub enum Internal {
    /// `--add PATH...`: record the visit of the path (its words joined with spaces).
    Add(String),
    /// `--complete [WORD]`: list the matches of the word (empty when absent).
    Complete(String),
}

/// Recognize the internal requests, which come first on the command line.
pub fn internal_request(raw: &Vec<String>) -> (r: Option<Internal>)
    ensures
        match r {
            Some(Internal::Add(p)) => raw@.len() > 0 && raw@[0]@ == add_request() && p@ == joined(
                views(raw@).skip(1),
            ),
            Some(Internal::Complete(q)) => raw@.len() > 0 && raw@[0]@ == complete_request() && q@
                == (if raw@.len() > 1 {
                raw@[1]@
            } else {
                Seq::empty()
            }),
            None => raw@.len() == 0 || (raw@[0]@ != add_request() && raw@[0]@
                != complete_request()),
        },
{
    if raw.len() == 0 {
        return None;
    }
    let add_chars = vec!['-', '-', 'a', 'd', 'd'];
    let complete_chars = vec!['-', '-', 'c', 'o', 'm', 'p', 'l', 'e', 't', 'e'];
    proof {
        assert(add_chars@ =~= add_request());
        assert(complete_chars@ =~= complete_request());
    }
    let first = raw[0].as_str();
    if is_word(first, &add_chars) {
        Some(Internal::Add(join_words(raw, 1)))
    } else if is_word(first, &complete_chars) {
        if raw.len() > 1 {
            Some(Internal::Complete(raw[1].clone()))
        } else {
            Some(Internal::Complete(String::new()))
        }
    } else {
        None
    }
}

/// The word being completed: the arguments are `$CURRENT` (1-based) and then the words
/// of the line, so the word is the one at that index; empty when there is none there.
/// Nothing when `$CURRENT` is missing or not a number.
pub open spec fn completion_partial(a: Seq<Seq<char>>) -> Option<Seq<char>> {
    if a.len() == 0 {
        None
    } else {
        match decimal_usize(a[0]) {
            Some(c) => Some(if 1 <= c && c < a.len() {
                a[c as int]
            } else {
                Seq::empty()
            }),
            None => None,
        }
    }
}

/// Pick the word to complete from the completion arguments.
pub fn completion_word(args: &Vec<String>) -> (r: Option<String>)
    ensures
        match completion_partial(views(args@)) {
            Some(p) => r matches Some(s) && s@ == p,
            None => r is None,
        },
{
    if args.len() == 0 {
        return None;
    }
    match parse_usize(args[0].as_str()) {
        Some(c) => {
            if 1 <= c && c < args.len() {
                Some(args[c].clone())
            } else {
                Some(String::new())
            }
        },
        None => None,
    }
}

/// The directory `-x` forgets: the query when there is one, else `$PWD` (empty when unset).
pub fn removal_target(query: &str, pwd: Option<String>) -> (r: String)
    ensures
        r@ == (if query@.len() == 0 {
            match opt_view(pwd) {
                Some(p) => p,
                None => Seq::empty(),
            }
        } else {
            query@
        }),
{
    if query.is_empty() {
        match pwd {
            Some(p) => p,
            None => String::new(),
        }
    } else {
        query.to_owned()
    }
}

/// When the last word is an absolute path and neither `-e` nor `-l` was given, that
/// path is a candidate to change to directly, without matching (if it is a directory).
pub fn direct_target(words: &Vec<String>, echo: bool, list: bool) -> (r: Option<String>)
    ensures
        match r {
            Some(p) => words@.len() > 0 && p@ == words@.last()@ && p@.len() > 0 && p@[0] == '/'
                && !echo && !list,
            None => words@.len() == 0 || words@.last()@.len() == 0 || words@.last()@[0] != '/'
                || echo || list,
        },
{
    if words.len() == 0 || echo || list {
        return None;
    }
    let last = words[words.len() - 1].as_str();
    if last.unicode_len() > 0 && last.get_char(0) == '/' {
        Some(words[words.len() - 1].clone())
    } else {
        None
    }
}

/// The text to match: with `-c`, the query is put after `$PWD` (empty when unset) and a
/// space, so that only directories under the current one match; otherwise the query.
pub open spec fn match_text(query: Seq<char>, restrict_cwd: bool, pwd: Option<Seq<char>>) -> Seq<char> {
    if restrict_cwd {
        let dir = match pwd {
            Some(p) => p,
            None => Seq::empty(),
        };
        dir + seq![' '] + query
    } else {
        query
    }
}

/// What the query is matched as: `$PWD query` under `-c`, the query itself otherwise.
pub fn match_query(query: &str, restrict_cwd: bool, pwd: Option<String>) -> (r: String)
    ensures
        r@ == match_text(query@, restrict_cwd, opt_view(pwd)),
{
    if !restrict_cwd {
        return query.to_owned();
    }
    let mut r = match pwd {
        Some(p) => p,
        None => String::new(),
    };
    crate::text::push_char(&mut r, ' ');
    r.append(query);
    r
}

/// The query lists its matches when `-l` was given or when the query is empty.
pub fn list_mode(list: bool, query: &str) -> (r: bool)
    ensures
        r == (list || query@.len() == 0),
{
    list || query.is_empty()
}

/// What `z` does once the matches are known.
pub enum Action {
    /// Print the matches; the command then exits with `status`.
    List { status: i32 },
    /// Print the best match.
    Echo(String),
    /// Change to the best match.
    ChangeDir(String),
    /// Nothing matched: exit with status 1.
    NoMatch,
}

/// Decide the outcome of a query: list the matches when listing (exit status 1 when
/// there are none); otherwise print (`-e`) or change to the best match, if any.
pub fn final_action(list: bool, echo: bool, best: Option<String>, matches: usize) -> (r: Action)
    ensures
        list ==> r == (Action::List { status: if matches == 0 { 1i32 } else { 0i32 } }),
        !list ==> match best {
            Some(p) => if echo {
                r == Action::Echo(p)
            } else {
                r == Action::ChangeDir(p)
            },
            None => r == Action::NoMatch,
        },
{
    if list {
        return Action::List { status: if matches == 0 { 1 } else { 0 } };
    }
    match best {
        Some(p) => if echo {
            Action::Echo(p)
        } else {
            Action::ChangeDir(p)
        },
        None => Action::NoMatch,
    }
}

/// The shell command that changes to `path`: `cd -- ` and the quoted path.
pub open spec fn cd_text(path: Seq<char>) -> Seq<char> {
    seq!['c', 'd', ' ', '-', '-', ' '] + shell_quoted(path)
}

/// The shell command that changes to `path`.
pub fn cd_command(path: &str) -> (r: String)
    ensures
        r@ == cd_text(path@),
{
    let mut r = String::new();
    crate::text::push_char(&mut r, 'c');
    crate::text::push_char(&mut r, 'd');
    crate::text::push_char(&mut r, ' ');
    crate::text::push_char(&mut r, '-');
    crate::text::push_char(&mut r, '-');
    crate::text::push_char(&mut r, ' ');
    let q = shquote(path);
    r.append(q.as_str());
    proof {
        assert(r@ =~= cd_text(path@));
    }
    r
}

/// No argument starts with `-`.
pub open spec fn no_dash_words(raw: Seq<Seq<char>>) -> bool {
    forall|k: int| 0 <= k < raw.len() ==> !(#[trigger] raw[k].len() > 0 && raw[k][0] == '-')
}

/// Arguments none of which starts with `-` are all query words, in order, with every
/// option at its default.
pub proof fn law_plain_arguments_form_the_query(raw: Seq<Seq<char>>)
    requires
        no_dash_words(raw),
    ensures
        scan_options(raw, 0, initial_state()) == (OptionState { words: raw, ..initial_state() }),
{
    let n = raw.len() as int;
    assert(raw.take(n) =~= raw);
    lemma_prefix_scan(raw, n, 0, initial_state());
    assert(Seq::<Seq<char>>::empty() + raw.subrange(0, n) =~= raw);
}

/// After `--`, every argument is a query word, even one that looks like an option.
pub proof fn law_double_dash_ends_options(raw: Seq<Seq<char>>, rest: Seq<Seq<char>>)
    requires
        no_dash_words(raw),
    ensures
        scan_options(raw + seq![short_option('-')] + rest, 0, initial_state()) == (OptionState {
            words: raw + rest,
            ..initial_state()
        }),
{
    let all = raw + seq![short_option('-')] + rest;
    let n = raw.len() as int;
    assert(all.take(n) =~= raw);
    lemma_prefix_scan(all, n, 0, initial_state());
    assert(all[n] == short_option('-'));
    assert(all.skip(n + 1) =~= rest);
    assert(Seq::<Seq<char>>::empty() + all.subrange(0, n) =~= raw);
}

proof fn lemma_prefix_scan(all: Seq<Seq<char>>, n: int, i: int, st: OptionState)
    requires
        0 <= i <= n <= all.len(),
        no_dash_words(all.take(n)),
    ensures
        scan_options(all, i, st) == scan_options(all, n, OptionState { words: st.words + all.subrange(i, n), ..st }),
    decreases n - i,
{
    if i == n {
        assert(st.words + all.subrange(i, n) =~= st.words);
        assert((OptionState { words: st.words + all.subrange(i, n), ..st }) == st);
    } else {
        let w = all[i];
        assert(all.take(n)[i] == w);
        assert(!(w.len() > 0 && w[0] == '-'));
        assert(w != short_option('-') && w != short_option('c') && w != short_option('e'));
        assert(w != short_option('l') && w != short_option('r') && w != short_option('t'));
        assert(w != short_option('x') && w != short_option('h') && w != long_help());
        let next = OptionState { words: st.words.push(w), ..st };
        lemma_prefix_scan(all, n, i + 1, next);
        assert(st.words.push(w) + all.subrange(i + 1, n) =~= st.words + all.subrange(i, n));
    }
}

/// The six flags `-c -e -l -r -t -x`.
pub open spec fn is_flag_word(w: Seq<char>) -> bool {
    ||| w == seq!['-', 'c']
    ||| w == seq!['-', 'e']
    ||| w == seq!['-', 'l']
    ||| w == seq!['-', 'r']
    ||| w == seq!['-', 't']
    ||| w == seq!['-', 'x']
}

/// A word that is not a dash followed by more characters.
pub open spec fn is_plain_word(w: Seq<char>) -> bool {
    !(w.len() > 1 && w[0] == '-')
}

/// `w` occurs in `raw` at or after `i`.
pub open spec fn occurs_from(raw: Seq<Seq<char>>, w: Seq<char>, i: int) -> bool {
    exists|k: int| i <= k < raw.len() && #[trigger] raw[k] == w
}

/// `w` occurs in `raw` at some `k >= i` with no `later` after it.
pub open spec fn last_of(raw: Seq<Seq<char>>, w: Seq<char>, later: Seq<char>, i: int) -> bool {
    exists|k: int| i <= k < raw.len() && #[trigger] raw[k] == w && !occurs_from(raw, later, k + 1)
}

proof fn lemma_scan_flags(raw: Seq<Seq<char>>, i: int, st: OptionState)
    requires
        0 <= i <= raw.len(),
        st.outcome == Outcome::Run,
        forall|k: int| 0 <= k < raw.len() ==> is_flag_word(#[trigger] raw[k]) || is_plain_word(raw[k]),
    ensures
        ({
            let r = scan_options(raw, i, st);
            &&& r.outcome == Outcome::Run
            &&& r.restrict_cwd == (st.restrict_cwd || occurs_from(raw, seq!['-', 'c'], i))
            &&& r.echo == (st.echo || occurs_from(raw, seq!['-', 'e'], i))
            &&& r.list == (st.list || occurs_from(raw, seq!['-', 'l'], i))
            &&& r.remove == (st.remove || occurs_from(raw, seq!['-', 'x'], i))
            &&& r.method == if last_of(raw, seq!['-', 'r'], seq!['-', 't'], i) {
                Method::Rank
            } else if last_of(raw, seq!['-', 't'], seq!['-', 'r'], i) {
                Method::Time
            } else {
                st.method
            }
            &&& r.words == st.words + raw.skip(i).filter(|w: Seq<char>| is_plain_word(w))
        }),
    decreases raw.len() - i,
{
    let pred = |w: Seq<char>| is_plain_word(w);
    if i == raw.len() {
        assert(raw.skip(i) =~= Seq::<Seq<char>>::empty());
        reveal_with_fuel(Seq::filter, 1);
        assert(st.words + raw.skip(i).filter(pred) =~= st.words);
    } else {
        let w = raw[i];
        assert(is_flag_word(w) || is_plain_word(w));
        assert(short_option('-') == seq!['-', '-']);
        assert(short_option('c') == seq!['-', 'c']);
        assert(short_option('e') == seq!['-', 'e']);
        assert(short_option('l') == seq!['-', 'l']);
        assert(short_option('r') == seq!['-', 'r']);
        assert(short_option('t') == seq!['-', 't']);
        assert(short_option('x') == seq!['-', 'x']);
        assert(w != seq!['-', '-']) by {
            if w == seq!['-', '-'] {
                assert(w[1] == '-');
            }
        }
        assert(w != short_option('h') && w != long_help()) by {
            if w == short_option('h') {
                assert(w[1] == 'h');
            }
            if w == long_help() {
                assert(w.len() == 6);
            }
        }
        let next = if w == seq!['-', 'c'] {
            OptionState { restrict_cwd: true, ..st }
        } else if w == seq!['-', 'e'] {
            OptionState { echo: true, ..st }
        } else if w == seq!['-', 'l'] {
            OptionState { list: true, ..st }
        } else if w == seq!['-', 'r'] {
            OptionState { method: Method::Rank, ..st }
        } else if w == seq!['-', 't'] {
            OptionState { method: Method::Time, ..st }
        } else if w == seq!['-', 'x'] {
            OptionState { remove: true, ..st }
        } else {
            OptionState { words: st.words.push(w), ..st }
        };
        assert(scan_options(raw, i, st) == scan_options(raw, i + 1, next));
        lemma_scan_flags(raw, i + 1, next);
        assert(raw.skip(i) =~= seq![w] + raw.skip(i + 1));
        raw.skip(i + 1).lemma_filter_prepend(w, pred);
        if is_flag_word(w) {
            assert(!is_plain_word(w));
            assert(raw.skip(i).filter(pred) == raw.skip(i + 1).filter(pred));
        } else {
            assert(pred(w));
            assert(st.words.push(w) + raw.skip(i + 1).filter(pred) =~= st.words + (seq![w] + raw.skip(i + 1).filter(pred)));
        }
        assert forall|f: Seq<char>| #[trigger] occurs_from(raw, f, i) == (raw[i] == f || occurs_from(raw, f, i + 1)) by {
            if occurs_from(raw, f, i) && raw[i] != f {
                let k = choose|k: int| i <= k < raw.len() && #[trigger] raw[k] == f;
                assert(k > i);
            }
        }
        assert forall|f: Seq<char>, g: Seq<char>| f != g implies #[trigger] last_of(raw, f, g, i) == ((raw[i] == f && !occurs_from(raw, g, i + 1)) || last_of(raw, f, g, i + 1)) by {
            if last_of(raw, f, g, i) && !(raw[i] == f && !occurs_from(raw, g, i + 1)) {
                let k = choose|k: int| i <= k < raw.len() && #[trigger] raw[k] == f && !occurs_from(raw, g, k + 1);
                assert(k > i);
            }
            if raw[i] == f && !occurs_from(raw, g, i + 1) {
                assert(raw[i] == f);
            }
        }
        assert(seq!['-', 'r'] != seq!['-', 't']) by {
            assert(seq!['-', 'r'][1] != seq!['-', 't'][1]);
        }
        if w == seq!['-', 'r'] {
            assert(w != seq!['-', 't']) by { assert(w[1] == 'r'); }
            if occurs_from(raw, seq!['-', 't'], i + 1) && !last_of(raw, seq!['-', 'r'], seq!['-', 't'], i + 1) {
                let k = choose|k: int| i + 1 <= k < raw.len() && #[trigger] raw[k] == seq!['-', 't'];
                lemma_last_exists(raw, seq!['-', 't'], seq!['-', 'r'], i + 1);
            }
        }
        if w == seq!['-', 't'] {
            assert(w != seq!['-', 'r']) by { assert(w[1] == 't'); }
            if occurs_from(raw, seq!['-', 'r'], i + 1) && !last_of(raw, seq!['-', 't'], seq!['-', 'r'], i + 1) {
                lemma_last_exists(raw, seq!['-', 'r'], seq!['-', 't'], i + 1);
            }
        }
    }
}

/// When `f` or `g` occurs from `i`, one of them is the last: either `f` occurs with no `g`
/// after it, or `g` occurs with no `f` after it.
proof fn lemma_last_exists(raw: Seq<Seq<char>>, f: Seq<char>, g: Seq<char>, i: int)
    requires
        0 <= i <= raw.len(),
        f != g,
        occurs_from(raw, f, i),
    ensures
        last_of(raw, f, g, i) || last_of(raw, g, f, i),
    decreases raw.len() - i,
{
    let k = choose|k: int| i <= k < raw.len() && #[trigger] raw[k] == f;
    if occurs_from(raw, g, k + 1) {
        lemma_last_exists(raw, g, f, k + 1);
        if last_of(raw, g, f, k + 1) {
            let m = choose|m: int| k + 1 <= m < raw.len() && #[trigger] raw[m] == g && !occurs_from(raw, f, m + 1);
            assert(i <= m < raw.len() && raw[m] == g && !occurs_from(raw, f, m + 1));
        } else {
            let m = choose|m: int| k + 1 <= m < raw.len() && #[trigger] raw[m] == f && !occurs_from(raw, g, m + 1);
            assert(i <= m < raw.len() && raw[m] == f && !occurs_from(raw, g, m + 1));
        }
    } else {
        assert(i <= k < raw.len() && raw[k] == f && !occurs_from(raw, g, k + 1));
    }
}

/// With only flags and plain words on the line, each flag sets its own option and no
/// other: `-c`, `-e`, `-l`, `-x` are on exactly when given; the method is rank when a `-r`
/// comes after every `-t`, time when a `-t` comes after every `-r`, frecency when neither
/// is given; the query words are the plain words, in order.
pub proof fn law_each_flag_sets_its_own_option(raw: Seq<Seq<char>>)
    requires
        forall|k: int| 0 <= k < raw.len() ==> is_flag_word(#[trigger] raw[k]) || is_plain_word(raw[k]),
    ensures
        ({
            let r = scan_options(raw, 0, initial_state());
            &&& r.outcome == Outcome::Run
            &&& r.restrict_cwd == occurs_from(raw, seq!['-', 'c'], 0)
            &&& r.echo == occurs_from(raw, seq!['-', 'e'], 0)
            &&& r.list == occurs_from(raw, seq!['-', 'l'], 0)
            &&& r.remove == occurs_from(raw, seq!['-', 'x'], 0)
            &&& r.method == if last_of(raw, seq!['-', 'r'], seq!['-', 't'], 0) {
                Method::Rank
            } else if last_of(raw, seq!['-', 't'], seq!['-', 'r'], 0) {
                Method::Time
            } else {
                Method::Frecency
            }
            &&& r.words == raw.filter(|w: Seq<char>| is_plain_word(w))
        }),
{
    lemma_scan_flags(raw, 0, initial_state());
    assert(raw.skip(0) =~= raw);
    assert(Seq::<Seq<char>>::empty() + raw.filter(|w: Seq<char>| is_plain_word(w)) =~= raw.filter(|w: Seq<char>| is_plain_word(w)));
}

} // verus!
