//! Desktop-entry parsing and launch-surface classification.
use vstd::prelude::*;
use crate::models::DesktopApp;
use crate::text::{
    chars_of, contains, contains_str, extend, find_from, find_in, join, join_vecs, opt_view,
    push_vec, seq_eq, slice_of, split_words, starts_with, string_of, vviews, words, trim, trim_range,
    ends_with, eq_ignore_case, lines, split_lines, trim_all, lower_vec, matches_at,
};

verus! {

/// `s[i..]` with every non-overlapping occurrence of `pat` removed, left to right.
pub open spec fn remove_from(s: Seq<char>, pat: Seq<char>, i: int) -> Seq<char>
    decreases s.len() - i,
{
    if i < 0 || i > s.len() || pat.len() == 0 {
        s.subrange(if 0 <= i <= s.len() { i } else { s.len() as int }, s.len() as int)
    } else {
        match find_from(s, pat, i, s.len() as int) {
            None => s.subrange(i, s.len() as int),
            Some(k) => if i <= k && k + pat.len() <= s.len() {
                s.subrange(i, k) + remove_from(s, pat, k + pat.len())
            } else {
                Seq::empty()
            },
        }
    }
}

/// `s` with every occurrence of `pat` removed.
pub open spec fn remove_all(s: Seq<char>, pat: Seq<char>) -> Seq<char> {
    remove_from(s, pat, 0)
}

/// Removes every occurrence of `pat` from `s`.
pub fn remove_all_exec(s: &[char], pat: &[char]) -> (r: Vec<char>)
    ensures
        r@ == remove_all(s@, pat@),
{
    if pat.len() == 0 {
        assert(s@.subrange(0, s@.len() as int) == s@);
        return slice_of(s, 0, s.len());
    }
    let mut out: Vec<char> = Vec::new();
    let mut i: usize = 0;
    while i < s.len()
        invariant
            i <= s@.len(),
            pat@.len() > 0,
            remove_all(s@, pat@) == out@ + remove_from(s@, pat@, i as int),
        decreases s@.len() - i,
    {
        match find_in(s, pat, i, s.len()) {
            None => {
                let rest = slice_of(s, i, s.len());
                extend(&mut out, rest.as_slice());
                return out;
            },
            Some(k) => {
                let ghost o = out@;
                extend(&mut out, slice_of(s, i, k).as_slice());
                assert(o + remove_from(s@, pat@, i as int) =~= out@ + remove_from(
                    s@,
                    pat@,
                    k + pat@.len(),
                ));
                i = k + pat.len();
            },
        }
    }
    assert(remove_from(s@, pat@, i as int) =~= Seq::<char>::empty());
    assert(out@ + Seq::<char>::empty() =~= out@);
    out
}

/// The field codes a desktop-entry `Exec` may carry.
pub open spec fn field_codes() -> Seq<Seq<char>> {
    seq!["%f"@, "%F"@, "%u"@, "%U"@, "%i"@, "%c"@, "%k"@]
}

/// `s` with the first `n` field codes removed in turn.
pub open spec fn remove_codes(s: Seq<char>, n: int) -> Seq<char>
    decreases n,
{
    if n <= 0 || n > field_codes().len() {
        s
    } else {
        remove_all(remove_codes(s, n - 1), field_codes()[n - 1])
    }
}

/// An `Exec` value without field codes, its words joined by single spaces.
pub open spec fn clean_exec(exec: Seq<char>) -> Seq<char> {
    join(words(remove_codes(exec, 7)), seq![' '])
}

/// Removes the field codes `%f %F %u %U %i %c %k` and collapses whitespace.
pub fn strip_desktop_exec_placeholders(exec: &str) -> (r: String)
    ensures
        r@ == clean_exec(exec@),
{
    let codes: [&str; 7] = ["%f", "%F", "%u", "%U", "%i", "%c", "%k"];
    let mut acc = chars_of(exec);
    let mut n: usize = 0;
    while n < 7
        invariant
            n <= 7,
            acc@ == remove_codes(exec@, n as int),
            forall|j: int| 0 <= j < 7 ==> (#[trigger] codes@[j])@ == field_codes()[j],
        decreases 7 - n,
    {
        let pat = chars_of(codes[n]);
        acc = remove_all_exec(acc.as_slice(), pat.as_slice());
        n += 1;
    }
    let w = split_words(acc.as_slice());
    let sp: Vec<char> = vec![' '];
    assert(sp@ == seq![' ']);
    string_of(join_vecs(w.as_slice(), sp.as_slice()).as_slice())
}

/// The entry is a Flatpak export or runs `flatpak`.
pub open spec fn is_flatpak_entry_spec(path: Seq<char>, exec: Seq<char>) -> bool {
    contains(path, "/flatpak/exports/share/applications"@) || contains(exec, "flatpak run"@)
        || contains(exec, "/flatpak"@)
}

/// Whether the entry at `path` with this command belongs to Flatpak.
pub fn is_flatpak_entry(path: &str, exec: &str) -> (r: bool)
    ensures
        r == is_flatpak_entry_spec(path@, exec@),
{
    let p = chars_of(path);
    let e = chars_of(exec);
    contains_str(p.as_slice(), "/flatpak/exports/share/applications") || contains_str(
        e.as_slice(),
        "flatpak run",
    ) || contains_str(e.as_slice(), "/flatpak")
}

/// An ASCII letter or digit, `.` or `_`.
pub open spec fn is_app_id_char(c: char) -> bool {
    ('a' <= c && c <= 'z') || ('A' <= c && c <= 'Z') || ('0' <= c && c <= '9') || c == '.' || c
        == '_'
}

/// A reverse-DNS application id: it holds a `.` and only id characters.
pub open spec fn is_flatpak_app_id(v: Seq<char>) -> bool {
    contains(v, seq!['.']) && forall|i: int| 0 <= i < v.len() ==> is_app_id_char(#[trigger] v[i])
}

fn is_app_id_char_exec(c: char) -> (r: bool)
    ensures
        r == is_app_id_char(c),
{
    ('a' <= c && c <= 'z') || ('A' <= c && c <= 'Z') || ('0' <= c && c <= '9') || c == '.' || c
        == '_'
}

fn looks_like_app_id_chars(v: &[char]) -> (r: bool)
    ensures
        r == is_flatpak_app_id(v@),
{
    let dot: Vec<char> = vec!['.'];
    assert(dot@ == seq!['.']);
    if !crate::text::contains_seq(v, dot.as_slice()) {
        return false;
    }
    let mut i: usize = 0;
    while i < v.len()
        invariant
            i <= v@.len(),
            forall|j: int| 0 <= j < i ==> is_app_id_char(#[trigger] v@[j]),
        decreases v@.len() - i,
    {
        if !is_app_id_char_exec(v[i]) {
            return false;
        }
        i += 1;
    }
    true
}

/// Whether `value` looks like a reverse-DNS Flatpak application id.
pub fn looks_like_flatpak_app_id(value: &str) -> (r: bool)
    ensures
        r == is_flatpak_app_id(value@),
{
    looks_like_app_id_chars(chars_of(value).as_slice())
}

/// The first index `j >= i` with `w[j] == "run"`.
pub open spec fn find_run(w: Seq<Seq<char>>, i: int) -> Option<int>
    decreases w.len() - i,
{
    if i < 0 || i >= w.len() {
        None
    } else if w[i] == "run"@ {
        Some(i)
    } else {
        find_run(w, i + 1)
    }
}

/// The first word of `w[i..]` that is not a flag and looks like an app id.
pub open spec fn first_app_id(w: Seq<Seq<char>>, i: int) -> Option<Seq<char>>
    decreases w.len() - i,
{
    if i < 0 || i >= w.len() {
        None
    } else if !starts_with(w[i], "-"@) && is_flatpak_app_id(w[i]) {
        Some(w[i])
    } else {
        first_app_id(w, i + 1)
    }
}

/// The app id of a `flatpak ... run ... <app id>` command.
pub open spec fn flatpak_id_of(exec: Seq<char>) -> Option<Seq<char>> {
    if !contains(exec, "flatpak"@) || !contains(exec, "run"@) {
        None
    } else {
        match find_run(words(exec), 0) {
            None => None,
            Some(r) => first_app_id(words(exec), r + 1),
        }
    }
}

fn find_run_index(w: &[Vec<char>]) -> (r: Option<usize>)
    ensures
        r is None <==> find_run(vviews(w@), 0) is None,
        r matches Some(i) ==> find_run(vviews(w@), 0) == Some(i as int) && i < w@.len(),
{
    let run = chars_of("run");
    let mut i: usize = 0;
    while i < w.len()
        invariant
            i <= w@.len(),
            run@ == "run"@,
            find_run(vviews(w@), 0) == find_run(vviews(w@), i as int),
        decreases w@.len() - i,
    {
        if seq_eq(w[i].as_slice(), run.as_slice()) {
            return Some(i);
        }
        i += 1;
    }
    None
}

/// The app id named after `run` in a `flatpak run` command.
pub fn flatpak_app_id_from_exec(exec: &str) -> (r: Option<String>)
    ensures
        opt_view(r) == flatpak_id_of(exec@),
{
    let e = chars_of(exec);
    if !contains_str(e.as_slice(), "flatpak") || !contains_str(e.as_slice(), "run") {
        return None;
    }
    let w = split_words(e.as_slice());
    let dash = chars_of("-");
    let i = match find_run_index(w.as_slice()) {
        Some(i) => i,
        None => return None,
    };
    let mut j: usize = i + 1;
    while j < w.len()
        invariant
            i < j <= w@.len(),
            dash@ == "-"@,
            words(exec@) == vviews(w@),
            contains(exec@, "flatpak"@) && contains(exec@, "run"@),
            find_run(vviews(w@), 0) == Some(i as int),
            first_app_id(vviews(w@), i + 1) == first_app_id(vviews(w@), j as int),
        decreases w@.len() - j,
    {
        let t = w[j].as_slice();
        assert(vviews(w@)[j as int] == t@);
        if !crate::text::matches_at(t, dash.as_slice(), 0) && looks_like_app_id_chars(t) {
            return Some(string_of(t));
        }
        j += 1;
    }
    None
}

/// An ASCII digit.
pub open spec fn is_digit(c: char) -> bool {
    '0' <= c && c <= '9'
}

/// The end of the run of digits starting at `i`.
pub open spec fn digit_end(s: Seq<char>, i: int) -> int
    decreases s.len() - i,
{
    if 0 <= i < s.len() && is_digit(s[i]) {
        digit_end(s, i + 1)
    } else {
        i
    }
}

/// Every character of `s` is an ASCII digit.
pub open spec fn all_digits(s: Seq<char>) -> bool {
    forall|i: int| 0 <= i < s.len() ==> is_digit(#[trigger] s[i])
}

/// The first index `j >= i` with `w[j] == word`.
pub open spec fn find_word(w: Seq<Seq<char>>, word: Seq<char>, i: int) -> Option<int>
    decreases w.len() - i,
{
    if i < 0 || i >= w.len() {
        None
    } else if w[i] == word {
        Some(i)
    } else {
        find_word(w, word, i + 1)
    }
}

/// The Steam app id of a command: the digits after `steam://rungameid/`, or
/// else the all-digit word after `-applaunch`.
pub open spec fn steam_id_of(exec: Seq<char>) -> Option<Seq<char>> {
    let uri = match find_from(exec, "steam://rungameid/"@, 0, exec.len() as int) {
        Some(k) => {
            let t = k + "steam://rungameid/"@.len();
            let d = exec.subrange(t, digit_end(exec, t));
            if d.len() > 0 {
                Some(d)
            } else {
                None
            }
        },
        None => None,
    };
    if uri is Some {
        uri
    } else {
        let w = words(exec);
        match find_word(w, "-applaunch"@, 0) {
            Some(i) => {
                let id = if i + 1 < w.len() {
                    w[i + 1]
                } else {
                    Seq::empty()
                };
                if id.len() > 0 && all_digits(id) {
                    Some(id)
                } else {
                    None
                }
            },
            None => None,
        }
    }
}

fn digit_end_in(s: &[char], i: usize) -> (r: usize)
    requires
        i <= s@.len(),
    ensures
        r as int == digit_end(s@, i as int),
        i <= r <= s@.len(),
{
    let mut j: usize = i;
    while j < s.len() && '0' <= s[j] && s[j] <= '9'
        invariant
            i <= j <= s@.len(),
            digit_end(s@, i as int) == digit_end(s@, j as int),
        decreases s@.len() - j,
    {
        j += 1;
    }
    j
}

fn find_word_index(w: &[Vec<char>], word: &[char]) -> (r: Option<usize>)
    ensures
        r is None <==> find_word(vviews(w@), word@, 0) is None,
        r matches Some(i) ==> find_word(vviews(w@), word@, 0) == Some(i as int) && i < w@.len(),
{
    let mut i: usize = 0;
    while i < w.len()
        invariant
            i <= w@.len(),
            find_word(vviews(w@), word@, 0) == find_word(vviews(w@), word@, i as int),
        decreases w@.len() - i,
    {
        if seq_eq(w[i].as_slice(), word) {
            return Some(i);
        }
        i += 1;
    }
    None
}

fn all_digits_exec(s: &[char]) -> (r: bool)
    ensures
        r == all_digits(s@),
{
    let mut i: usize = 0;
    while i < s.len()
        invariant
            i <= s@.len(),
            forall|j: int| 0 <= j < i ==> is_digit(#[trigger] s@[j]),
        decreases s@.len() - i,
    {
        if !('0' <= s[i] && s[i] <= '9') {
            return false;
        }
        i += 1;
    }
    true
}

/// The Steam app id a launch command starts (see `steam_id_of`).
pub fn steam_app_id_from_exec(exec: &str) -> (r: Option<String>)
    ensures
        opt_view(r) == steam_id_of(exec@),
{
    let e = chars_of(exec);
    let m = chars_of("steam://rungameid/");
    if let Some(k) = find_in(e.as_slice(), m.as_slice(), 0, e.len()) {
        let t = k + m.len();
        let d_end = digit_end_in(e.as_slice(), t);
        if d_end > t {
            return Some(string_of(slice_of(e.as_slice(), t, d_end).as_slice()));
        }
    }
    let w = split_words(e.as_slice());
    let flag = chars_of("-applaunch");
    let i = match find_word_index(w.as_slice(), flag.as_slice()) {
        Some(i) => i,
        None => return None,
    };
    if i < w.len() - 1 {
        let id = w[i + 1].as_slice();
        assert(vviews(w@)[i + 1] == id@);
        if id.len() > 0 && all_digits_exec(id) {
            return Some(string_of(id));
        }
    }
    None
}

/// A character that ends a segment of a `heroic://launch/` path.
pub open spec fn is_heroic_sep(c: char) -> bool {
    c == '/' || c == '?' || c == ' ' || c == '"'
}

/// The end of the segment starting at `i`.
pub open spec fn seg_end(s: Seq<char>, i: int) -> int
    decreases s.len() - i,
{
    if 0 <= i < s.len() && !is_heroic_sep(s[i]) {
        seg_end(s, i + 1)
    } else {
        i
    }
}

/// The pieces of `s[i..]` between occurrences of `c` (empty pieces kept).
pub open spec fn split_from(s: Seq<char>, c: char, i: int) -> Seq<Seq<char>>
    decreases s.len() + 1 - i,
{
    if i < 0 || i > s.len() {
        Seq::empty()
    } else {
        match find_from(s, seq![c], i, s.len() as int) {
            Some(k) => if i <= k < s.len() {
                seq![s.subrange(i, k)] + split_from(s, c, k + 1)
            } else {
                Seq::empty()
            },
            None => seq![s.subrange(i, s.len() as int)],
        }
    }
}

/// `s` without leading double quotes.
pub open spec fn strip_quotes_start(s: Seq<char>) -> Seq<char>
    decreases s.len(),
{
    if s.len() > 0 && s[0] == '"' {
        strip_quotes_start(s.drop_first())
    } else {
        s
    }
}

/// `s` without trailing double quotes.
pub open spec fn strip_quotes_end(s: Seq<char>) -> Seq<char>
    decreases s.len(),
{
    if s.len() > 0 && s.last() == '"' {
        strip_quotes_end(s.drop_last())
    } else {
        s
    }
}

/// One `key=value` piece of a `heroic://launch?` query: its first word,
/// without surrounding double quotes.
pub open spec fn query_pair(piece: Seq<char>) -> Seq<char> {
    let w = words(piece);
    strip_quotes_end(
        strip_quotes_start(
            if w.len() > 0 {
                w[0]
            } else {
                Seq::empty()
            },
        ),
    )
}

/// `(appName, runner)` after reading the first `n` query pieces; a later
/// non-empty value replaces an earlier one.
pub open spec fn query_fold(pieces: Seq<Seq<char>>, n: int) -> (Option<Seq<char>>, Option<
    Seq<char>,
>)
    decreases n,
{
    if n <= 0 || n > pieces.len() {
        (None, None)
    } else {
        let st = query_fold(pieces, n - 1);
        let pair = query_pair(pieces[n - 1]);
        match find_from(pair, seq!['='], 0, pair.len() as int) {
            None => st,
            Some(e) => {
                let k = pair.subrange(0, e);
                let v = pair.subrange(e + 1, pair.len() as int);
                if k == "appName"@ && v.len() > 0 {
                    (Some(v), st.1)
                } else if k == "runner"@ && v.len() > 0 {
                    (st.0, Some(v))
                } else {
                    st
                }
            },
        }
    }
}

/// Platform and app name of a Heroic launch URI: from the path form
/// `heroic://launch/<platform>/<app>`, else from the query form
/// `heroic://launch?appName=<app>&runner=<platform>`. A path form whose
/// first segment is not followed by a separator gives nothing.
pub open spec fn heroic_of(exec: Seq<char>) -> Option<(Option<Seq<char>>, Option<Seq<char>>)> {
    let path = match find_from(exec, "heroic://launch/"@, 0, exec.len() as int) {
        Some(k) => {
            let t = exec.subrange(k + "heroic://launch/"@.len(), exec.len() as int);
            let e1 = seg_end(t, 0);
            if e1 >= t.len() {
                Some(None)
            } else {
                let p = trim(t.subrange(0, e1));
                let a = trim(t.subrange(e1 + 1, seg_end(t, e1 + 1)));
                if p.len() > 0 && a.len() > 0 {
                    Some(Some((p, a)))
                } else {
                    None
                }
            }
        },
        None => None,
    };
    match path {
        Some(None) => None,
        Some(Some((p, a))) => Some((Some(p), Some(a))),
        None => match find_from(exec, "heroic://launch?"@, 0, exec.len() as int) {
            None => None,
            Some(k) => {
                let q = exec.subrange(k + "heroic://launch?"@.len(), exec.len() as int);
                let pieces = split_from(q, '&', 0);
                let (app, runner) = query_fold(pieces, pieces.len() as int);
                match app {
                    None => None,
                    Some(a) => Some((runner, Some(a))),
                }
            },
        },
    }
}

fn seg_end_in(s: &[char], i: usize) -> (r: usize)
    requires
        i <= s@.len(),
    ensures
        r as int == seg_end(s@, i as int),
        i <= r <= s@.len(),
{
    let mut j: usize = i;
    while j < s.len() && !(s[j] == '/' || s[j] == '?' || s[j] == ' ' || s[j] == '"')
        invariant
            i <= j <= s@.len(),
            seg_end(s@, i as int) == seg_end(s@, j as int),
        decreases s@.len() - j,
    {
        j += 1;
    }
    j
}

fn split_pieces(s: &[char], c: char) -> (r: Vec<Vec<char>>)
    ensures
        vviews(r@) == split_from(s@, c, 0),
{
    let sep: Vec<char> = vec![c];
    assert(sep@ == seq![c]);
    let mut out: Vec<Vec<char>> = Vec::new();
    let mut i: usize = 0;
    loop
        invariant
            i <= s@.len(),
            sep@ == seq![c],
            split_from(s@, c, 0) == vviews(out@) + split_from(s@, c, i as int),
        decreases s@.len() - i,
    {
        let ghost o = vviews(out@);
        match find_in(s, sep.as_slice(), i, s.len()) {
            Some(k) => {
                push_vec(&mut out, slice_of(s, i, k));
                assert(o + split_from(s@, c, i as int) =~= vviews(out@) + split_from(
                    s@,
                    c,
                    k + 1,
                ));
                i = k + 1;
            },
            None => {
                push_vec(&mut out, slice_of(s, i, s.len()));
                assert(o + split_from(s@, c, i as int) =~= vviews(out@));
                return out;
            },
        }
    }
}

fn strip_quotes(s: &[char]) -> (r: Vec<char>)
    ensures
        r@ == strip_quotes_end(strip_quotes_start(s@)),
{
    let mut a: usize = 0;
    assert(s@.subrange(0, s@.len() as int) == s@);
    while a < s.len() && s[a] == '"'
        invariant
            a <= s@.len(),
            strip_quotes_start(s@) == strip_quotes_start(s@.subrange(a as int, s@.len() as int)),
        decreases s@.len() - a,
    {
        assert(s@.subrange(a as int, s@.len() as int).drop_first() =~= s@.subrange(
            a + 1,
            s@.len() as int,
        ));
        a += 1;
    }
    let mut b: usize = s.len();
    assert(strip_quotes_start(s@) == s@.subrange(a as int, s@.len() as int));
    while b > a && s[b - 1] == '"'
        invariant
            a <= b <= s@.len(),
            strip_quotes_end(s@.subrange(a as int, s@.len() as int)) == strip_quotes_end(
                s@.subrange(a as int, b as int),
            ),
        decreases b,
    {
        assert(s@.subrange(a as int, b as int).drop_last() =~= s@.subrange(a as int, b - 1));
        b -= 1;
    }
    slice_of(s, a, b)
}

fn query_pair_exec(piece: &[char]) -> (r: Vec<char>)
    ensures
        r@ == query_pair(piece@),
{
    let w = split_words(piece);
    if w.len() > 0 {
        assert(vviews(w@)[0] == w@[0]@);
        strip_quotes(w[0].as_slice())
    } else {
        let e: Vec<char> = Vec::new();
        strip_quotes(e.as_slice())
    }
}

fn heroic_query(q: &[char]) -> (r: (Option<Vec<char>>, Option<Vec<char>>))
    ensures
        ({
            let pieces = split_from(q@, '&', 0);
            query_fold(pieces, pieces.len() as int)
        }) == (
            match r.0 {
                Some(v) => Some(v@),
                None => None,
            },
            match r.1 {
                Some(v) => Some(v@),
                None => None,
            },
        ),
{
    let pieces = split_pieces(q, '&');
    let eq: Vec<char> = vec!['='];
    assert(eq@ == seq!['=']);
    let app_key = chars_of("appName");
    let runner_key = chars_of("runner");
    let mut app: Option<Vec<char>> = None;
    let mut runner: Option<Vec<char>> = None;
    let mut n: usize = 0;
    while n < pieces.len()
        invariant
            n <= pieces@.len(),
            eq@ == seq!['='],
            app_key@ == "appName"@,
            runner_key@ == "runner"@,
            vviews(pieces@) == split_from(q@, '&', 0),
            query_fold(vviews(pieces@), n as int) == (
                match app {
                    Some(v) => Some(v@),
                    None => None,
                },
                match runner {
                    Some(v) => Some(v@),
                    None => None,
                },
            ),
        decreases pieces@.len() - n,
    {
        let pair = query_pair_exec(pieces[n].as_slice());
        assert(vviews(pieces@)[n as int] == pieces@[n as int]@);
        match find_in(pair.as_slice(), eq.as_slice(), 0, pair.len()) {
            None => {},
            Some(e) => {
                let k = slice_of(pair.as_slice(), 0, e);
                let v = slice_of(pair.as_slice(), e + 1, pair.len());
                if seq_eq(k.as_slice(), app_key.as_slice()) && v.len() > 0 {
                    app = Some(v);
                } else if seq_eq(k.as_slice(), runner_key.as_slice()) && v.len() > 0 {
                    runner = Some(v);
                }
            },
        }
        n += 1;
    }
    (app, runner)
}

/// Platform and app name of a Heroic launch command (see `heroic_of`).
pub fn heroic_game_from_exec(exec: &str) -> (r: Option<(Option<String>, Option<String>)>)
    ensures
        heroic_of(exec@) == match r {
            Some((p, a)) => Some((opt_view(p), opt_view(a))),
            None => None,
        },
{
    let e = chars_of(exec);
    let marker = chars_of("heroic://launch/");
    if let Some(k) = find_in(e.as_slice(), marker.as_slice(), 0, e.len()) {
        let t = slice_of(e.as_slice(), k + marker.len(), e.len());
        let e1 = seg_end_in(t.as_slice(), 0);
        if e1 >= t.len() {
            return None;
        }
        let p = trim_range(t.as_slice(), 0, e1);
        let e2 = seg_end_in(t.as_slice(), e1 + 1);
        let a = trim_range(t.as_slice(), e1 + 1, e2);
        if p.len() > 0 && a.len() > 0 {
            return Some((Some(string_of(p.as_slice())), Some(string_of(a.as_slice()))));
        }
    }
    let qm = chars_of("heroic://launch?");
    let k = match find_in(e.as_slice(), qm.as_slice(), 0, e.len()) {
        Some(k) => k,
        None => return None,
    };
    let q = slice_of(e.as_slice(), k + qm.len(), e.len());
    let (app, runner) = heroic_query(q.as_slice());
    match app {
        None => None,
        Some(a) => Some(
            (
                match runner {
                    Some(r) => Some(string_of(r.as_slice())),
                    None => None,
                },
                Some(string_of(a.as_slice())),
            ),
        ),
    }
}

/// What a scan of a desktop entry has read so far.
pub struct EntryScan {
    pub in_entry: bool,
    pub name: Option<Seq<char>>,
    pub icon: Option<Seq<char>>,
    pub command: Option<Seq<char>>,
    pub no_display: bool,
    pub hidden: bool,
    pub typ: Seq<char>,
    pub x_flatpak: Option<Seq<char>>,
}

/// The scan state before the first line.
pub open spec fn scan_start() -> EntryScan {
    EntryScan {
        in_entry: false,
        name: None,
        icon: None,
        command: None,
        no_display: false,
        hidden: false,
        typ: Seq::empty(),
        x_flatpak: None,
    }
}

/// One line of a desktop entry: blank lines and comments are skipped, a
/// section header says whether `[Desktop Entry]` starts, and inside that
/// section a `key=value` line sets the recognised keys (later lines win).
pub open spec fn scan_step(st: EntryScan, raw: Seq<char>) -> EntryScan {
    let line = trim(raw);
    if line.len() == 0 || starts_with(line, "#"@) {
        st
    } else if starts_with(line, "["@) && ends_with(line, "]"@) {
        EntryScan { in_entry: line == "[Desktop Entry]"@, ..st }
    } else if !st.in_entry {
        st
    } else {
        match find_from(line, seq!['='], 0, line.len() as int) {
            None => st,
            Some(e) => {
                let key = trim(line.subrange(0, e));
                let value = trim(line.subrange(e + 1, line.len() as int));
                if key == "Name"@ {
                    EntryScan { name: Some(value), ..st }
                } else if key == "Icon"@ {
                    EntryScan { icon: Some(value), ..st }
                } else if key == "Exec"@ {
                    EntryScan { command: Some(clean_exec(value)), ..st }
                } else if key == "NoDisplay"@ {
                    EntryScan { no_display: eq_ignore_case(value, "true"@), ..st }
                } else if key == "Hidden"@ {
                    EntryScan { hidden: eq_ignore_case(value, "true"@), ..st }
                } else if key == "Type"@ {
                    EntryScan { typ: value, ..st }
                } else if key == "X-Flatpak"@ {
                    EntryScan { x_flatpak: Some(value), ..st }
                } else {
                    st
                }
            },
        }
    }
}

/// The scan state after the first `n` lines.
pub open spec fn scan_fold(ls: Seq<Seq<char>>, n: int) -> EntryScan
    decreases n,
{
    if n <= 0 || n > ls.len() {
        scan_start()
    } else {
        scan_step(scan_fold(ls, n - 1), ls[n - 1])
    }
}

/// The scan state after a whole file.
pub open spec fn scan_entry(content: Seq<char>) -> EntryScan {
    scan_fold(lines(content), lines(content).len() as int)
}

/// The entry is listed: shown, not hidden, of type `Application`.
pub open spec fn is_listed(st: EntryScan) -> bool {
    !st.no_display && !st.hidden && st.typ == "Application"@
}

/// The file name without its `.desktop` suffix, if it has one.
pub open spec fn id_from_file_name(file_name: Seq<char>) -> Option<Seq<char>> {
    if ends_with(file_name, ".desktop"@) {
        Some(file_name.subrange(0, file_name.len() - ".desktop"@.len()))
    } else {
        None
    }
}

/// `a`, else `b`.
pub open spec fn or_else(a: Option<Seq<char>>, b: Option<Seq<char>>) -> Option<Seq<char>> {
    if a is Some {
        a
    } else {
        b
    }
}

/// `app` is the classification of the listed entry `file_name` at `path`
/// whose scan ended in `st`.
pub open spec fn classified(app: DesktopApp, path: Seq<char>, file_name: Seq<char>, st: EntryScan) -> bool {
    let exec = match st.command {
        Some(e) => e,
        None => Seq::empty(),
    };
    let heroic = match heroic_of(exec) {
        Some(h) => h,
        None => (None, None),
    };
    let is_flatpak = is_flatpak_entry_spec(path, exec);
    &&& app.desktop_id@ == file_name
    &&& app.path@ == path
    &&& app.name@ == match st.name {
        Some(n) => n,
        None => "Unnamed Application"@,
    }
    &&& opt_view(app.icon) == st.icon
    &&& app.command@ == exec
    &&& opt_view(app.steam_app_id) == steam_id_of(exec)
    &&& app.is_steam_game == steam_id_of(exec) is Some
    &&& opt_view(app.heroic_platform) == heroic.0
    &&& opt_view(app.heroic_app_name) == heroic.1
    &&& app.is_heroic_game == (heroic.0 is Some && heroic.1 is Some)
    &&& app.is_flatpak == is_flatpak
    &&& opt_view(app.flatpak_app_id) == if is_flatpak {
        or_else(st.x_flatpak, or_else(flatpak_id_of(exec), id_from_file_name(file_name)))
    } else {
        None
    }
}

/// The spec view of an optional character vector.
pub open spec fn ov(o: Option<Vec<char>>) -> Option<Seq<char>> {
    match o {
        Some(v) => Some(v@),
        None => None,
    }
}

fn is_true_word(v: &[char]) -> (r: bool)
    ensures
        r == eq_ignore_case(v@, "true"@),
{
    let t = chars_of("true");
    crate::text::range_eq_ignore_case_all(v, t.as_slice())
}

/// Reads a desktop entry: `path` is where it lives, `file_name` its file
/// name, `content` its text. None when it is hidden, not shown, or not an
/// application; otherwise its classification (see `classified`).
pub fn parse_desktop_file(path: &str, file_name: &str, content: &str) -> (r: Option<DesktopApp>)
    ensures
        r is None <==> !is_listed(scan_entry(content@)),
        r matches Some(app) ==> classified(app, path@, file_name@, scan_entry(content@)),
{
    let ls = split_lines(chars_of(content).as_slice());
    let mut in_entry = false;
    let mut name: Option<Vec<char>> = None;
    let mut icon: Option<Vec<char>> = None;
    let mut exec: Option<Vec<char>> = None;
    let mut no_display = false;
    let mut hidden = false;
    let mut typ: Vec<char> = Vec::new();
    let mut x_flatpak: Option<Vec<char>> = None;
    let hash = chars_of("#");
    let open_b = chars_of("[");
    let close_b = chars_of("]");
    let header = chars_of("[Desktop Entry]");
    proof {
        reveal_strlit("]");
    }
    let eq: Vec<char> = vec!['='];
    assert(eq@ == seq!['=']);
    let mut i: usize = 0;
    while i < ls.len()
        invariant
            i <= ls@.len(),
            vviews(ls@) == lines(content@),
            hash@ == "#"@,
            open_b@ == "["@,
            close_b@ == "]"@,
            "]"@.len() == 1,
            header@ == "[Desktop Entry]"@,
            eq@ == seq!['='],
            scan_fold(vviews(ls@), i as int) == (EntryScan {
                in_entry,
                name: ov(name),
                icon: ov(icon),
                command: ov(exec),
                no_display,
                hidden,
                typ: typ@,
                x_flatpak: ov(x_flatpak),
            }),
        decreases ls@.len() - i,
    {
        assert(vviews(ls@)[i as int] == ls@[i as int]@);
        let line = trim_all(ls[i].as_slice());
        let n = line.len();
        if n == 0 || matches_at(line.as_slice(), hash.as_slice(), 0) {
        } else if matches_at(line.as_slice(), open_b.as_slice(), 0) && matches_at(
            line.as_slice(),
            close_b.as_slice(),
            n - 1,
        ) {
            in_entry = seq_eq(line.as_slice(), header.as_slice());
        } else if !in_entry {
        } else {
            match find_in(line.as_slice(), eq.as_slice(), 0, n) {
                None => {},
                Some(e) => {
                    let key = trim_range(line.as_slice(), 0, e);
                    let value = trim_range(line.as_slice(), e + 1, n);
                    let k = key.as_slice();
                    if seq_eq(k, chars_of("Name").as_slice()) {
                        name = Some(value);
                    } else if seq_eq(k, chars_of("Icon").as_slice()) {
                        icon = Some(value);
                    } else if seq_eq(k, chars_of("Exec").as_slice()) {
                        let cleaned = strip_desktop_exec_placeholders(
                            string_of(value.as_slice()).as_str(),
                        );
                        exec = Some(chars_of(cleaned.as_str()));
                    } else if seq_eq(k, chars_of("NoDisplay").as_slice()) {
                        no_display = is_true_word(value.as_slice());
                    } else if seq_eq(k, chars_of("Hidden").as_slice()) {
                        hidden = is_true_word(value.as_slice());
                    } else if seq_eq(k, chars_of("Type").as_slice()) {
                        typ = value;
                    } else if seq_eq(k, chars_of("X-Flatpak").as_slice()) {
                        x_flatpak = Some(value);
                    }
                },
            }
        }
        i += 1;
    }
    assert(ls@.len() == vviews(ls@).len());
    if no_display || hidden || !seq_eq(typ.as_slice(), chars_of("Application").as_slice()) {
        return None;
    }
    let exec_s = match &exec {
        Some(e) => string_of(e.as_slice()),
        None => String::new(),
    };
    let fname = chars_of(file_name);
    let suffix = chars_of(".desktop");
    let id_from_name = if fname.len() >= suffix.len() && matches_at(
        fname.as_slice(),
        suffix.as_slice(),
        fname.len() - suffix.len(),
    ) {
        Some(string_of(slice_of(fname.as_slice(), 0, fname.len() - suffix.len()).as_slice()))
    } else {
        None
    };
    let id_from_exec = flatpak_app_id_from_exec(exec_s.as_str());
    let flatpak_id = match &x_flatpak {
        Some(x) => Some(string_of(x.as_slice())),
        None => match id_from_exec {
            Some(v) => Some(v),
            None => id_from_name,
        },
    };
    let is_flatpak = is_flatpak_entry(path, exec_s.as_str());
    let steam_app_id = steam_app_id_from_exec(exec_s.as_str());
    let (heroic_platform, heroic_app_name) = match heroic_game_from_exec(exec_s.as_str()) {
        Some(h) => h,
        None => (None, None),
    };
    let is_heroic_game = heroic_platform.is_some() && heroic_app_name.is_some();
    Some(
        DesktopApp {
            desktop_id: String::from_str(file_name),
            path: String::from_str(path),
            name: match &name {
                Some(n) => string_of(n.as_slice()),
                None => String::from_str("Unnamed Application"),
            },
            icon: match &icon {
                Some(v) => Some(string_of(v.as_slice())),
                None => None,
            },
            command: exec_s,
            is_steam_game: steam_app_id.is_some(),
            steam_app_id,
            is_heroic_game,
            heroic_platform,
            heroic_app_name,
            is_flatpak,
            flatpak_app_id: if is_flatpak {
                flatpak_id
            } else {
                None
            },
        },
    )
}

/// The pieces of `s` between occurrences of `c` (see `split_from`).
pub fn split_pieces_pub(s: &[char], c: char) -> (r: Vec<Vec<char>>)
    ensures
        vviews(r@) == split_from(s@, c, 0),
{
    split_pieces(s, c)
}

/// `a` precedes or equals `b` in lexicographic character order.
pub open spec fn seq_le(a: Seq<char>, b: Seq<char>) -> bool
    decreases a.len(),
{
    if a.len() == 0 {
        true
    } else if b.len() == 0 {
        false
    } else if a[0] < b[0] {
        true
    } else if a[0] > b[0] {
        false
    } else {
        seq_le(a.drop_first(), b.drop_first())
    }
}

proof fn lemma_seq_le_total(a: Seq<char>, b: Seq<char>)
    ensures
        seq_le(a, b) || seq_le(b, a),
        seq_le(a, b) && seq_le(b, a) ==> a == b,
    decreases a.len(),
{
    if a.len() > 0 && b.len() > 0 && a[0] == b[0] {
        lemma_seq_le_total(a.drop_first(), b.drop_first());
        if seq_le(a, b) && seq_le(b, a) {
            assert(a =~= seq![a[0]] + a.drop_first());
            assert(b =~= seq![b[0]] + b.drop_first());
        }
    } else if a.len() == 0 && b.len() == 0 {
        assert(a =~= b);
    }
}

proof fn lemma_seq_le_trans(a: Seq<char>, b: Seq<char>, c: Seq<char>)
    requires
        seq_le(a, b),
        seq_le(b, c),
    ensures
        seq_le(a, c),
    decreases a.len(),
{
    if a.len() > 0 && b.len() > 0 && c.len() > 0 && a[0] == b[0] && b[0] == c[0] {
        lemma_seq_le_trans(a.drop_first(), b.drop_first(), c.drop_first());
    }
}

/// The listing order of applications: by lower-cased name, then by id.
pub open spec fn app_le(x: DesktopApp, y: DesktopApp) -> bool {
    let (nx, ny) = (crate::text::lowercase_of(x.name@), crate::text::lowercase_of(y.name@));
    (seq_le(nx, ny) && nx != ny) || (nx == ny && seq_le(x.desktop_id@, y.desktop_id@))
}

proof fn lemma_app_le_total(x: DesktopApp, y: DesktopApp)
    ensures
        app_le(x, y) || app_le(y, x),
{
    lemma_seq_le_total(crate::text::lowercase_of(x.name@), crate::text::lowercase_of(y.name@));
    lemma_seq_le_total(x.desktop_id@, y.desktop_id@);
}

proof fn lemma_app_le_trans(x: DesktopApp, y: DesktopApp, z: DesktopApp)
    requires
        app_le(x, y),
        app_le(y, z),
    ensures
        app_le(x, z),
{
    let (nx, ny, nz) = (
        crate::text::lowercase_of(x.name@),
        crate::text::lowercase_of(y.name@),
        crate::text::lowercase_of(z.name@),
    );
    lemma_seq_le_total(nx, ny);
    lemma_seq_le_total(ny, nz);
    lemma_seq_le_total(nx, nz);
    if nx != ny || ny != nz {
        if seq_le(nx, ny) && seq_le(ny, nz) {
            lemma_seq_le_trans(nx, ny, nz);
        } else if nx == ny {
            assert(seq_le(ny, nz));
        } else {
            assert(seq_le(nx, ny));
        }
    } else {
        lemma_seq_le_trans(x.desktop_id@, y.desktop_id@, z.desktop_id@);
    }
}

fn seq_le_exec(a: &[char], b: &[char]) -> (r: bool)
    ensures
        r == seq_le(a@, b@),
{
    let mut i: usize = 0;
    assert(a@.subrange(0, a@.len() as int) == a@);
    assert(b@.subrange(0, b@.len() as int) == b@);
    while i < a.len() && i < b.len() && a[i] == b[i]
        invariant
            i <= a@.len(),
            i <= b@.len(),
            seq_le(a@, b@) == seq_le(a@.subrange(i as int, a@.len() as int), b@.subrange(i as int, b@.len() as int)),
        decreases a@.len() - i,
    {
        assert(a@.subrange(i as int, a@.len() as int).drop_first() =~= a@.subrange(i + 1, a@.len() as int));
        assert(b@.subrange(i as int, b@.len() as int).drop_first() =~= b@.subrange(i + 1, b@.len() as int));
        i += 1;
    }
    if i >= a.len() {
        return true;
    }
    if i >= b.len() {
        return false;
    }
    a[i] < b[i]
}

fn app_le_exec(x: &DesktopApp, y: &DesktopApp) -> (r: bool)
    ensures
        r == app_le(*x, *y),
{
    let nx = chars_of(crate::text::to_lowercase(x.name.as_str()).as_str());
    let ny = chars_of(crate::text::to_lowercase(y.name.as_str()).as_str());
    let same = seq_eq(nx.as_slice(), ny.as_slice());
    (seq_le_exec(nx.as_slice(), ny.as_slice()) && !same) || (same && seq_le_exec(
        chars_of(x.desktop_id.as_str()).as_slice(),
        chars_of(y.desktop_id.as_str()).as_slice(),
    ))
}

/// Index of the last entry with id `id` among the first `n`.
pub open spec fn last_with_id(s: Seq<DesktopApp>, id: Seq<char>, n: int) -> Option<int>
    decreases n,
{
    if n <= 0 || n > s.len() {
        None
    } else if s[n - 1].desktop_id@ == id {
        Some(n - 1)
    } else {
        last_with_id(s, id, n - 1)
    }
}

/// `x` is the entry that counts for its id among the first `n`: the last.
pub open spec fn counts(s: Seq<DesktopApp>, n: int, x: DesktopApp) -> bool {
    exists|k: int| 0 <= k < n && s[k] == x && last_with_id(s, x.desktop_id@, n) == Some(k)
}

/// The entries are in listing order.
pub open spec fn listed_in_order(v: Seq<DesktopApp>) -> bool {
    forall|i: int, j: int| 0 <= i < j < v.len() ==> app_le(#[trigger] v[i], #[trigger] v[j])
}

proof fn lemma_last_with_id(s: Seq<DesktopApp>, id: Seq<char>, n: int)
    requires
        0 <= n <= s.len(),
    ensures
        match last_with_id(s, id, n) {
            Some(k) => 0 <= k < n && s[k].desktop_id@ == id && forall|m: int| k < m < n ==> (#[trigger] s[m]).desktop_id@ != id,
            None => forall|m: int| 0 <= m < n ==> (#[trigger] s[m]).desktop_id@ != id,
        },
    decreases n,
{
    if n > 0 && s[n - 1].desktop_id@ != id {
        lemma_last_with_id(s, id, n - 1);
    }
}

fn index_of_id(v: &Vec<DesktopApp>, id: &String) -> (r: Option<usize>)
    ensures
        match r {
            Some(i) => i < v@.len() && v@[i as int].desktop_id@ == id@,
            None => forall|i: int| 0 <= i < v@.len() ==> (#[trigger] v@[i]).desktop_id@ != id@,
        },
{
    let key = chars_of(id.as_str());
    let mut i: usize = 0;
    while i < v.len()
        invariant
            i <= v@.len(),
            key@ == id@,
            forall|m: int| 0 <= m < i ==> (#[trigger] v@[m]).desktop_id@ != id@,
        decreases v@.len() - i,
    {
        if seq_eq(chars_of(v[i].desktop_id.as_str()).as_slice(), key.as_slice()) {
            return Some(i);
        }
        i += 1;
    }
    None
}

/// No id occurs twice.
pub open spec fn unique_ids(v: Seq<DesktopApp>) -> bool {
    forall|i: int, j: int| 0 <= i < j < v.len() ==> (#[trigger] v[i]).desktop_id@ != (#[trigger] v[j]).desktop_id@
}

proof fn lemma_merge_removed(
    s: Seq<DesktopApp>,
    n: int,
    o0: Seq<DesktopApp>,
    o1: Seq<DesktopApp>,
    x: DesktopApp,
    removed: Option<int>,
)
    requires
        0 <= n < s.len(),
        x == s[n],
        listed_in_order(o0),
        unique_ids(o0),
        forall|j: int| 0 <= j < o0.len() ==> counts(s, n, #[trigger] o0[j]),
        forall|k: int| 0 <= k < n && last_with_id(s, (#[trigger] s[k]).desktop_id@, n) == Some(k) ==> o0.contains(s[k]),
        match removed {
            Some(i) => 0 <= i < o0.len() && o0[i].desktop_id@ == x.desktop_id@ && o1 == o0.remove(i),
            None => o1 == o0 && forall|j: int| 0 <= j < o0.len() ==> (#[trigger] o0[j]).desktop_id@ != x.desktop_id@,
        },
    ensures
        listed_in_order(o1),
        unique_ids(o1),
        forall|j: int| 0 <= j < o1.len() ==> (#[trigger] o1[j]).desktop_id@ != x.desktop_id@,
        forall|j: int| 0 <= j < o1.len() ==> counts(s, n, #[trigger] o1[j]),
        forall|k: int|
            0 <= k < n && last_with_id(s, (#[trigger] s[k]).desktop_id@, n) == Some(k) && s[k].desktop_id@ != x.desktop_id@
                ==> o1.contains(s[k]),
{
    if let Some(i) = removed {
        assert forall|a: int| 0 <= a < o1.len() implies #[trigger] o1[a] == o0[if a < i { a } else { a + 1 }] by {}
        assert forall|a: int, b: int| 0 <= a < b < o1.len() implies app_le(#[trigger] o1[a], #[trigger] o1[b]) by {
            assert(o1[a] == o0[if a < i { a } else { a + 1 }]);
            assert(o1[b] == o0[if b < i { b } else { b + 1 }]);
        }
        assert forall|a: int, b: int| 0 <= a < b < o1.len() implies (#[trigger] o1[a]).desktop_id@ != (#[trigger] o1[b]).desktop_id@ by {
            assert(o1[a] == o0[if a < i { a } else { a + 1 }]);
            assert(o1[b] == o0[if b < i { b } else { b + 1 }]);
        }
        assert forall|j: int| 0 <= j < o1.len() implies (#[trigger] o1[j]).desktop_id@ != x.desktop_id@ by {
            assert(o1[j] == o0[if j < i { j } else { j + 1 }]);
        }
        assert forall|j: int| 0 <= j < o1.len() implies counts(s, n, #[trigger] o1[j]) by {
            assert(o1[j] == o0[if j < i { j } else { j + 1 }]);
        }
        assert forall|k: int|
            0 <= k < n && last_with_id(s, (#[trigger] s[k]).desktop_id@, n) == Some(k) && s[k].desktop_id@ != x.desktop_id@
                implies o1.contains(s[k]) by {
            let j0 = choose|j0: int| 0 <= j0 < o0.len() && o0[j0] == s[k];
            assert(j0 != i);
            let j1 = if j0 < i { j0 } else { j0 - 1 };
            assert(o1[j1] == o0[j0]);
        }
    }
}

proof fn lemma_merge_inserted(
    s: Seq<DesktopApp>,
    n: int,
    o1: Seq<DesktopApp>,
    o2: Seq<DesktopApp>,
    x: DesktopApp,
    p: int,
)
    requires
        0 <= n < s.len(),
        x == s[n],
        0 <= p <= o1.len(),
        o2 == o1.insert(p, x),
        listed_in_order(o1),
        unique_ids(o1),
        forall|j: int| 0 <= j < p ==> app_le(#[trigger] o1[j], x),
        forall|j: int| p <= j < o1.len() ==> app_le(x, #[trigger] o1[j]),
        forall|j: int| 0 <= j < o1.len() ==> (#[trigger] o1[j]).desktop_id@ != x.desktop_id@,
        forall|j: int| 0 <= j < o1.len() ==> counts(s, n, #[trigger] o1[j]),
        forall|k: int|
            0 <= k < n && last_with_id(s, (#[trigger] s[k]).desktop_id@, n) == Some(k) && s[k].desktop_id@ != x.desktop_id@
                ==> o1.contains(s[k]),
    ensures
        listed_in_order(o2),
        unique_ids(o2),
        forall|j: int| 0 <= j < o2.len() ==> counts(s, n + 1, #[trigger] o2[j]),
        forall|k: int| 0 <= k < n + 1 && last_with_id(s, (#[trigger] s[k]).desktop_id@, n + 1) == Some(k) ==> o2.contains(s[k]),
{
    assert forall|a: int| 0 <= a < o2.len() && a != p implies #[trigger] o2[a] == o1[if a < p { a } else { a - 1 }] by {}
    assert(o2[p] == x);
    assert forall|id: Seq<char>| id != x.desktop_id@ implies last_with_id(s, id, n + 1) == last_with_id(s, id, n) by {}
    assert(last_with_id(s, x.desktop_id@, n + 1) == Some(n));
    assert forall|a: int, b: int| 0 <= a < b < o2.len() implies app_le(#[trigger] o2[a], #[trigger] o2[b]) by {
        if a != p && b != p {
            assert(o2[a] == o1[if a < p { a } else { a - 1 }]);
            assert(o2[b] == o1[if b < p { b } else { b - 1 }]);
        } else if a == p {
            assert(o2[b] == o1[b - 1]);
        } else {
            assert(o2[a] == o1[a]);
        }
    }
    assert forall|a: int, b: int| 0 <= a < b < o2.len() implies (#[trigger] o2[a]).desktop_id@ != (#[trigger] o2[b]).desktop_id@ by {
        if a != p && b != p {
            assert(o2[a] == o1[if a < p { a } else { a - 1 }]);
            assert(o2[b] == o1[if b < p { b } else { b - 1 }]);
        } else if a == p {
            assert(o2[b] == o1[b - 1]);
        } else {
            assert(o2[a] == o1[a]);
        }
    }
    assert forall|j: int| 0 <= j < o2.len() implies counts(s, n + 1, #[trigger] o2[j]) by {
        if j == p {
            assert(s[n] == o2[j]);
        } else {
            let j1 = if j < p { j } else { j - 1 };
            assert(o2[j] == o1[j1]);
            assert(counts(s, n, o1[j1]));
            let k = choose|k: int| 0 <= k < n && s[k] == o1[j1] && last_with_id(s, o1[j1].desktop_id@, n) == Some(k);
            assert(o1[j1].desktop_id@ != x.desktop_id@);
            assert(last_with_id(s, o1[j1].desktop_id@, n + 1) == Some(k));
        }
    }
    assert forall|k: int| 0 <= k < n + 1 && last_with_id(s, (#[trigger] s[k]).desktop_id@, n + 1) == Some(k)
        implies o2.contains(s[k]) by {
        if k == n {
            assert(o2[p] == s[k]);
        } else {
            assert(s[k].desktop_id@ != x.desktop_id@);
            assert(last_with_id(s, s[k].desktop_id@, n) == Some(k));
            assert(o1.contains(s[k]));
            let j1 = choose|j1: int| 0 <= j1 < o1.len() && o1[j1] == s[k];
            let j2 = if j1 < p { j1 } else { j1 + 1 };
            assert(o2[j2] == s[k]);
        }
    }
}

/// The applications to list: for each desktop id the entry found last
/// (later directories override earlier ones), in listing order.
pub fn merge_desktop_entries(apps: Vec<DesktopApp>) -> (r: Vec<DesktopApp>)
    ensures
        listed_in_order(r@),
        forall|j: int| 0 <= j < r@.len() ==> counts(apps@, apps@.len() as int, #[trigger] r@[j]),
        forall|k: int|
            0 <= k < apps@.len() && last_with_id(apps@, (#[trigger] apps@[k]).desktop_id@, apps@.len() as int) == Some(k)
                ==> r@.contains(apps@[k]),
        forall|i: int, j: int| 0 <= i < j < r@.len() ==> (#[trigger] r@[i]).desktop_id@ != (#[trigger] r@[j]).desktop_id@,
{
    let ghost s = apps@;
    let total = apps.len();
    let mut rest = apps;
    let mut out: Vec<DesktopApp> = Vec::new();
    let mut n: usize = 0;
    while rest.len() > 0
        invariant
            n + rest@.len() == s.len(),
            s.len() == total,
            rest@ == s.subrange(n as int, s.len() as int),
            listed_in_order(out@),
            forall|j: int| 0 <= j < out@.len() ==> counts(s, n as int, #[trigger] out@[j]),
            forall|k: int|
                0 <= k < n && last_with_id(s, (#[trigger] s[k]).desktop_id@, n as int) == Some(k) ==> out@.contains(s[k]),
            unique_ids(out@),
        decreases rest@.len(),
    {
        let x = rest.remove(0);
        assert(x == s[n as int]);
        assert(rest@ =~= s.subrange(n + 1, s.len() as int));
        let ghost o0 = out@;
        let removed = index_of_id(&out, &x.desktop_id);
        match removed {
            Some(i) => {
                out.remove(i);
            },
            None => {},
        }
        let ghost o1 = out@;
        proof {
            lemma_merge_removed(s, n as int, o0, o1, x, match removed {
                Some(i) => Some(i as int),
                None => None,
            });
        }
        let mut p: usize = 0;
        while p < out.len() && app_le_exec(&out[p], &x)
            invariant
                p <= out@.len(),
                out@ == o1,
                forall|j: int| 0 <= j < p ==> app_le(#[trigger] out@[j], x),
            decreases out@.len() - p,
        {
            p += 1;
        }
        proof {
            assert forall|j: int| p <= j < o1.len() implies app_le(x, #[trigger] o1[j]) by {
                lemma_app_le_total(o1[p as int], x);
                if j > p {
                    assert(app_le(o1[p as int], o1[j]));
                    lemma_app_le_trans(x, o1[p as int], o1[j]);
                }
            }
        }
        out.insert(p, x);
        proof {
            lemma_merge_inserted(s, n as int, o1, out@, x, p as int);
        }
        n += 1;
    }
    out
}

} // verus!
