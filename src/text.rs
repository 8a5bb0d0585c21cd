//! Character-sequence helpers shared by the launcher patchers.
//!
//! Text is handled as `Vec<char>` internally; `&str` and `String` values are
//! converted at the public boundary. Every helper is specified over `Seq<char>`.
use vstd::prelude::*;

verus! {

/// The whitespace characters that separate words and that trimming removes.
pub open spec fn is_ws(c: char) -> bool {
    c == ' ' || c == '\t' || c == '\n' || c == '\r' || c == '\x0b' || c == '\x0c'
}

/// `s` without its leading whitespace.
pub open spec fn trim_start(s: Seq<char>) -> Seq<char>
    decreases s.len(),
{
    if s.len() > 0 && is_ws(s[0]) {
        trim_start(s.drop_first())
    } else {
        s
    }
}

/// `s` without its trailing whitespace.
pub open spec fn trim_end(s: Seq<char>) -> Seq<char>
    decreases s.len(),
{
    if s.len() > 0 && is_ws(s.last()) {
        trim_end(s.drop_last())
    } else {
        s
    }
}

/// `s` without leading and trailing whitespace.
pub open spec fn trim(s: Seq<char>) -> Seq<char> {
    trim_end(trim_start(s))
}

/// `pat` occurs in `s` starting at index `i`.
pub open spec fn occurs_at(s: Seq<char>, pat: Seq<char>, i: int) -> bool {
    0 <= i && i + pat.len() <= s.len() && s.subrange(i, i + pat.len()) == pat
}

/// The first index `i >= from` at which `pat` occurs entirely before `to`.
pub open spec fn find_from(s: Seq<char>, pat: Seq<char>, from: int, to: int) -> Option<int>
    decreases to + 1 - from,
{
    if from < 0 || from + pat.len() > to || to > s.len() {
        None
    } else if occurs_at(s, pat, from) {
        Some(from)
    } else {
        find_from(s, pat, from + 1, to)
    }
}

/// The first occurrence of `pat` in `s`.
pub open spec fn find(s: Seq<char>, pat: Seq<char>) -> Option<int> {
    find_from(s, pat, 0, s.len() as int)
}

/// `pat` occurs somewhere in `s`.
pub open spec fn contains(s: Seq<char>, pat: Seq<char>) -> bool {
    exists|i: int| occurs_at(s, pat, i)
}

/// `s` starts with `pat`.
pub open spec fn starts_with(s: Seq<char>, pat: Seq<char>) -> bool {
    occurs_at(s, pat, 0)
}

/// `s` ends with `pat`.
pub open spec fn ends_with(s: Seq<char>, pat: Seq<char>) -> bool {
    pat.len() <= s.len() && occurs_at(s, pat, s.len() - pat.len())
}

/// ASCII lower-casing of one character; other characters are kept.
pub open spec fn lower_char(c: char) -> char {
    if 'A' <= c && c <= 'Z' {
        (((c as u8) + 32) as u8) as char
    } else {
        c
    }
}

/// ASCII lower-casing of a sequence.
pub open spec fn lower(s: Seq<char>) -> Seq<char> {
    s.map_values(|c: char| lower_char(c))
}

/// `a` and `b` are equal up to ASCII case.
pub open spec fn eq_ignore_case(a: Seq<char>, b: Seq<char>) -> bool {
    lower(a) == lower(b)
}

/// The last index `j < i` with `s[j] == c`, if any.
pub open spec fn rfind_before(s: Seq<char>, c: char, i: int) -> Option<int>
    decreases i,
{
    if i <= 0 {
        None
    } else if s[i - 1] == c {
        Some(i - 1)
    } else {
        rfind_before(s, c, i - 1)
    }
}

/// The index at which the line holding position `i` starts.
pub open spec fn line_start(s: Seq<char>, i: int) -> int {
    match rfind_before(s, '\n', i) {
        Some(j) => j + 1,
        None => 0,
    }
}

/// The number of tab or space characters at the start of `s`.
pub open spec fn indent_len(s: Seq<char>) -> nat
    decreases s.len(),
{
    if s.len() > 0 && (s[0] == '\t' || s[0] == ' ') {
        1 + indent_len(s.drop_first())
    } else {
        0
    }
}

/// The leading tabs and spaces of `s`.
pub open spec fn indent_of(s: Seq<char>) -> Seq<char> {
    s.subrange(0, indent_len(s) as int)
}

/// Relies on `str::chars`: the characters of `s`, in order.
#[verifier::external_body]
pub(crate) fn chars_of(s: &str) -> (r: Vec<char>)
    ensures
        r@ == s@,
{
    s.chars().collect()
}

/// Relies on `String`'s `FromIterator<&char>`: the string made of these characters, in order.
#[verifier::external_body]
pub(crate) fn string_of(v: &[char]) -> (r: String)
    ensures
        r@ == v@,
{
    v.iter().collect()
}

/// What `str::to_lowercase` returns for the characters `s`.
pub uninterp spec fn lowercase_of(s: Seq<char>) -> Seq<char>;

/// Relies on `str::to_lowercase`: the Unicode lower-case mapping of `s`,
/// which depends on its characters alone.
#[verifier::external_body]
pub(crate) fn to_lowercase(s: &str) -> (r: String)
    ensures
        r@ == lowercase_of(s@),
{
    s.to_lowercase()
}

/// Appends `w` to `v`.
pub fn extend(v: &mut Vec<char>, w: &[char])
    ensures
        final(v)@ == old(v)@ + w@,
{
    let mut i: usize = 0;
    while i < w.len()
        invariant
            i <= w@.len(),
            v@ == old(v)@ + w@.subrange(0, i as int),
        decreases w@.len() - i,
    {
        v.push(w[i]);
        i += 1;
        assert(w@.subrange(0, i as int) == w@.subrange(0, i - 1 as int).push(w@[i - 1]));
    }
    assert(w@.subrange(0, w@.len() as int) == w@);
}

/// Appends the characters of `s` to `v`.
pub fn extend_str(v: &mut Vec<char>, s: &str)
    ensures
        final(v)@ == old(v)@ + s@,
{
    let w = chars_of(s);
    extend(v, w.as_slice());
}

/// The characters `s[from..to]` as a new vector.
pub fn slice_of(s: &[char], from: usize, to: usize) -> (r: Vec<char>)
    requires
        from <= to <= s@.len(),
    ensures
        r@ == s@.subrange(from as int, to as int),
{
    let mut r: Vec<char> = Vec::new();
    let mut i: usize = from;
    while i < to
        invariant
            from <= i <= to <= s@.len(),
            r@ == s@.subrange(from as int, i as int),
        decreases to - i,
    {
        r.push(s[i]);
        i += 1;
        assert(s@.subrange(from as int, i as int) == s@.subrange(from as int, i - 1 as int).push(
            s@[i - 1],
        ));
    }
    r
}

/// Whether `pat` occurs in `s` at index `i`.
pub fn matches_at(s: &[char], pat: &[char], i: usize) -> (r: bool)
    ensures
        r == occurs_at(s@, pat@, i as int),
{
    if i > s.len() || pat.len() > s.len() - i {
        return false;
    }
    let mut k: usize = 0;
    while k < pat.len()
        invariant
            i + pat@.len() <= s@.len(),
            k <= pat@.len(),
            forall|j: int| 0 <= j < k ==> s@[i + j] == pat@[j],
        decreases pat@.len() - k,
    {
        let n = s.len();
        assert(i + k < n);
        if s[i + k] != pat[k] {
            assert(s@.subrange(i as int, i + pat@.len())[k as int] != pat@[k as int]);
            return false;
        }
        k += 1;
    }
    assert(s@.subrange(i as int, i + pat@.len()) =~= pat@);
    true
}

/// The first index in `from..` at which `pat` occurs entirely before `to`.
pub fn find_in(s: &[char], pat: &[char], from: usize, to: usize) -> (r: Option<usize>)
    requires
        to <= s@.len(),
    ensures
        r is None <==> find_from(s@, pat@, from as int, to as int) is None,
        r matches Some(i) ==> find_from(s@, pat@, from as int, to as int) == Some(i as int),
        r matches Some(i) ==> from <= i && i + pat@.len() <= to && occurs_at(s@, pat@, i as int),
{
    if pat.len() == 0 {
        if from <= to {
            assert(s@.subrange(from as int, from as int) =~= pat@);
            return Some(from);
        }
        return None;
    }
    let mut i: usize = from;
    while i <= to && pat.len() <= to - i
        invariant
            to <= s@.len(),
            from <= i,
            pat@.len() > 0,
            find_from(s@, pat@, from as int, to as int) == find_from(s@, pat@, i as int, to as int),
        decreases to - i,
    {
        if matches_at(s, pat, i) {
            return Some(i);
        }
        i += 1;
    }
    None
}

/// Whether `pat` occurs anywhere in `s`.
pub fn contains_seq(s: &[char], pat: &[char]) -> (r: bool)
    ensures
        r == contains(s@, pat@),
{
    if pat.len() == 0 {
        assert(occurs_at(s@, pat@, 0)) by {
            assert(s@.subrange(0, 0) =~= pat@);
        }
        return true;
    }
    let mut i: usize = 0;
    while i <= s.len() && pat.len() <= s.len() - i
        invariant
            pat@.len() > 0,
            forall|j: int| 0 <= j < i ==> !occurs_at(s@, pat@, j),
        decreases s@.len() - i,
    {
        if matches_at(s, pat, i) {
            return true;
        }
        i += 1;
    }
    proof {
        true_unless_occurs(s@, pat@, i as int);
    }
    false
}

proof fn true_unless_occurs(s: Seq<char>, pat: Seq<char>, i: int)
    requires
        forall|j: int| 0 <= j < i ==> !occurs_at(s, pat, j),
        i > s.len() || pat.len() > s.len() - i,
    ensures
        !contains(s, pat),
{
}

/// Whether `pat` occurs in `s`, given as a string.
pub fn contains_str(s: &[char], pat: &str) -> (r: bool)
    ensures
        r == contains(s@, pat@),
{
    let p = chars_of(pat);
    contains_seq(s, p.as_slice())
}

pub fn is_ws_char(c: char) -> (r: bool)
    ensures
        r == is_ws(c),
{
    c == ' ' || c == '\t' || c == '\n' || c == '\r' || c == '\x0b' || c == '\x0c'
}

proof fn lemma_trim_start_step(s: Seq<char>, a: int, b: int)
    requires
        0 <= a < b <= s.len(),
        is_ws(s[a]),
    ensures
        trim_start(s.subrange(a, b)) == trim_start(s.subrange(a + 1, b)),
{
    assert(s.subrange(a, b).drop_first() =~= s.subrange(a + 1, b));
}

proof fn lemma_trim_end_step(s: Seq<char>, a: int, b: int)
    requires
        0 <= a < b <= s.len(),
        is_ws(s[b - 1]),
    ensures
        trim_end(s.subrange(a, b)) == trim_end(s.subrange(a, b - 1)),
{
    assert(s.subrange(a, b).drop_last() =~= s.subrange(a, b - 1));
}

/// The bounds of `s[from..to]` once leading whitespace is skipped.
pub fn trim_start_bound(s: &[char], from: usize, to: usize) -> (a: usize)
    requires
        from <= to <= s@.len(),
    ensures
        from <= a <= to,
        s@.subrange(a as int, to as int) == trim_start(s@.subrange(from as int, to as int)),
{
    let mut a: usize = from;
    while a < to && is_ws_char(s[a])
        invariant
            from <= a <= to <= s@.len(),
            trim_start(s@.subrange(from as int, to as int)) == trim_start(
                s@.subrange(a as int, to as int),
            ),
        decreases to - a,
    {
        proof {
            lemma_trim_start_step(s@, a as int, to as int);
        }
        a += 1;
    }
    a
}

/// The bounds of `s[from..to]` once trailing whitespace is dropped.
pub fn trim_end_bound(s: &[char], from: usize, to: usize) -> (b: usize)
    requires
        from <= to <= s@.len(),
    ensures
        from <= b <= to,
        s@.subrange(from as int, b as int) == trim_end(s@.subrange(from as int, to as int)),
{
    let mut b: usize = to;
    while b > from && is_ws_char(s[b - 1])
        invariant
            from <= b <= to <= s@.len(),
            trim_end(s@.subrange(from as int, to as int)) == trim_end(
                s@.subrange(from as int, b as int),
            ),
        decreases b,
    {
        proof {
            lemma_trim_end_step(s@, from as int, b as int);
        }
        b -= 1;
    }
    b
}

/// `s[from..to]` without leading and trailing whitespace.
pub fn trim_range(s: &[char], from: usize, to: usize) -> (r: Vec<char>)
    requires
        from <= to <= s@.len(),
    ensures
        r@ == trim(s@.subrange(from as int, to as int)),
{
    let a = trim_start_bound(s, from, to);
    let b = trim_end_bound(s, a, to);
    slice_of(s, a, b)
}

/// `s` without leading and trailing whitespace.
pub fn trim_all(s: &[char]) -> (r: Vec<char>)
    ensures
        r@ == trim(s@),
{
    assert(s@.subrange(0, s@.len() as int) == s@);
    trim_range(s, 0, s.len())
}

/// `s` without leading whitespace.
pub fn trim_start_all(s: &[char]) -> (r: Vec<char>)
    ensures
        r@ == trim_start(s@),
{
    assert(s@.subrange(0, s@.len() as int) == s@);
    let a = trim_start_bound(s, 0, s.len());
    slice_of(s, a, s.len())
}

/// `s` without trailing whitespace.
pub fn trim_end_all(s: &[char]) -> (r: Vec<char>)
    ensures
        r@ == trim_end(s@),
{
    assert(s@.subrange(0, s@.len() as int) == s@);
    let b = trim_end_bound(s, 0, s.len());
    slice_of(s, 0, b)
}

/// ASCII lower-casing of one character.
pub fn lower_char_exec(c: char) -> (r: char)
    ensures
        r == lower_char(c),
{
    if 'A' <= c && c <= 'Z' {
        (((c as u8) + 32) as u8) as char
    } else {
        c
    }
}

/// ASCII lower-casing of a sequence.
pub fn lower_vec(s: &[char]) -> (r: Vec<char>)
    ensures
        r@ == lower(s@),
{
    let mut r: Vec<char> = Vec::new();
    let mut i: usize = 0;
    while i < s.len()
        invariant
            i <= s@.len(),
            r@ == lower(s@.subrange(0, i as int)),
        decreases s@.len() - i,
    {
        r.push(lower_char_exec(s[i]));
        i += 1;
        assert(lower(s@.subrange(0, i as int)) =~= lower(s@.subrange(0, i - 1 as int)).push(
            lower_char(s@[i - 1]),
        ));
    }
    assert(s@.subrange(0, s@.len() as int) == s@);
    r
}

/// Whether `s[from..to]` equals `key` up to ASCII case.
pub fn range_eq_ignore_case(s: &[char], from: usize, to: usize, key: &[char]) -> (r: bool)
    requires
        from <= to <= s@.len(),
    ensures
        r == eq_ignore_case(s@.subrange(from as int, to as int), key@),
{
    if to - from != key.len() {
        assert(lower(s@.subrange(from as int, to as int)).len() != lower(key@).len());
        return false;
    }
    let mut k: usize = 0;
    while k < key.len()
        invariant
            to - from == key@.len(),
            from <= to <= s@.len(),
            k <= key@.len(),
            forall|j: int| 0 <= j < k ==> lower_char(s@[from + j]) == lower_char(key@[j]),
        decreases key@.len() - k,
    {
        if lower_char_exec(s[from + k]) != lower_char_exec(key[k]) {
            assert(lower(s@.subrange(from as int, to as int))[k as int] != lower(key@)[k as int]);
            return false;
        }
        k += 1;
    }
    assert(lower(s@.subrange(from as int, to as int)) =~= lower(key@));
    true
}

/// The decimal digit character for `d < 10`.
pub open spec fn digit_char(d: nat) -> char {
    if d == 0 { '0' } else if d == 1 { '1' } else if d == 2 { '2' } else if d == 3 { '3' }
    else if d == 4 { '4' } else if d == 5 { '5' } else if d == 6 { '6' } else if d == 7 { '7' }
    else if d == 8 { '8' } else { '9' }
}

/// Decimal notation of `n`, without leading zeros.
pub open spec fn decimal(n: nat) -> Seq<char>
    decreases n,
{
    if n < 10 {
        seq![digit_char(n)]
    } else {
        decimal(n / 10).push(digit_char(n % 10))
    }
}

fn digit_char_exec(d: usize) -> (r: char)
    requires
        d < 10,
    ensures
        r == digit_char(d as nat),
{
    if d == 0 { '0' } else if d == 1 { '1' } else if d == 2 { '2' } else if d == 3 { '3' }
    else if d == 4 { '4' } else if d == 5 { '5' } else if d == 6 { '6' } else if d == 7 { '7' }
    else if d == 8 { '8' } else { '9' }
}

/// Decimal notation of `n`.
pub fn decimal_chars(n: usize) -> (r: Vec<char>)
    ensures
        r@ == decimal(n as nat),
    decreases n,
{
    if n < 10 {
        let mut v: Vec<char> = Vec::new();
        v.push(digit_char_exec(n));
        assert(v@ =~= seq![digit_char(n as nat)]);
        v
    } else {
        let mut v = decimal_chars(n / 10);
        v.push(digit_char_exec(n % 10));
        v
    }
}

/// Joins `words` with the separator `sep`.
pub open spec fn join(words: Seq<Seq<char>>, sep: Seq<char>) -> Seq<char>
    decreases words.len(),
{
    if words.len() == 0 {
        Seq::empty()
    } else if words.len() == 1 {
        words[0]
    } else {
        join(words.drop_last(), sep) + sep + words.last()
    }
}

/// The character views of a list of strings.
pub open spec fn views(v: Seq<String>) -> Seq<Seq<char>> {
    v.map_values(|s: String| s@)
}

/// Joins the strings of `words` with `sep`.
pub fn join_strings(words: &[String], sep: &str) -> (r: Vec<char>)
    ensures
        r@ == join(views(words@), sep@),
{
    let mut r: Vec<char> = Vec::new();
    let mut i: usize = 0;
    while i < words.len()
        invariant
            i <= words@.len(),
            r@ == join(views(words@.subrange(0, i as int)), sep@),
        decreases words@.len() - i,
    {
        if i > 0 {
            extend_str(&mut r, sep);
        }
        extend_str(&mut r, words[i].as_str());
        i += 1;
        assert(views(words@.subrange(0, i as int)).drop_last() =~= views(
            words@.subrange(0, i - 1 as int),
        ));
    }
    assert(words@.subrange(0, words@.len() as int) == words@);
    r
}

/// Whether `a` and `b` hold the same characters.
pub fn seq_eq(a: &[char], b: &[char]) -> (r: bool)
    ensures
        r == (a@ == b@),
{
    if a.len() != b.len() {
        return false;
    }
    let mut i: usize = 0;
    while i < a.len()
        invariant
            a@.len() == b@.len(),
            i <= a@.len(),
            forall|j: int| 0 <= j < i ==> a@[j] == b@[j],
        decreases a@.len() - i,
    {
        if a[i] != b[i] {
            return false;
        }
        i += 1;
    }
    assert(a@ =~= b@);
    true
}

/// The first index at or after `i`, and before `end`, that is not whitespace.
pub open spec fn skip_ws(s: Seq<char>, i: int, end: int) -> int
    decreases end - i,
{
    if 0 <= i < end && end <= s.len() && is_ws(s[i]) {
        skip_ws(s, i + 1, end)
    } else {
        i
    }
}

/// Index after the whitespace starting at `i`, before `end`.
pub fn skip_ws_in(s: &[char], i: usize, end: usize) -> (r: usize)
    requires
        i <= end <= s@.len(),
    ensures
        r as int == skip_ws(s@, i as int, end as int),
        i <= r <= end,
        r < end ==> !is_ws(s@[r as int]),
{
    let mut j: usize = i;
    while j < end && is_ws_char(s[j])
        invariant
            i <= j <= end <= s@.len(),
            skip_ws(s@, i as int, end as int) == skip_ws(s@, j as int, end as int),
        decreases end - j,
    {
        j += 1;
    }
    j
}

/// The character views of a list of character vectors.
pub open spec fn vviews(v: Seq<Vec<char>>) -> Seq<Seq<char>> {
    v.map_values(|w: Vec<char>| w@)
}

/// The end of the word starting at `a`: the next whitespace or the end of `s`.
pub open spec fn word_end(s: Seq<char>, a: int) -> int
    decreases s.len() - a,
{
    if 0 <= a < s.len() && !is_ws(s[a]) {
        word_end(s, a + 1)
    } else {
        a
    }
}

/// The whitespace-separated words of `s` from index `i` on.
pub open spec fn words_from(s: Seq<char>, i: int) -> Seq<Seq<char>>
    decreases s.len() - i,
{
    let a = skip_ws(s, i, s.len() as int);
    if i < 0 || a < i || a >= s.len() {
        Seq::empty()
    } else {
        let b = word_end(s, a);
        if b <= a || b > s.len() {
            Seq::empty()
        } else {
            seq![s.subrange(a, b)] + words_from(s, b)
        }
    }
}

/// The whitespace-separated words of `s`.
pub open spec fn words(s: Seq<char>) -> Seq<Seq<char>> {
    words_from(s, 0)
}

fn word_end_in(s: &[char], a: usize) -> (r: usize)
    requires
        a <= s@.len(),
    ensures
        r as int == word_end(s@, a as int),
        a <= r <= s@.len(),
        a < s@.len() && !is_ws(s@[a as int]) ==> r > a,
{
    let mut j: usize = a;
    while j < s.len() && !is_ws_char(s[j])
        invariant
            a <= j <= s@.len(),
            word_end(s@, a as int) == word_end(s@, j as int),
        decreases s@.len() - j,
    {
        j += 1;
    }
    j
}

/// The whitespace-separated words of `s`.
pub fn split_words(s: &[char]) -> (r: Vec<Vec<char>>)
    ensures
        vviews(r@) == words(s@),
{
    let mut out: Vec<Vec<char>> = Vec::new();
    let mut i: usize = 0;
    while i < s.len()
        invariant
            i <= s@.len(),
            words(s@) == vviews(out@) + words_from(s@, i as int),
        decreases s@.len() - i,
    {
        let a = skip_ws_in(s, i, s.len());
        if a >= s.len() {
            assert(words_from(s@, i as int) == Seq::<Seq<char>>::empty());
            assert(vviews(out@) + Seq::<Seq<char>>::empty() =~= vviews(out@));
            return out;
        }
        let b = word_end_in(s, a);
        let ghost before = out@;
        out.push(slice_of(s, a, b));
        assert(vviews(out@) =~= vviews(before) + seq![s@.subrange(a as int, b as int)]);
        assert(words_from(s@, i as int) == seq![s@.subrange(a as int, b as int)] + words_from(
            s@,
            b as int,
        ));
        assert(vviews(out@) + words_from(s@, b as int) =~= vviews(before) + (seq![
            s@.subrange(a as int, b as int),
        ] + words_from(s@, b as int)));
        i = b;
    }
    assert(words_from(s@, i as int) == Seq::<Seq<char>>::empty());
    assert(vviews(out@) + Seq::<Seq<char>>::empty() =~= vviews(out@));
    out
}

/// `l` without one trailing carriage return.
pub open spec fn strip_cr(l: Seq<char>) -> Seq<char> {
    if l.len() > 0 && l.last() == '\r' {
        l.drop_last()
    } else {
        l
    }
}

/// The lines of `s` from index `i` on, split at line feeds, each without a
/// trailing carriage return; a final line feed ends the last line.
pub open spec fn lines_from(s: Seq<char>, i: int) -> Seq<Seq<char>>
    decreases s.len() - i,
{
    if i < 0 || i >= s.len() {
        Seq::empty()
    } else {
        match find_from(s, seq!['\n'], i, s.len() as int) {
            Some(e) => if i <= e < s.len() {
                seq![strip_cr(s.subrange(i, e))] + lines_from(s, e + 1)
            } else {
                Seq::empty()
            },
            None => seq![strip_cr(s.subrange(i, s.len() as int))],
        }
    }
}

/// The lines of `s`.
pub open spec fn lines(s: Seq<char>) -> Seq<Seq<char>> {
    lines_from(s, 0)
}

fn strip_cr_range(s: &[char], a: usize, b: usize) -> (r: Vec<char>)
    requires
        a <= b <= s@.len(),
    ensures
        r@ == strip_cr(s@.subrange(a as int, b as int)),
{
    if b > a && s[b - 1] == '\r' {
        let r = slice_of(s, a, b - 1);
        assert(r@ =~= s@.subrange(a as int, b as int).drop_last());
        r
    } else {
        slice_of(s, a, b)
    }
}

/// The lines of `s`.
pub fn split_lines(s: &[char]) -> (r: Vec<Vec<char>>)
    ensures
        vviews(r@) == lines(s@),
{
    let nl: Vec<char> = vec!['\n'];
    assert(nl@ == seq!['\n']);
    let mut out: Vec<Vec<char>> = Vec::new();
    let mut i: usize = 0;
    while i < s.len()
        invariant
            i <= s@.len(),
            nl@ == seq!['\n'],
            lines(s@) == vviews(out@) + lines_from(s@, i as int),
        decreases s@.len() - i,
    {
        let ghost before = out@;
        match find_in(s, nl.as_slice(), i, s.len()) {
            Some(e) => {
                out.push(strip_cr_range(s, i, e));
                assert(vviews(out@) =~= vviews(before) + seq![strip_cr(s@.subrange(i as int, e as int))]);
                i = e + 1;
            },
            None => {
                out.push(strip_cr_range(s, i, s.len()));
                assert(vviews(out@) =~= vviews(before) + seq![strip_cr(s@.subrange(i as int, s@.len() as int))]);
                assert(lines_from(s@, s@.len() as int) == Seq::<Seq<char>>::empty());
                assert(vviews(out@) + Seq::<Seq<char>>::empty() =~= vviews(out@));
                return out;
            },
        }
    }
    assert(lines_from(s@, i as int) == Seq::<Seq<char>>::empty());
    assert(vviews(out@) + Seq::<Seq<char>>::empty() =~= vviews(out@));
    out
}

/// Joins `words` with the separator `sep`.
pub fn join_vecs(words: &[Vec<char>], sep: &[char]) -> (r: Vec<char>)
    ensures
        r@ == join(vviews(words@), sep@),
{
    let mut r: Vec<char> = Vec::new();
    let mut i: usize = 0;
    while i < words.len()
        invariant
            i <= words@.len(),
            r@ == join(vviews(words@.subrange(0, i as int)), sep@),
        decreases words@.len() - i,
    {
        if i > 0 {
            extend(&mut r, sep);
        }
        extend(&mut r, words[i].as_slice());
        i += 1;
        assert(vviews(words@.subrange(0, i as int)).drop_last() =~= vviews(
            words@.subrange(0, i - 1 as int),
        ));
    }
    assert(words@.subrange(0, words@.len() as int) == words@);
    r
}

/// The character view of an optional string.
pub open spec fn opt_view(o: Option<String>) -> Option<Seq<char>> {
    match o {
        Some(s) => Some(s@),
        None => None,
    }
}

/// Appends a string to a list of strings.
pub fn push_string(v: &mut Vec<String>, s: String)
    ensures
        views(final(v)@) == views(old(v)@).push(s@),
{
    let ghost s_view = s@;
    v.push(s);
    assert(views(v@) =~= views(old(v)@).push(s_view));
}

/// Appends a copy of a literal to a list of strings.
pub fn push_literal(v: &mut Vec<String>, s: &str)
    ensures
        views(final(v)@) == views(old(v)@).push(s@),
{
    push_string(v, String::from_str(s));
}

/// Appends a string made of these characters to a list of strings.
pub fn push_chars(v: &mut Vec<String>, s: &[char])
    ensures
        views(final(v)@) == views(old(v)@).push(s@),
{
    push_string(v, string_of(s));
}

/// Number of occurrences of `c` in `s`.
pub open spec fn count_char(s: Seq<char>, c: char) -> nat
    decreases s.len(),
{
    if s.len() == 0 {
        0
    } else {
        count_char(s.drop_last(), c) + if s.last() == c {
            1nat
        } else {
            0nat
        }
    }
}

/// Number of occurrences of `c` in `s`.
pub fn count_char_exec(s: &[char], c: char) -> (r: usize)
    ensures
        r as nat == count_char(s@, c),
{
    let mut n: usize = 0;
    let mut i: usize = 0;
    while i < s.len()
        invariant
            i <= s@.len(),
            n <= i,
            n as nat == count_char(s@.subrange(0, i as int), c),
        decreases s@.len() - i,
    {
        assert(s@.subrange(0, i + 1 as int).drop_last() =~= s@.subrange(0, i as int));
        if s[i] == c {
            n += 1;
        }
        i += 1;
    }
    assert(s@.subrange(0, s@.len() as int) == s@);
    n
}

/// Appends a character vector to a list of them.
pub fn push_vec(v: &mut Vec<Vec<char>>, x: Vec<char>)
    ensures
        vviews(final(v)@) == vviews(old(v)@).push(x@),
{
    let ghost x_view = x@;
    v.push(x);
    assert(vviews(v@) =~= vviews(old(v)@).push(x_view));
}

/// Whether `a` equals `b` up to ASCII case.
pub fn range_eq_ignore_case_all(a: &[char], b: &[char]) -> (r: bool)
    ensures
        r == eq_ignore_case(a@, b@),
{
    assert(a@.subrange(0, a@.len() as int) == a@);
    range_eq_ignore_case(a, 0, a.len(), b)
}

pub proof fn lemma_trim_start_len(s: Seq<char>)
    ensures
        trim_start(s).len() <= s.len(),
        s.len() > 0 && is_ws(s[0]) ==> trim_start(s).len() < s.len(),
    decreases s.len(),
{
    if s.len() > 0 && is_ws(s[0]) {
        lemma_trim_start_len(s.drop_first());
    }
}

pub proof fn lemma_trim_end_len(s: Seq<char>)
    ensures
        trim_end(s).len() <= s.len(),
        s.len() > 0 && is_ws(s.last()) ==> trim_end(s).len() < s.len(),
    decreases s.len(),
{
    if s.len() > 0 && is_ws(s.last()) {
        lemma_trim_end_len(s.drop_last());
    }
}

/// A trimmed non-empty sequence neither starts nor ends with whitespace.
pub proof fn lemma_trimmed_ends(t: Seq<char>)
    requires
        t == trim(t),
        t.len() > 0,
    ensures
        !is_ws(t[0]),
        !is_ws(t.last()),
{
    lemma_trim_start_len(t);
    lemma_trim_end_len(trim_start(t));
    if is_ws(t[0]) {
        assert(trim(t).len() < t.len());
    }
    if trim_start(t) == t {
        lemma_trim_end_len(t);
    } else {
        assert(trim_start(t).len() < t.len()) by {
            if !(t.len() > 0 && is_ws(t[0])) {
                assert(trim_start(t) == t);
            }
        }
    }
}

/// A sequence with non-blank ends is its own trim.
pub proof fn lemma_trim_noop(s: Seq<char>)
    requires
        s.len() > 0,
        !is_ws(s[0]),
        !is_ws(s.last()),
    ensures
        trim(s) == s,
        trim_start(s) == s,
        trim_end(s) == s,
{
}

/// `pat` is found first at `k` when it occurs there and nowhere before.
pub proof fn lemma_find_from_at(s: Seq<char>, pat: Seq<char>, from: int, to: int, k: int)
    requires
        0 <= from <= k,
        k + pat.len() <= to <= s.len(),
        occurs_at(s, pat, k),
        forall|j: int| from <= j < k ==> !occurs_at(s, pat, j),
    ensures
        find_from(s, pat, from, to) == Some(k),
    decreases k - from,
{
    if from < k {
        lemma_find_from_at(s, pat, from + 1, to, k);
    }
}

/// An occurrence of `pat` inside `b` is an occurrence inside `a + b + c`.
pub proof fn lemma_occurs_shift(a: Seq<char>, b: Seq<char>, c: Seq<char>, pat: Seq<char>, j: int)
    requires
        occurs_at(a + b + c, pat, a.len() + j),
        0 <= j,
        j + pat.len() <= b.len(),
    ensures
        occurs_at(b, pat, j),
{
    assert((a + b + c).subrange(a.len() + j, a.len() + j + pat.len()) =~= b.subrange(
        j,
        j + pat.len(),
    ));
}

proof fn lemma_trim_start_head(x: Seq<char>)
    ensures
        trim_start(x).len() > 0 ==> !is_ws(trim_start(x)[0]),
    decreases x.len(),
{
    if x.len() > 0 && is_ws(x[0]) {
        lemma_trim_start_head(x.drop_first());
    }
}

proof fn lemma_trim_end_prefix(y: Seq<char>)
    ensures
        trim_end(y) == y.subrange(0, trim_end(y).len() as int),
        trim_end(y).len() <= y.len(),
        trim_end(y).len() > 0 ==> !is_ws(trim_end(y).last()),
    decreases y.len(),
{
    if y.len() > 0 && is_ws(y.last()) {
        lemma_trim_end_prefix(y.drop_last());
        assert(y.drop_last().subrange(0, trim_end(y).len() as int) =~= y.subrange(
            0,
            trim_end(y).len() as int,
        ));
    } else {
        assert(y.subrange(0, y.len() as int) =~= y);
    }
}

/// Trimming twice is trimming once.
pub proof fn lemma_trim_idempotent(x: Seq<char>)
    ensures
        trim(trim(x)) == trim(x),
        trim(x).len() > 0 ==> !is_ws(trim(x)[0]) && !is_ws(trim(x).last()),
{
    let y = trim_start(x);
    lemma_trim_start_head(x);
    lemma_trim_end_prefix(y);
    if trim(x).len() > 0 {
        assert(trim(x)[0] == y[0]);
        lemma_trim_noop(trim(x));
    }
}

/// A joined word list holds each of its words.
pub proof fn lemma_join_contains(ws: Seq<Seq<char>>, sep: Seq<char>, k: int)
    requires
        0 <= k < ws.len(),
    ensures
        contains(join(ws, sep), ws[k]),
    decreases ws.len(),
{
    if ws.len() == 1 {
        assert(join(ws, sep).subrange(0, ws[0].len() as int) =~= ws[0]);
        assert(occurs_at(join(ws, sep), ws[k], 0));
    } else {
        let init = join(ws.drop_last(), sep);
        if k == ws.len() - 1 {
            let at = (init + sep).len() as int;
            assert(join(ws, sep).subrange(at, at + ws[k].len()) =~= ws[k]);
            assert(occurs_at(join(ws, sep), ws[k], at));
        } else {
            lemma_join_contains(ws.drop_last(), sep, k);
            let i = choose|i: int| occurs_at(init, ws[k], i);
            assert(join(ws, sep).subrange(i, i + ws[k].len()) =~= init.subrange(
                i,
                i + ws[k].len(),
            ));
            assert(occurs_at(join(ws, sep), ws[k], i));
        }
    }
}

/// Appending to a sequence keeps what it contains.
pub proof fn lemma_contains_extend(s: Seq<char>, tail: Seq<char>, pat: Seq<char>)
    requires
        contains(s, pat),
    ensures
        contains(s + tail, pat),
{
    let i = choose|i: int| occurs_at(s, pat, i);
    assert((s + tail).subrange(i, i + pat.len()) =~= s.subrange(i, i + pat.len()));
    assert(occurs_at(s + tail, pat, i));
}

} // verus!
