//! Structural search in Steam's brace/quote key-value text (`localconfig.vdf`).
//!
//! All positions are character indices into the file's text.
use vstd::prelude::*;
use crate::text::{
    chars_of, eq_ignore_case, extend, find_from, find_in, range_eq_ignore_case, skip_ws, skip_ws_in,
};

verus! {

/// Scan state of the brace matcher after the characters before `i`:
/// nesting `depth`, whether we are inside a quoted string, and whether the
/// previous character inside that string was a backslash.
/// Returns the index of the `}` that brings the depth back to zero.
pub open spec fn brace_scan(
    s: Seq<char>,
    i: int,
    end: int,
    depth: int,
    in_str: bool,
    esc: bool,
) -> Option<int>
    decreases end - i,
{
    if i < 0 || i >= end || end > s.len() {
        None
    } else if in_str {
        if esc {
            brace_scan(s, i + 1, end, depth, true, false)
        } else if s[i] == '\\' {
            brace_scan(s, i + 1, end, depth, true, true)
        } else if s[i] == '"' {
            brace_scan(s, i + 1, end, depth, false, false)
        } else {
            brace_scan(s, i + 1, end, depth, true, false)
        }
    } else if s[i] == '"' {
        brace_scan(s, i + 1, end, depth, true, false)
    } else if s[i] == '{' {
        brace_scan(s, i + 1, end, depth + 1, false, false)
    } else if s[i] == '}' {
        if depth - 1 == 0 {
            Some(i)
        } else {
            brace_scan(s, i + 1, end, depth - 1, false, false)
        }
    } else {
        brace_scan(s, i + 1, end, depth, false, false)
    }
}

/// The index of the `}` closing the `{` at `open`, searching before `end`;
/// braces inside double-quoted strings (with backslash escapes) are ignored.
pub open spec fn matching_brace(s: Seq<char>, open: int, end: int) -> Option<int> {
    if 0 <= open < end <= s.len() && s[open] == '{' {
        brace_scan(s, open, end, 0, false, false)
    } else {
        None
    }
}

/// `key` between double quotes.
pub open spec fn quoted(key: Seq<char>) -> Seq<char> {
    seq!['"'] + key + seq!['"']
}

/// A block found for a key: where the key starts, its `{` and its `}`.
pub open spec fn block_at(s: Seq<char>, key_pos: int, after_key: int, end: int) -> Option<(int, int, int)> {
    let i = skip_ws(s, after_key, end);
    if i < end && s[i] == '{' {
        match matching_brace(s, i, end) {
            Some(c) => Some((key_pos, i, c)),
            None => None,
        }
    } else {
        None
    }
}

/// A `{` follows `after_key` (after whitespace) before `end`.
pub open spec fn brace_follows(s: Seq<char>, after_key: int, end: int) -> bool {
    let i = skip_ws(s, after_key, end);
    i < end && s[i] == '{'
}

/// The first `"key"` (exact case) at or after `search` whose next non-blank
/// character before `end` opens a block; the block's key, open and close
/// positions. An occurrence without a block resumes the search after it.
pub open spec fn key_block_from(s: Seq<char>, key: Seq<char>, search: int, end: int) -> Option<
    (int, int, int),
>
    decreases end - search,
{
    if search < 0 || search >= end || end > s.len() {
        None
    } else {
        match find_from(s, quoted(key), search, end) {
            None => None,
            Some(p) => if brace_follows(s, p + quoted(key).len(), end) {
                block_at(s, p, p + quoted(key).len(), end)
            } else if search < p + quoted(key).len() <= end {
                key_block_from(s, key, p + quoted(key).len(), end)
            } else {
                None
            },
        }
    }
}

/// The first quoted token at or after `search` that equals `key` up to ASCII
/// case and is followed by a block before `end`. Tokens are read as pairs of
/// consecutive double quotes.
pub open spec fn ci_block_from(s: Seq<char>, key: Seq<char>, search: int, end: int) -> Option<
    (int, int, int),
>
    decreases end - search,
{
    if search < 0 || search >= end || end > s.len() {
        None
    } else {
        match find_from(s, seq!['"'], search, end) {
            None => None,
            Some(q1) => match find_from(s, seq!['"'], q1 + 1, end) {
                None => None,
                Some(q2) => if !(search <= q1 < q2 < end) {
                    None
                } else if eq_ignore_case(s.subrange(q1 + 1, q2), key) && brace_follows(
                    s,
                    q2 + 1,
                    end,
                ) {
                    block_at(s, q1, q2 + 1, end)
                } else {
                    ci_block_from(s, key, q2 + 1, end)
                },
            },
        }
    }
}

/// The `apps` block at `UserLocalConfigStore/Software/Valve/Steam/apps`,
/// each key matched up to ASCII case inside the block before it.
pub open spec fn steam_apps_block(s: Seq<char>) -> Option<(int, int, int)> {
    match ci_block_from(s, "UserLocalConfigStore"@, 0, s.len() as int) {
        None => None,
        Some((_, o1, c1)) => match ci_block_from(s, "Software"@, o1 + 1, c1) {
            None => None,
            Some((_, o2, c2)) => match ci_block_from(s, "Valve"@, o2 + 1, c2) {
                None => None,
                Some((_, o3, c3)) => match ci_block_from(s, "Steam"@, o3 + 1, c3) {
                    None => None,
                    Some((_, o4, c4)) => ci_block_from(s, "apps"@, o4 + 1, c4),
                },
            },
        },
    }
}

/// A found block lies inside the range searched.
pub open spec fn block_within(b: (int, int, int), start: int, end: int) -> bool {
    start <= b.0 < b.1 < b.2 < end
}

/// Index of the `}` matching the `{` at index `open` of the characters `s`,
/// scanning before `end`; None when `s[open]` is not `{` or the block is not
/// closed before `end`. Positions are character indices.
pub fn match_matching_brace(s: &[char], open: usize, end: usize) -> (r: Option<usize>)
    requires
        end <= s@.len(),
    ensures
        r is None <==> matching_brace(s@, open as int, end as int) is None,
        r matches Some(c) ==> matching_brace(s@, open as int, end as int) == Some(c as int) && open
            < c < end,
{
    if open >= end || s[open] != '{' {
        return None;
    }
    let mut depth: usize = 0;
    let mut in_str = false;
    let mut esc = false;
    let mut i: usize = open;
    while i < end
        invariant
            open <= i <= end <= s@.len(),
            s@[open as int] == '{',
            depth <= i - open,
            i > open ==> depth >= 1,
            i == open ==> depth == 0 && !in_str && !esc,
            !in_str ==> !esc,
            matching_brace(s@, open as int, end as int) == brace_scan(
                s@,
                i as int,
                end as int,
                depth as int,
                in_str,
                esc,
            ),
        decreases end - i,
    {
        let c = s[i];
        if in_str {
            if esc {
                esc = false;
            } else if c == '\\' {
                esc = true;
            } else if c == '"' {
                in_str = false;
            }
        } else if c == '"' {
            in_str = true;
        } else if c == '{' {
            depth += 1;
        } else if c == '}' {
            if depth == 1 {
                return Some(i);
            }
            depth -= 1;
        }
        i += 1;
    }
    None
}

fn block_at_exec(s: &[char], key_pos: usize, after_key: usize, end: usize) -> (r: Option<
    (usize, usize, usize),
>)
    requires
        after_key <= end <= s@.len(),
        key_pos < after_key,
        brace_follows(s@, after_key as int, end as int),
    ensures
        r is None <==> block_at(s@, key_pos as int, after_key as int, end as int) is None,
        r matches Some(b) ==> block_at(s@, key_pos as int, after_key as int, end as int) == Some(
            (b.0 as int, b.1 as int, b.2 as int),
        ) && key_pos == b.0 && after_key <= b.1 < b.2 < end,
{
    let i = skip_ws_in(s, after_key, end);
    match match_matching_brace(s, i, end) {
        Some(c) => Some((key_pos, i, c)),
        None => None,
    }
}

/// The block for `"key"` (exact case) in `s[start..end]`.
pub fn find_block_by_key_in_range(s: &[char], key: &[char], start: usize, end: usize) -> (r: Option<
    (usize, usize, usize),
>)
    requires
        end <= s@.len(),
    ensures
        r is None <==> key_block_from(s@, key@, start as int, end as int) is None,
        r matches Some(b) ==> key_block_from(s@, key@, start as int, end as int) == Some(
            (b.0 as int, b.1 as int, b.2 as int),
        ) && block_within((b.0 as int, b.1 as int, b.2 as int), start as int, end as int),
{
    let mut needle: Vec<char> = Vec::new();
    needle.push('"');
    extend(&mut needle, key);
    needle.push('"');
    assert(needle@ == quoted(key@));
    let mut search: usize = start;
    while search < end
        invariant
            end <= s@.len(),
            start <= search,
            needle@ == quoted(key@),
            key_block_from(s@, key@, start as int, end as int) == key_block_from(
                s@,
                key@,
                search as int,
                end as int,
            ),
        decreases end - search,
    {
        let p = match find_in(s, needle.as_slice(), search, end) {
            Some(p) => p,
            None => return None,
        };
        let after = p + needle.len();
        let i = skip_ws_in(s, after, end);
        if i < end && s[i] == '{' {
            return block_at_exec(s, p, after, end);
        }
        search = after;
    }
    None
}

/// The block whose quoted key equals `key` up to ASCII case in `s[start..end]`.
pub fn find_block_by_key_in_range_ci(s: &[char], key: &[char], start: usize, end: usize) -> (r:
    Option<(usize, usize, usize)>)
    requires
        end <= s@.len(),
    ensures
        r is None <==> ci_block_from(s@, key@, start as int, end as int) is None,
        r matches Some(b) ==> ci_block_from(s@, key@, start as int, end as int) == Some(
            (b.0 as int, b.1 as int, b.2 as int),
        ) && block_within((b.0 as int, b.1 as int, b.2 as int), start as int, end as int),
{
    let quote: Vec<char> = vec!['"'];
    assert(quote@ == seq!['"']);
    let mut search: usize = start;
    while search < end
        invariant
            end <= s@.len(),
            start <= search,
            quote@ == seq!['"'],
            ci_block_from(s@, key@, start as int, end as int) == ci_block_from(
                s@,
                key@,
                search as int,
                end as int,
            ),
        decreases end - search,
    {
        let q1 = match find_in(s, quote.as_slice(), search, end) {
            Some(q) => q,
            None => return None,
        };
        let q2 = match find_in(s, quote.as_slice(), q1 + 1, end) {
            Some(q) => q,
            None => return None,
        };
        if range_eq_ignore_case(s, q1 + 1, q2, key) {
            let i = skip_ws_in(s, q2 + 1, end);
            if i < end && s[i] == '{' {
                return block_at_exec(s, q1, q2 + 1, end);
            }
        }
        search = q2 + 1;
    }
    None
}

/// Character vector of a string.
fn key_chars(k: &str) -> (r: Vec<char>)
    ensures
        r@ == k@,
{
    chars_of(k)
}

/// The canonical `apps` block of a Steam `localconfig.vdf`.
pub fn find_steam_apps_block(s: &[char]) -> (r: Option<(usize, usize, usize)>)
    ensures
        r is None <==> steam_apps_block(s@) is None,
        r matches Some(b) ==> steam_apps_block(s@) == Some((b.0 as int, b.1 as int, b.2 as int))
            && b.0 < b.1 < b.2 < s@.len(),
{
    let (_, o1, c1) = match find_block_by_key_in_range_ci(
        s,
        key_chars("UserLocalConfigStore").as_slice(),
        0,
        s.len(),
    ) {
        Some(b) => b,
        None => return None,
    };
    let (_, o2, c2) = match find_block_by_key_in_range_ci(
        s,
        key_chars("Software").as_slice(),
        o1 + 1,
        c1,
    ) {
        Some(b) => b,
        None => return None,
    };
    let (_, o3, c3) = match find_block_by_key_in_range_ci(
        s,
        key_chars("Valve").as_slice(),
        o2 + 1,
        c2,
    ) {
        Some(b) => b,
        None => return None,
    };
    let (_, o4, c4) = match find_block_by_key_in_range_ci(
        s,
        key_chars("Steam").as_slice(),
        o3 + 1,
        c3,
    ) {
        Some(b) => b,
        None => return None,
    };
    find_block_by_key_in_range_ci(s, key_chars("apps").as_slice(), o4 + 1, c4)
}

} // verus!
