//! The Steam `LaunchOptions` patcher for `localconfig.vdf`.
//!
//! The library owns a region of each `LaunchOptions` value delimited by a
//! start and an end marker; everything outside that region belongs to the user.
use vstd::prelude::*;
use crate::error::FileReport;
use crate::models::GpuChoice;
use crate::text::{
    chars_of, decimal, decimal_chars, extend, extend_str, find_from, find_in, indent_of, indent_len,
    join, join_strings, line_start, rfind_before, slice_of, string_of, trim, trim_all, trim_end,
    trim_end_all, trim_range, trim_start, trim_start_all, views, is_ws, occurs_at, contains, ends_with,
    lemma_trim_noop, lemma_trimmed_ends, lemma_find_from_at, lemma_occurs_shift,
    lemma_trim_idempotent,
};

verus! {

/// Literal that opens the managed region of a `LaunchOptions` value.
pub const MANAGED_START: &'static str = "KAEDE_GPU_MANAGED=1";

/// Literal that closes the managed region of a `LaunchOptions` value.
pub const MANAGED_END: &'static str = "KAEDE_GPU_MANAGED_END=1";

/// Placeholder Steam replaces with the game's own command line.
pub const COMMAND_PLACEHOLDER: &'static str = "%command%";

pub open spec fn start_marker() -> Seq<char> {
    MANAGED_START@
}

pub open spec fn end_marker() -> Seq<char> {
    MANAGED_END@
}

/// The key of the launch-options leaf, with its quotes.
pub open spec fn launch_key() -> Seq<char> {
    "\"LaunchOptions\""@
}

/// Positions of the double quotes in `s`, in increasing order.
pub open spec fn quote_positions(s: Seq<char>) -> Seq<int>
    decreases s.len(),
{
    if s.len() == 0 {
        Seq::empty()
    } else if s.last() == '"' {
        quote_positions(s.drop_last()).push(s.len() - 1)
    } else {
        quote_positions(s.drop_last())
    }
}

/// The trimmed text between the third and fourth double quote of a
/// `"LaunchOptions"  "value"` line.
pub open spec fn launch_value(line: Seq<char>) -> Option<Seq<char>> {
    let q = quote_positions(line);
    if q.len() < 4 || q[3] < q[2] + 1 || q[3] > line.len() {
        None
    } else {
        Some(trim(line.subrange(q[2] + 1, q[3])))
    }
}

/// The line that holds the first `"LaunchOptions"` key inside `s[start..end]`:
/// its start, its end (past its newline), its value and its indentation.
pub open spec fn launch_line(s: Seq<char>, start: int, end: int) -> Option<
    (int, int, Option<Seq<char>>, Seq<char>),
> {
    match find_from(s, launch_key(), start, end) {
        None => None,
        Some(k) => {
            let ls = line_start(s, k);
            let le = match find_from(s, seq!['\n'], k, s.len() as int) {
                Some(j) => j + 1,
                None => s.len() as int,
            };
            Some((ls, le, launch_value(s.subrange(ls, le)), indent_of(s.subrange(ls, le))))
        },
    }
}

/// The indentation of the line holding position `idx`, up to `idx`.
pub open spec fn indentation_at(s: Seq<char>, idx: int) -> Seq<char> {
    indent_of(s.subrange(line_start(s, idx), idx))
}

/// `l` ends with the word `env`.
pub open spec fn ends_with_env_word(l: Seq<char>) -> bool {
    ends_with(l, "env"@) && (l.len() == 3 || is_ws(l[l.len() - 4]))
}

/// The text before the start marker without the `env` word that the
/// library writes directly in front of it.
pub open spec fn drop_env(pre: Seq<char>) -> Seq<char> {
    let l = trim_end(pre);
    if ends_with_env_word(l) {
        l.subrange(0, l.len() - 3)
    } else {
        pre
    }
}

/// `v` with the managed region removed: from the first start marker (with
/// an `env` word directly before it) through the first end marker after
/// it. Without an end marker only the start marker (and that `env`) is
/// removed.
pub open spec fn strip_managed(v: Seq<char>) -> Seq<char> {
    match find_from(v, start_marker(), 0, v.len() as int) {
        None => v,
        Some(st) => match find_from(v, end_marker(), st, v.len() as int) {
            Some(e0) => {
                let left = trim_end(drop_env(v.subrange(0, st)));
                let right = v.subrange(e0 + end_marker().len(), v.len() as int);
                let out = if left.len() > 0 && trim(right).len() > 0 {
                    left + seq![' '] + trim_start(right)
                } else {
                    left + trim_start(right)
                };
                trim(out)
            },
            None => trim(
                drop_env(v.subrange(0, st)) + v.subrange(st + start_marker().len(), v.len() as int),
            ),
        },
    }
}

/// `DRI_PRIME=<index>`.
pub open spec fn dri_prime_var(index: nat) -> Seq<char> {
    "DRI_PRIME="@ + decimal(index)
}

/// The variables written into the managed region for GPU `index`.
pub open spec fn managed_vars(index: nat, env: Seq<Seq<char>>) -> Seq<Seq<char>> {
    if env.len() == 0 {
        seq![dri_prime_var(index)]
    } else {
        env
    }
}

/// The managed region for a choice: none for the default GPU.
pub open spec fn managed_prefix(choice: GpuChoice, env: Seq<Seq<char>>, use_env_wrapper: bool) -> Option<
    Seq<char>,
> {
    match choice {
        GpuChoice::Default => None,
        GpuChoice::Gpu(i) => Some(
            (if use_env_wrapper {
                "env "@
            } else {
                Seq::empty()
            }) + start_marker() + seq![' '] + join(managed_vars(i as nat, env), seq![' '])
                + seq![' '] + end_marker(),
        ),
    }
}

/// The user's part of an existing value: the value with its managed region
/// removed, trimmed.
pub open spec fn user_tail(existing: Option<Seq<char>>) -> Seq<char> {
    let e = match existing {
        Some(v) => trim(v),
        None => Seq::empty(),
    };
    trim(strip_managed(e))
}

/// The new `LaunchOptions` value: the desired managed region followed by the
/// user's tail (`%command%` when there is none), or the tail alone when no
/// region is desired.
pub open spec fn apply_prefix(existing: Option<Seq<char>>, desired: Option<Seq<char>>) -> Seq<char> {
    let tail = user_tail(existing);
    match desired {
        Some(p) => {
            let t = if tail.len() == 0 {
                COMMAND_PLACEHOLDER@
            } else {
                tail
            };
            trim(trim(p) + seq![' '] + t)
        },
        None => tail,
    }
}

/// Start of the line holding position `i`.
pub fn line_start_of(s: &[char], i: usize) -> (r: usize)
    requires
        i <= s@.len(),
    ensures
        r as int == line_start(s@, i as int),
        r <= i,
{
    let mut j: usize = i;
    while j > 0 && s[j - 1] != '\n'
        invariant
            j <= i <= s@.len(),
            rfind_before(s@, '\n', i as int) == rfind_before(s@, '\n', j as int),
        decreases j,
    {
        j -= 1;
    }
    j
}

/// Leading tabs and spaces of `s[from..to]`.
fn indent_in(s: &[char], from: usize, to: usize) -> (r: Vec<char>)
    requires
        from <= to <= s@.len(),
    ensures
        r@ == indent_of(s@.subrange(from as int, to as int)),
{
    let mut j: usize = from;
    while j < to && (s[j] == '\t' || s[j] == ' ')
        invariant
            from <= j <= to <= s@.len(),
            indent_len(s@.subrange(from as int, to as int)) == (j - from) + indent_len(
                s@.subrange(j as int, to as int),
            ),
        decreases to - j,
    {
        assert(s@.subrange(j as int, to as int).drop_first() =~= s@.subrange(j + 1, to as int));
        j += 1;
    }
    let r = slice_of(s, from, j);
    assert(r@ =~= indent_of(s@.subrange(from as int, to as int)));
    r
}

/// The indentation of the line holding position `idx`.
pub fn indentation_at_exec(s: &[char], idx: usize) -> (r: Vec<char>)
    requires
        idx <= s@.len(),
    ensures
        r@ == indentation_at(s@, idx as int),
{
    let ls = line_start_of(s, idx);
    indent_in(s, ls, idx)
}

/// The value of a `"LaunchOptions"\t\t"value"` line.
pub fn parse_launch_options_value(line: &[char]) -> (r: Option<Vec<char>>)
    ensures
        r is None <==> launch_value(line@) is None,
        r matches Some(v) ==> launch_value(line@) == Some(v@),
{
    let mut q: Vec<usize> = Vec::new();
    let mut i: usize = 0;
    while i < line.len()
        invariant
            i <= line@.len(),
            q@.len() == quote_positions(line@.subrange(0, i as int)).len(),
            forall|j: int|
                0 <= j < q@.len() ==> q@[j] as int == quote_positions(
                    line@.subrange(0, i as int),
                )[j] && q@[j] < i,
        decreases line@.len() - i,
    {
        assert(line@.subrange(0, i + 1 as int).drop_last() =~= line@.subrange(0, i as int));
        if line[i] == '"' {
            q.push(i);
        }
        i += 1;
    }
    assert(line@.subrange(0, line@.len() as int) == line@);
    if q.len() < 4 {
        return None;
    }
    let start = q[2] + 1;
    let end = q[3];
    if end < start {
        return None;
    }
    Some(trim_range(line, start, end))
}

/// A located `LaunchOptions` line.
pub struct LaunchLine {
    pub start: usize,
    pub end: usize,
    pub value: Option<Vec<char>>,
    pub indent: Vec<char>,
}

/// The spec-level tuple of a located line.
pub open spec fn launch_line_view(l: LaunchLine) -> (int, int, Option<Seq<char>>, Seq<char>) {
    (
        l.start as int,
        l.end as int,
        match l.value {
            Some(v) => Some(v@),
            None => None,
        },
        l.indent@,
    )
}

/// The first `LaunchOptions` line inside `s[start..end]`.
pub fn find_launch_options_line(s: &[char], start: usize, end: usize) -> (r: Option<LaunchLine>)
    requires
        end <= s@.len(),
    ensures
        r is None <==> launch_line(s@, start as int, end as int) is None,
        r matches Some(l) ==> launch_line(s@, start as int, end as int) == Some(
            launch_line_view(l),
        ) && l.start <= l.end <= s@.len(),
{
    let key = chars_of("\"LaunchOptions\"");
    let k = match find_in(s, key.as_slice(), start, end) {
        Some(k) => k,
        None => return None,
    };
    let ls = line_start_of(s, k);
    let nl: Vec<char> = vec!['\n'];
    assert(nl@ == seq!['\n']);
    let le = match find_in(s, nl.as_slice(), k, s.len()) {
        Some(j) => j + 1,
        None => s.len(),
    };
    let line = slice_of(s, ls, le);
    let value = parse_launch_options_value(line.as_slice());
    let indent = indent_in(s, ls, le);
    Some(LaunchLine { start: ls, end: le, value, indent })
}

/// `v` with its managed region removed (see `strip_managed`).
pub fn strip_managed_chars(v: &[char]) -> (r: Vec<char>)
    ensures
        r@ == strip_managed(v@),
{
    let start = chars_of(MANAGED_START);
    let end = chars_of(MANAGED_END);
    let st = match find_in(v, start.as_slice(), 0, v.len()) {
        Some(st) => st,
        None => {
            assert(v@.subrange(0, v@.len() as int) == v@);
            return slice_of(v, 0, v.len());
        },
    };
    match find_in(v, end.as_slice(), st, v.len()) {
        Some(e0) => {
            let left = trim_end_all(drop_env_exec(slice_of(v, 0, st).as_slice()).as_slice());
            let right = slice_of(v, e0 + end.len(), v.len());
            let right_trimmed = trim_all(right.as_slice());
            let mut out = left;
            if out.len() > 0 && right_trimmed.len() > 0 {
                out.push(' ');
            }
            let ghost out0 = out@;
            extend(&mut out, trim_start_all(right.as_slice()).as_slice());
            assert(out0.len() > 0 && trim(right@).len() > 0 ==> out0 == left@ + seq![' ']);
            assert(out@ =~= if left@.len() > 0 && trim(right@).len() > 0 {
                left@ + seq![' '] + trim_start(right@)
            } else {
                left@ + trim_start(right@)
            });
            trim_all(out.as_slice())
        },
        None => {
            let mut out = drop_env_exec(slice_of(v, 0, st).as_slice());
            extend(&mut out, slice_of(v, st + start.len(), v.len()).as_slice());
            trim_all(out.as_slice())
        },
    }
}

/// The text before the start marker without a wrapping `env` word (see
/// `drop_env`).
fn drop_env_exec(pre: &[char]) -> (r: Vec<char>)
    ensures
        r@ == drop_env(pre@),
{
    let l = trim_end_all(pre);
    let e = chars_of("env");
    proof {
        reveal_strlit("env");
    }
    let n = l.len();
    if n >= 3 && crate::text::matches_at(l.as_slice(), e.as_slice(), n - 3) && (n == 3
        || crate::text::is_ws_char(l[n - 4])) {
        slice_of(l.as_slice(), 0, n - 3)
    } else {
        assert(pre@.subrange(0, pre@.len() as int) == pre@);
        slice_of(pre, 0, pre.len())
    }
}

/// The user's part of a `LaunchOptions` value: the value with the managed
/// region (start marker through end marker) removed and trimmed.
pub fn strip_managed_prefix(value: &str) -> (r: String)
    ensures
        r@ == strip_managed(value@),
{
    let v = chars_of(value);
    string_of(strip_managed_chars(v.as_slice()).as_slice())
}

/// The managed region for `choice`: `[env ]<start> <vars> <end>`, where the
/// variables are `managed_env`, or `DRI_PRIME=<index>` when that is empty.
pub fn build_managed_prefix(choice: GpuChoice, managed_env: &[String], use_env_wrapper: bool) -> (r:
    Option<Vec<char>>)
    ensures
        r is None <==> managed_prefix(choice, views(managed_env@), use_env_wrapper) is None,
        r matches Some(p) ==> managed_prefix(choice, views(managed_env@), use_env_wrapper) == Some(
            p@,
        ),
{
    let index = match choice {
        GpuChoice::Default => return None,
        GpuChoice::Gpu(i) => i,
    };
    let vars = if managed_env.len() == 0 {
        let mut v: Vec<char> = chars_of("DRI_PRIME=");
        extend(&mut v, decimal_chars(index).as_slice());
        assert(v@ == dri_prime_var(index as nat));
        assert(join(seq![dri_prime_var(index as nat)], seq![' ']) == dri_prime_var(index as nat));
        v
    } else {
        join_strings(managed_env, " ")
    };
    proof {
        reveal_strlit(" ");
        assert(" "@ =~= seq![' ']);
    }
    let mut out: Vec<char> = Vec::new();
    if use_env_wrapper {
        extend_str(&mut out, "env ");
    }
    extend_str(&mut out, MANAGED_START);
    out.push(' ');
    extend(&mut out, vars.as_slice());
    out.push(' ');
    extend_str(&mut out, MANAGED_END);
    assert(out@ =~= managed_prefix(choice, views(managed_env@), use_env_wrapper)->0);
    Some(out)
}

/// The new `LaunchOptions` value for an existing one and a desired managed
/// region (see `apply_prefix`).
pub fn apply_prefix_to_existing(existing: Option<&[char]>, desired: Option<&[char]>) -> (r: Vec<char>)
    ensures
        r@ == apply_prefix(
            match existing {
                Some(e) => Some(e@),
                None => None,
            },
            match desired {
                Some(d) => Some(d@),
                None => None,
            },
        ),
{
    let e = match existing {
        Some(v) => trim_all(v),
        None => Vec::new(),
    };
    let tail = trim_all(strip_managed_chars(e.as_slice()).as_slice());
    match desired {
        Some(p) => {
            let t = if tail.len() == 0 {
                chars_of(COMMAND_PLACEHOLDER)
            } else {
                tail
            };
            let mut out = trim_all(p);
            out.push(' ');
            extend(&mut out, t.as_slice());
            assert(out@ =~= trim(p@) + seq![' '] + t@);
            trim_all(out.as_slice())
        },
        None => tail,
    }
}

/// `t` inserted into `s` at index `i`.
pub open spec fn insert_at(s: Seq<char>, i: int, t: Seq<char>) -> Seq<char> {
    s.subrange(0, i) + t + s.subrange(i, s.len() as int)
}

/// `s[a..b]` replaced by `t`.
pub open spec fn replace_range(s: Seq<char>, a: int, b: int, t: Seq<char>) -> Seq<char> {
    s.subrange(0, a) + t + s.subrange(b, s.len() as int)
}

/// `<indent>"LaunchOptions"\t\t"<value>"`.
pub open spec fn launch_entry(indent: Seq<char>, value: Seq<char>) -> Seq<char> {
    indent + "\"LaunchOptions\"\t\t\""@ + value + "\""@
}

/// A new app block for `app_id` holding only a `LaunchOptions` leaf.
pub open spec fn new_app_block(app_indent: Seq<char>, app_id: Seq<char>, value: Seq<char>) -> Seq<char> {
    "\n"@ + app_indent + "\""@ + app_id + "\"\n"@ + app_indent + "{\n"@ + launch_entry(
        app_indent + "\t"@,
        value,
    ) + "\n"@ + app_indent + "}"@
}

/// The text after setting the `LaunchOptions` of `app_id` inside the apps
/// block `(apps_key, apps_open, apps_close)`, and whether anything changed.
///
/// A missing app block is created when a managed region is desired; a line
/// whose new value is empty is deleted; an unchanged value leaves the text
/// as it is.
pub open spec fn upsert_spec(
    s: Seq<char>,
    apps_key: int,
    apps_open: int,
    apps_close: int,
    app_id: Seq<char>,
    desired: Option<Seq<char>>,
) -> (Seq<char>, bool) {
    match crate::vdf::key_block_from(s, app_id, apps_open + 1, apps_close) {
        None => match desired {
            None => (s, false),
            Some(_) => (
                insert_at(
                    s,
                    apps_close,
                    new_app_block(
                        indentation_at(s, apps_key) + "\t"@,
                        app_id,
                        apply_prefix(None, desired),
                    ),
                ),
                true,
            ),
        },
        Some((app_key, app_open, app_close)) => {
            let default_indent = indentation_at(s, app_key) + "\t"@;
            let (ls, le, ev, li) = match launch_line(s, app_open + 1, app_close) {
                Some(t) => t,
                None => (app_close, app_close, None, default_indent),
            };
            let uv = apply_prefix(ev, desired);
            if ls < le {
                if uv.len() == 0 {
                    (replace_range(s, ls, le, Seq::empty()), true)
                } else if ev == Some(uv) {
                    (s, false)
                } else {
                    (replace_range(s, ls, le, launch_entry(li, uv) + "\n"@), true)
                }
            } else if uv.len() == 0 {
                (s, false)
            } else {
                (insert_at(s, app_close, "\n"@ + launch_entry(default_indent, uv)), true)
            }
        },
    }
}

fn insert_chars(s: &[char], i: usize, t: &[char]) -> (r: Vec<char>)
    requires
        i <= s@.len(),
    ensures
        r@ == insert_at(s@, i as int, t@),
{
    let mut out = slice_of(s, 0, i);
    extend(&mut out, t);
    extend(&mut out, slice_of(s, i, s.len()).as_slice());
    out
}

fn replace_chars(s: &[char], a: usize, b: usize, t: &[char]) -> (r: Vec<char>)
    requires
        a <= b <= s@.len(),
    ensures
        r@ == replace_range(s@, a as int, b as int, t@),
{
    let mut out = slice_of(s, 0, a);
    extend(&mut out, t);
    extend(&mut out, slice_of(s, b, s.len()).as_slice());
    out
}

fn launch_entry_chars(indent: &[char], value: &[char]) -> (r: Vec<char>)
    ensures
        r@ == launch_entry(indent@, value@),
{
    let mut out = slice_of(indent, 0, indent.len());
    assert(indent@.subrange(0, indent@.len() as int) == indent@);
    extend_str(&mut out, "\"LaunchOptions\"\t\t\"");
    extend(&mut out, value);
    extend_str(&mut out, "\"");
    out
}

/// Sets the `LaunchOptions` of `app_id` inside the given apps block
/// (see `upsert_spec`).
pub fn upsert_app_launch_options(
    s: &[char],
    apps_key: usize,
    apps_open: usize,
    apps_close: usize,
    app_id: &[char],
    desired_prefix: Option<&[char]>,
) -> (r: (Vec<char>, bool))
    requires
        apps_key <= apps_open < apps_close <= s@.len(),
    ensures
        (r.0@, r.1) == upsert_spec(
            s@,
            apps_key as int,
            apps_open as int,
            apps_close as int,
            app_id@,
            match desired_prefix {
                Some(d) => Some(d@),
                None => None,
            },
        ),
{
    let ghost desired = match desired_prefix {
        Some(d) => Some(d@),
        None => None,
    };
    let found = crate::vdf::find_block_by_key_in_range(s, app_id, apps_open + 1, apps_close);
    let (app_key, app_open, app_close) = match found {
        Some(b) => b,
        None => {
            if desired_prefix.is_none() {
                return (slice_of(s, 0, s.len()), false);
            }
            let mut app_indent = indentation_at_exec(s, apps_key);
            extend_str(&mut app_indent, "\t");
            let value = apply_prefix_to_existing(None, desired_prefix);
            let mut launch_indent = slice_of(app_indent.as_slice(), 0, app_indent.len());
            extend_str(&mut launch_indent, "\t");
            let mut block: Vec<char> = chars_of("\n");
            extend(&mut block, app_indent.as_slice());
            extend_str(&mut block, "\"");
            extend(&mut block, app_id);
            extend_str(&mut block, "\"\n");
            extend(&mut block, app_indent.as_slice());
            extend_str(&mut block, "{\n");
            extend(&mut block, launch_entry_chars(launch_indent.as_slice(), value.as_slice()).as_slice());
            extend_str(&mut block, "\n");
            extend(&mut block, app_indent.as_slice());
            extend_str(&mut block, "}");
            assert(app_indent@.subrange(0, app_indent@.len() as int) == app_indent@);
            assert(block@ =~= new_app_block(
                indentation_at(s@, apps_key as int) + "\t"@,
                app_id@,
                apply_prefix(None, desired),
            ));
            return (insert_chars(s, apps_close, block.as_slice()), true);
        },
    };
    let mut default_indent = indentation_at_exec(s, app_key);
    extend_str(&mut default_indent, "\t");
    let line = find_launch_options_line(s, app_open + 1, app_close);
    let (ls, le, existing, li) = match line {
        Some(l) => (l.start, l.end, l.value, l.indent),
        None => (app_close, app_close, None, slice_of(default_indent.as_slice(), 0, default_indent.len())),
    };
    assert(default_indent@.subrange(0, default_indent@.len() as int) == default_indent@);
    let uv = match &existing {
        Some(e) => apply_prefix_to_existing(Some(e.as_slice()), desired_prefix),
        None => apply_prefix_to_existing(None, desired_prefix),
    };
    if ls < le {
        if uv.len() == 0 {
            return (replace_chars(s, ls, le, Vec::new().as_slice()), true);
        }
        let same = match &existing {
            Some(e) => crate::text::seq_eq(e.as_slice(), uv.as_slice()),
            None => false,
        };
        if same {
            return (slice_of(s, 0, s.len()), false);
        }
        let mut entry = launch_entry_chars(li.as_slice(), uv.as_slice());
        extend_str(&mut entry, "\n");
        return (replace_chars(s, ls, le, entry.as_slice()), true);
    }
    if uv.len() == 0 {
        return (slice_of(s, 0, s.len()), false);
    }
    let mut insertion: Vec<char> = chars_of("\n");
    extend(&mut insertion, launch_entry_chars(default_indent.as_slice(), uv.as_slice()).as_slice());
    (insert_chars(s, app_close, insertion.as_slice()), true)
}

/// The apps block to edit: the canonical one, else the first `apps` block
/// anywhere in the file.
pub open spec fn apps_block_of(s: Seq<char>) -> Option<(int, int, int)> {
    match crate::vdf::steam_apps_block(s) {
        Some(b) => Some(b),
        None => crate::vdf::ci_block_from(s, "apps"@, 0, s.len() as int),
    }
}

/// The whole file after setting the launch options of `app_id` for `choice`,
/// and whether it changed. A file without an apps block is left as it is; a
/// changed file keeps its final newline.
pub open spec fn update_spec(
    s: Seq<char>,
    app_id: Seq<char>,
    choice: GpuChoice,
    env: Seq<Seq<char>>,
    use_env_wrapper: bool,
) -> (Seq<char>, bool) {
    match apps_block_of(s) {
        None => (s, false),
        Some((k, o, c)) => {
            let (out, changed) = upsert_spec(
                s,
                k,
                o,
                c,
                app_id,
                managed_prefix(choice, env, use_env_wrapper),
            );
            if !changed {
                (s, false)
            } else if crate::text::ends_with(s, seq!['\n']) && !crate::text::ends_with(
                out,
                seq!['\n'],
            ) {
                (out.push('\n'), true)
            } else {
                (out, true)
            }
        },
    }
}

fn ends_with_newline(s: &[char]) -> (r: bool)
    ensures
        r == crate::text::ends_with(s@, seq!['\n']),
{
    let nl: Vec<char> = vec!['\n'];
    assert(nl@ == seq!['\n']);
    s.len() >= 1 && crate::text::matches_at(s, nl.as_slice(), s.len() - 1)
}

/// Sets the `LaunchOptions` of `app_id` in the text of a `localconfig.vdf`
/// (see `update_spec`); returns the new text and whether it differs.
pub fn update_localconfig_content(
    content: &str,
    app_id: &str,
    choice: GpuChoice,
    managed_env: &[String],
    use_env_wrapper: bool,
) -> (r: (String, bool))
    ensures
        (r.0@, r.1) == update_spec(content@, app_id@, choice, views(managed_env@), use_env_wrapper),
{
    let s = chars_of(content);
    let id = chars_of(app_id);
    let block = match crate::vdf::find_steam_apps_block(s.as_slice()) {
        Some(b) => Some(b),
        None => crate::vdf::find_block_by_key_in_range_ci(
            s.as_slice(),
            chars_of("apps").as_slice(),
            0,
            s.len(),
        ),
    };
    let (k, o, c) = match block {
        Some(b) => b,
        None => return (string_of(s.as_slice()), false),
    };
    let desired = build_managed_prefix(choice, managed_env, use_env_wrapper);
    let (mut out, changed) = match &desired {
        Some(d) => upsert_app_launch_options(s.as_slice(), k, o, c, id.as_slice(), Some(d.as_slice())),
        None => upsert_app_launch_options(s.as_slice(), k, o, c, id.as_slice(), None),
    };
    if !changed {
        return (string_of(s.as_slice()), false);
    }
    if ends_with_newline(s.as_slice()) && !ends_with_newline(out.as_slice()) {
        out.push('\n');
    }
    (string_of(out.as_slice()), true)
}

/// Whether `app_id` has a block under the first `apps` block, and the value of
/// its `LaunchOptions` if it has one.
pub open spec fn app_state(s: Seq<char>, app_id: Seq<char>) -> (bool, Option<Seq<char>>) {
    match crate::vdf::ci_block_from(s, "apps"@, 0, s.len() as int) {
        None => (false, None),
        Some((_, o, c)) => match crate::vdf::key_block_from(s, app_id, o + 1, c) {
            None => (false, None),
            Some((_, ao, ac)) => (
                true,
                match launch_line(s, ao + 1, ac) {
                    Some(l) => l.2,
                    None => None,
                },
            ),
        },
    }
}

/// What a `localconfig.vdf` holds for one app.
pub struct AppState {
    pub app_found: bool,
    pub launch_options: Option<String>,
}

/// Reads the state of `app_id` from the text of a `localconfig.vdf`.
pub fn app_state_in_localconfig(content: &str, app_id: &str) -> (r: AppState)
    ensures
        app_state(content@, app_id@) == (
            r.app_found,
            match r.launch_options {
                Some(v) => Some(v@),
                None => None,
            },
        ),
{
    let s = chars_of(content);
    let id = chars_of(app_id);
    let (_, o, c) = match crate::vdf::find_block_by_key_in_range_ci(
        s.as_slice(),
        chars_of("apps").as_slice(),
        0,
        s.len(),
    ) {
        Some(b) => b,
        None => return AppState { app_found: false, launch_options: None },
    };
    let (_, ao, ac) = match crate::vdf::find_block_by_key_in_range(s.as_slice(), id.as_slice(), o + 1, c) {
        Some(b) => b,
        None => return AppState { app_found: false, launch_options: None },
    };
    let launch_options = match find_launch_options_line(s.as_slice(), ao + 1, ac) {
        Some(l) => match l.value {
            Some(v) => Some(string_of(v.as_slice())),
            None => None,
        },
        None => None,
    };
    AppState { app_found: true, launch_options }
}

/// A `LaunchOptions` value matches the choice: for the default GPU it carries
/// no marker; for GPU `i` it carries both markers and `DRI_PRIME=i`.
pub open spec fn expected_state(launch_options: Option<Seq<char>>, choice: GpuChoice) -> bool {
    match choice {
        GpuChoice::Default => match launch_options {
            None => true,
            Some(v) => !crate::text::contains(v, start_marker()) && !crate::text::contains(
                v,
                end_marker(),
            ),
        },
        GpuChoice::Gpu(i) => match launch_options {
            None => false,
            Some(v) => crate::text::contains(v, start_marker()) && crate::text::contains(
                v,
                end_marker(),
            ) && crate::text::contains(v, dri_prime_var(i as nat)),
        },
    }
}

/// Whether a re-read `LaunchOptions` value shows the desired state.
pub fn validate_expected_state(launch_options: Option<&str>, choice: GpuChoice) -> (r: bool)
    ensures
        r == expected_state(
            match launch_options {
                Some(v) => Some(v@),
                None => None,
            },
            choice,
        ),
{
    let v = match launch_options {
        Some(v) => chars_of(v),
        None => {
            return match choice {
                GpuChoice::Default => true,
                GpuChoice::Gpu(_) => false,
            };
        },
    };
    let has_start = crate::text::contains_str(v.as_slice(), MANAGED_START);
    let has_end = crate::text::contains_str(v.as_slice(), MANAGED_END);
    match choice {
        GpuChoice::Default => !has_start && !has_end,
        GpuChoice::Gpu(i) => {
            let mut dp = chars_of("DRI_PRIME=");
            extend(&mut dp, decimal_chars(i).as_slice());
            has_start && has_end && crate::text::contains_seq(v.as_slice(), dp.as_slice())
        },
    }
}

/// The report for one file, from its text before the write and as re-read
/// after it.
pub fn assess_localconfig(before: &str, after: &str, app_id: &str, choice: GpuChoice) -> (r: FileReport)
    ensures
        r.matched == (app_state(before@, app_id@).0 || app_state(after@, app_id@).0),
        r.validated == (app_state(after@, app_id@).0 && expected_state(
            app_state(after@, app_id@).1,
            choice,
        )),
{
    let b = app_state_in_localconfig(before, app_id);
    let a = app_state_in_localconfig(after, app_id);
    let validated = a.app_found && match &a.launch_options {
        Some(v) => validate_expected_state(Some(v.as_str()), choice),
        None => validate_expected_state(None, choice),
    };
    FileReport { matched: b.app_found || a.app_found, validated }
}


/// The managed region `<start> <vars> <end>` around joined variables `j`.
pub open spec fn region(j: Seq<char>) -> Seq<char> {
    start_marker() + seq![' '] + j + seq![' '] + end_marker()
}

proof fn lemma_marker_chars()
    ensures
        start_marker().len() == 19,
        end_marker().len() == 23,
        start_marker()[0] == 'K',
        end_marker()[0] == 'K',
        end_marker()[22] == '1',
        start_marker()[17] == '=',
        end_marker()[17] == '_',
        forall|k: int| 1 <= k < 19 ==> start_marker()[k] != 'K',
        forall|k: int| 0 <= k < 23 ==> end_marker()[k] != ' ',
{
    reveal_strlit("KAEDE_GPU_MANAGED=1");
    reveal_strlit("KAEDE_GPU_MANAGED_END=1");
}

/// The end marker does not occur in a region before the region's own end marker.
proof fn lemma_no_early_end(j: Seq<char>, t: Seq<char>, k: int)
    requires
        !contains(j, end_marker()),
        0 <= k < 21 + j.len(),
    ensures
        !occurs_at(region(j) + seq![' '] + t, end_marker(), k),
{
    lemma_marker_chars();
    let st = start_marker();
    let en = end_marker();
    let v = region(j) + seq![' '] + t;
    let jl = j.len() as int;
    if occurs_at(v, en, k) {
        assert(v.subrange(k, k + 23)[0] == v[k]);
        if k == 0 {
            assert(v.subrange(0, 23)[17] == v[17]);
            assert(v[17] == st[17]);
        } else if k < 19 {
            assert(v[k] == st[k]);
        } else if k == 19 {
            assert(v[19] == ' ');
        } else if k + 23 <= 20 + jl {
            assert(v =~= (st + seq![' ']) + j + (seq![' '] + en + seq![' '] + t));
            lemma_occurs_shift(st + seq![' '], j, seq![' '] + en + seq![' '] + t, en, k - 20);
        } else {
            let m = 20 + jl;
            assert(v[m] == ' ');
            assert(v.subrange(k, k + 23)[m - k] == v[m]);
        }
    }
}

/// The managed region as written, with or without the `env` word before it.
pub open spec fn written_region(j: Seq<char>, use_env_wrapper: bool) -> Seq<char> {
    (if use_env_wrapper {
        "env "@
    } else {
        Seq::empty()
    }) + region(j)
}

proof fn lemma_env_chars()
    ensures
        "env "@.len() == 4,
        "env "@[0] == 'e',
        "env "@[1] == 'n',
        "env "@[2] == 'v',
        "env "@[3] == ' ',
        "env"@.len() == 3,
        "env "@.subrange(0, 3) == "env"@,
{
    reveal_strlit("env ");
    reveal_strlit("env");
    assert("env "@.subrange(0, 3) =~= "env"@);
}

/// Before the end of its region, a written value holds no end marker.
proof fn lemma_no_early_end_written(j: Seq<char>, t: Seq<char>, w: bool, k: int)
    requires
        !contains(j, end_marker()),
        0 <= k < (if w { 4int } else { 0int }) + 21 + j.len(),
    ensures
        !occurs_at(written_region(j, w) + seq![' '] + t, end_marker(), k),
{
    lemma_marker_chars();
    lemma_env_chars();
    let v0 = region(j) + seq![' '] + t;
    if !w {
        assert(written_region(j, w) + seq![' '] + t =~= v0);
        lemma_no_early_end(j, t, k);
    } else {
        let v = written_region(j, w) + seq![' '] + t;
        assert(v =~= "env "@ + v0);
        if occurs_at(v, end_marker(), k) {
            assert(v.subrange(k, k + 23)[0] == v[k]);
            if k < 4 {
                assert(v[k] == "env "@[k]);
            } else {
                assert(v.subrange(k, k + 23) =~= v0.subrange(k - 4, k - 4 + 23));
                lemma_no_early_end(j, t, k - 4);
            }
        }
    }
}

proof fn lemma_drop_env_written(w: bool)
    ensures
        drop_env(if w { "env "@ } else { Seq::<char>::empty() }) == Seq::<char>::empty(),
{
    lemma_env_chars();
    if w {
        let pre = "env "@;
        assert(pre.drop_last() =~= "env"@);
        assert(trim_end("env"@) == "env"@);
        assert(trim_end(pre) == "env"@);
        assert("env"@.subrange(0, 3) =~= "env"@);
        assert(ends_with_env_word("env"@));
        assert(drop_env(pre) =~= Seq::<char>::empty());
    } else {
        assert(trim_end(Seq::<char>::empty()) == Seq::<char>::empty());
    }
}

proof fn lemma_written_trim(j: Seq<char>, t: Seq<char>, w: bool)
    requires
        t == trim(t),
        t.len() > 0,
    ensures
        trim(written_region(j, w)) == written_region(j, w),
        trim(written_region(j, w) + seq![' '] + t) == written_region(j, w) + seq![' '] + t,
{
    lemma_marker_chars();
    lemma_env_chars();
    let p = written_region(j, w);
    let v = p + seq![' '] + t;
    assert(p =~= (if w { "env "@ } else { Seq::empty() }) + start_marker() + seq![' '] + j
        + seq![' '] + end_marker());
    lemma_trimmed_ends(t);
    assert(p[0] == if w { 'e' } else { 'K' });
    assert(p.last() == end_marker()[22]);
    lemma_trim_noop(p);
    assert(v[0] == p[0]);
    assert(v.last() == t.last());
    lemma_trim_noop(v);
}

proof fn lemma_start_in_region(j: Seq<char>, t: Seq<char>)
    ensures
        find_from(region(j) + seq![' '] + t, start_marker(), 0, (region(j) + seq![' '] + t).len() as int)
            == Some(0int),
{
    let v0 = region(j) + seq![' '] + t;
    assert(v0.subrange(0, start_marker().len() as int) =~= start_marker());
    lemma_find_from_at(v0, start_marker(), 0, v0.len() as int, 0);
}

#[verifier::rlimit(100)]
proof fn lemma_start_found(j: Seq<char>, t: Seq<char>, w: bool)
    ensures
        find_from(written_region(j, w) + seq![' '] + t, start_marker(), 0, (written_region(j, w) + seq![' '] + t).len() as int)
            == Some(if w { 4int } else { 0int }),
{
    let v0 = region(j) + seq![' '] + t;
    let v = written_region(j, w) + seq![' '] + t;
    if w {
        lemma_env_chars();
        lemma_marker_chars();
        let st = start_marker();
        assert(v =~= "env "@ + v0);
        assert(v.subrange(4, 23) =~= st);
        assert forall|k: int| 0 <= k < 4 implies !occurs_at(v, st, k) by {
            if occurs_at(v, st, k) {
                assert(v.subrange(k, k + 19)[0] == v[k]);
                assert(v[k] == "env "@[k]);
            }
        }
        lemma_find_from_at(v, st, 0, v.len() as int, 4);
    } else {
        assert(v =~= v0);
        lemma_start_in_region(j, t);
    }
}

proof fn lemma_end_found(j: Seq<char>, t: Seq<char>, w: bool)
    requires
        !contains(j, end_marker()),
    ensures
        find_from(
            written_region(j, w) + seq![' '] + t,
            end_marker(),
            if w { 4int } else { 0int },
            (written_region(j, w) + seq![' '] + t).len() as int,
        ) == Some((if w { 4int } else { 0int }) + 21 + j.len()),
{
    lemma_marker_chars();
    lemma_env_chars();
    let en = end_marker();
    let v0 = region(j) + seq![' '] + t;
    let v = written_region(j, w) + seq![' '] + t;
    let o: int = if w { 4 } else { 0 };
    let e0: int = 21 + j.len() as int;
    assert(v0.subrange(e0, e0 + 23) =~= en);
    if w {
        assert(v =~= "env "@ + v0);
        assert(v.subrange(4 + e0, 4 + e0 + 23) =~= v0.subrange(e0, e0 + 23));
    } else {
        assert(v =~= v0);
    }
    assert forall|k: int| o <= k < o + e0 implies !occurs_at(v, en, k) by {
        lemma_no_early_end_written(j, t, w, k);
    }
    lemma_find_from_at(v, en, o, v.len() as int, o + e0);
}

/// A written managed region followed by a trimmed tail strips back to the tail.
proof fn lemma_strip_region(j: Seq<char>, t: Seq<char>, w: bool)
    requires
        !contains(j, end_marker()),
        t == trim(t),
        t.len() > 0,
    ensures
        trim(written_region(j, w)) == written_region(j, w),
        trim(written_region(j, w) + seq![' '] + t) == written_region(j, w) + seq![' '] + t,
        strip_managed(written_region(j, w) + seq![' '] + t) == t,
{
    lemma_marker_chars();
    lemma_env_chars();
    let v = written_region(j, w) + seq![' '] + t;
    let o: int = if w { 4 } else { 0 };
    lemma_written_trim(j, t, w);
    lemma_start_found(j, t, w);
    lemma_end_found(j, t, w);
    assert(v =~= (if w { "env "@ } else { Seq::empty() }) + start_marker() + seq![' '] + j
        + seq![' '] + end_marker() + seq![' '] + t);
    let e0: int = o + 21 + j.len();
    assert(v.subrange(0, o) =~= if w { "env "@ } else { Seq::<char>::empty() });
    lemma_drop_env_written(w);
    let right = v.subrange(e0 + 23, v.len() as int);
    assert(right =~= seq![' '] + t);
    assert((seq![' '] + t).drop_first() =~= t);
    lemma_trimmed_ends(t);
    lemma_trim_noop(t);
    assert(trim_start(right) == t);
    assert(trim_end(Seq::<char>::empty()) == Seq::<char>::empty());
    assert(Seq::<char>::empty() + t =~= t);
}

/// The tail kept after a managed region: the user's own, or `%command%`.
pub open spec fn kept_tail(existing: Option<Seq<char>>) -> Seq<char> {
    if user_tail(existing).len() == 0 {
        COMMAND_PLACEHOLDER@
    } else {
        user_tail(existing)
    }
}

proof fn lemma_value_shape(existing: Option<Seq<char>>, j: Seq<char>, w: bool)
    requires
        !contains(j, end_marker()),
    ensures
        kept_tail(existing) == trim(kept_tail(existing)),
        kept_tail(existing).len() > 0,
        apply_prefix(existing, Some(written_region(j, w))) == written_region(j, w) + seq![' ']
            + kept_tail(existing),
        user_tail(Some(written_region(j, w) + seq![' '] + kept_tail(existing))) == kept_tail(
            existing,
        ),
{
    reveal_strlit("%command%");
    let e = match existing {
        Some(v) => trim(v),
        None => Seq::empty(),
    };
    lemma_trim_idempotent(strip_managed(e));
    let t = kept_tail(existing);
    if user_tail(existing).len() == 0 {
        assert(t[0] == '%');
        assert(t.last() == '%');
        lemma_trim_noop(t);
    }
    lemma_strip_region(j, t, w);
    let v = written_region(j, w) + seq![' '] + t;
    assert(trim(v) == v);
    assert(trim(strip_managed(v)) == trim(t));
}

proof fn lemma_prefix_is_written(choice: GpuChoice, env: Seq<Seq<char>>, w: bool)
    requires
        choice is Gpu,
    ensures
        managed_prefix(choice, env, w) == Some(
            written_region(join(managed_vars(choice->0 as nat, env), seq![' ']), w),
        ),
{
    let j = join(managed_vars(choice->0 as nat, env), seq![' ']);
    assert((if w { "env "@ } else { Seq::empty() }) + start_marker() + seq![' '] + j + seq![' ']
        + end_marker() =~= written_region(j, w));
}

/// Setting the launch options of an app for the same GPU twice gives the
/// value that setting them once gave: the managed region (with its `env`
/// word, when written) is replaced, not stacked, and the user's tail is
/// kept. Holds when the variables do not spell the end marker.
pub proof fn lemma_launch_value_idempotent(
    existing: Option<Seq<char>>,
    choice: GpuChoice,
    env: Seq<Seq<char>>,
    use_env_wrapper: bool,
)
    requires
        choice is Gpu,
        !contains(join(managed_vars(choice->0 as nat, env), seq![' ']), end_marker()),
    ensures
        apply_prefix(
            Some(apply_prefix(existing, managed_prefix(choice, env, use_env_wrapper))),
            managed_prefix(choice, env, use_env_wrapper),
        ) == apply_prefix(existing, managed_prefix(choice, env, use_env_wrapper)),
{
    let j = join(managed_vars(choice->0 as nat, env), seq![' ']);
    lemma_prefix_is_written(choice, env, use_env_wrapper);
    lemma_value_shape(existing, j, use_env_wrapper);
    lemma_value_shape(
        Some(written_region(j, use_env_wrapper) + seq![' '] + kept_tail(existing)),
        j,
        use_env_wrapper,
    );
}

/// Setting a GPU and then the default GPU leaves the user's own launch
/// options (`%command%` when there were none): the managed region, with
/// its `env` word, is gone.
pub proof fn lemma_launch_value_round_trip(
    existing: Option<Seq<char>>,
    choice: GpuChoice,
    env: Seq<Seq<char>>,
    use_env_wrapper: bool,
)
    requires
        choice is Gpu,
        !contains(join(managed_vars(choice->0 as nat, env), seq![' ']), end_marker()),
    ensures
        apply_prefix(Some(apply_prefix(existing, managed_prefix(choice, env, use_env_wrapper))), None)
            == kept_tail(existing),
        !contains(user_tail(existing), start_marker()) ==> !contains(
            apply_prefix(
                Some(apply_prefix(existing, managed_prefix(choice, env, use_env_wrapper))),
                None,
            ),
            start_marker(),
        ),
{
    let j = join(managed_vars(choice->0 as nat, env), seq![' ']);
    lemma_prefix_is_written(choice, env, use_env_wrapper);
    lemma_value_shape(existing, j, use_env_wrapper);
    reveal_strlit("%command%");
    reveal_strlit("KAEDE_GPU_MANAGED=1");
    if user_tail(existing).len() == 0 {
        let c = COMMAND_PLACEHOLDER@;
        assert forall|k: int| !occurs_at(c, start_marker(), k) by {
            if occurs_at(c, start_marker(), k) {
                assert(c.len() < start_marker().len());
            }
        }
    }
}

} // verus!
