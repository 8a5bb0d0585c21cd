//! Release comparison for the update check.
use vstd::prelude::*;
use core::cmp::Ordering;
use crate::desktop::split_from;
use crate::gpu::{parse_bounded, parse_bounded_exec};
use crate::text::{chars_of, slice_of, vviews};

verus! {

/// The numeric parts of a dotted version among `pieces[..n]`; parts that are
/// not numbers are skipped.
pub open spec fn numeric_parts(pieces: Seq<Seq<char>>, n: int) -> Seq<nat>
    decreases n,
{
    if n <= 0 || n > pieces.len() {
        Seq::empty()
    } else {
        match parse_bounded(pieces[n - 1], u32::MAX as nat) {
            Some(v) => numeric_parts(pieces, n - 1).push(v),
            None => numeric_parts(pieces, n - 1),
        }
    }
}

/// The numeric parts of a dotted version string.
pub open spec fn version_parts(s: Seq<char>) -> Seq<nat> {
    numeric_parts(split_from(s, '.', 0), split_from(s, '.', 0).len() as int)
}

/// Lexicographic comparison from index `i` on; when one list is a prefix of
/// the other, the longer one is greater.
pub open spec fn compare_parts(a: Seq<nat>, b: Seq<nat>, i: int) -> Ordering
    decreases a.len() - i,
{
    if i < 0 || i >= a.len() || i >= b.len() {
        if a.len() > b.len() {
            Ordering::Greater
        } else if a.len() < b.len() {
            Ordering::Less
        } else {
            Ordering::Equal
        }
    } else if a[i] > b[i] {
        Ordering::Greater
    } else if a[i] < b[i] {
        Ordering::Less
    } else {
        compare_parts(a, b, i + 1)
    }
}

fn parts_of(s: &str) -> (r: Vec<usize>)
    ensures
        r@.len() == version_parts(s@).len(),
        forall|i: int| 0 <= i < r@.len() ==> r@[i] as nat == version_parts(s@)[i],
{
    let c = chars_of(s);
    let pieces = crate::desktop::split_pieces_pub(c.as_slice(), '.');
    let mut out: Vec<usize> = Vec::new();
    let mut n: usize = 0;
    while n < pieces.len()
        invariant
            n <= pieces@.len(),
            vviews(pieces@) == split_from(s@, '.', 0),
            out@.len() == numeric_parts(vviews(pieces@), n as int).len(),
            forall|i: int|
                0 <= i < out@.len() ==> out@[i] as nat == numeric_parts(vviews(pieces@), n as int)[i],
        decreases pieces@.len() - n,
    {
        assert(vviews(pieces@)[n as int] == pieces@[n as int]@);
        match parse_bounded_exec(pieces[n].as_slice(), 4294967295) {
            Some(v) => out.push(v),
            None => {},
        }
        n += 1;
    }
    out
}

/// Compares two dotted versions by their numeric parts.
pub fn compare_versions(latest: &str, current: &str) -> (r: Ordering)
    ensures
        r == compare_parts(version_parts(latest@), version_parts(current@), 0),
{
    let a = parts_of(latest);
    let b = parts_of(current);
    let ghost sa = version_parts(latest@);
    let ghost sb = version_parts(current@);
    let mut i: usize = 0;
    while i < a.len() && i < b.len()
        invariant
            sa == version_parts(latest@),
            sb == version_parts(current@),
            a@.len() == sa.len(),
            b@.len() == sb.len(),
            forall|k: int| 0 <= k < a@.len() ==> a@[k] as nat == sa[k],
            forall|k: int| 0 <= k < b@.len() ==> b@[k] as nat == sb[k],
            i <= a@.len(),
            compare_parts(sa, sb, 0) == compare_parts(sa, sb, i as int),
        decreases a@.len() - i,
    {
        if a[i] > b[i] {
            return Ordering::Greater;
        }
        if a[i] < b[i] {
            return Ordering::Less;
        }
        i += 1;
    }
    if a.len() > b.len() {
        Ordering::Greater
    } else if a.len() < b.len() {
        Ordering::Less
    } else {
        Ordering::Equal
    }
}

/// What the latest published release means for the running version.
pub enum UpdateResult {
    /// A newer release exists; its version, without a leading `v`.
    NewRelease(String),
    UpToDate,
    /// The running version is newer than the latest release.
    Beta,
}

/// `s` without its leading `v` characters.
pub open spec fn strip_v(s: Seq<char>) -> Seq<char>
    decreases s.len(),
{
    if s.len() > 0 && s[0] == 'v' {
        strip_v(s.drop_first())
    } else {
        s
    }
}

/// Classifies the latest release tag against the running version.
pub fn update_result(latest_tag: &str, current: &str) -> (r: UpdateResult)
    ensures
        ({
            let latest = strip_v(latest_tag@);
            match compare_parts(version_parts(latest), version_parts(current@), 0) {
                Ordering::Greater => r matches UpdateResult::NewRelease(v) && v@ == latest,
                Ordering::Less => r is Beta,
                Ordering::Equal => r is UpToDate,
            }
        }),
{
    let t = chars_of(latest_tag);
    let mut a: usize = 0;
    assert(t@.subrange(0, t@.len() as int) == t@);
    while a < t.len() && t[a] == 'v'
        invariant
            a <= t@.len(),
            strip_v(t@) == strip_v(t@.subrange(a as int, t@.len() as int)),
        decreases t@.len() - a,
    {
        assert(t@.subrange(a as int, t@.len() as int).drop_first() =~= t@.subrange(
            a + 1,
            t@.len() as int,
        ));
        a += 1;
    }
    let latest = crate::text::string_of(slice_of(t.as_slice(), a, t.len()).as_slice());
    match compare_versions(latest.as_str(), current) {
        Ordering::Greater => UpdateResult::NewRelease(latest),
        Ordering::Less => UpdateResult::Beta,
        Ordering::Equal => UpdateResult::UpToDate,
    }
}

} // verus!
