//! GPU enumeration: ordering and indexing of discovered devices, and the
//! parsing of what the host's tools report about them.
use vstd::prelude::*;
use vstd::multiset::Multiset;
use crate::models::GpuInfo;
use crate::text::{
    chars_of, contains, contains_str, find_from, find_in, lines, matches_at, opt_view, slice_of,
    split_lines, starts_with, string_of, trim, trim_all, trim_range, vviews,
};
use crate::desktop::{all_digits, is_digit};

verus! {

broadcast use vstd::seq_lib::group_to_multiset_ensures;

/// `s` with every leading repetition of `card` removed.
pub open spec fn strip_card(s: Seq<char>) -> Seq<char>
    decreases s.len(),
{
    if s.len() >= 4 && starts_with(s, "card"@) {
        strip_card(s.subrange(4, s.len() as int))
    } else {
        s
    }
}

/// The value of a digit character.
pub open spec fn digit_value(c: char) -> nat {
    (c as u32 - '0' as u32) as nat
}

/// The value of a sequence of decimal digits.
pub open spec fn digits_value(s: Seq<char>) -> nat
    decreases s.len(),
{
    if s.len() == 0 {
        0
    } else {
        digits_value(s.drop_last()) * 10 + digit_value(s.last())
    }
}

/// An unsigned integer as std's `from_str` reads it for a type whose largest
/// value is `max`: an optional `+`, then one or more decimal digits, with a
/// value of at most `max`.
pub open spec fn parse_bounded(s: Seq<char>, max: nat) -> Option<nat> {
    let d = if s.len() > 0 && s[0] == '+' {
        s.drop_first()
    } else {
        s
    };
    if d.len() > 0 && all_digits(d) && digits_value(d) <= max {
        Some(digits_value(d))
    } else {
        None
    }
}

/// An unsigned integer as `usize::from_str` reads it.
pub open spec fn parse_usize(s: Seq<char>) -> Option<nat> {
    parse_bounded(s, usize::MAX as nat)
}

/// The numeric suffix of a device name such as `card1`; names without one
/// sort last.
pub open spec fn card_key(card: Seq<char>) -> nat {
    match parse_usize(strip_card(card)) {
        Some(n) => n,
        None => usize::MAX as nat,
    }
}

proof fn lemma_digits_value_grows(s: Seq<char>, j: int)
    requires
        0 <= j <= s.len(),
        all_digits(s),
    ensures
        digits_value(s.subrange(0, j)) <= digits_value(s),
    decreases s.len() - j,
{
    if j < s.len() {
        lemma_digits_value_grows(s, j + 1);
        assert(s.subrange(0, j + 1).drop_last() =~= s.subrange(0, j));
        assert(digits_value(s.subrange(0, j + 1)) == digits_value(s.subrange(0, j)) * 10
            + digit_value(s[j]));
    } else {
        assert(s.subrange(0, j) =~= s);
    }
}

/// Reads an unsigned decimal integer (see `parse_usize`).
pub fn parse_usize_exec(s: &[char]) -> (r: Option<usize>)
    ensures
        match r {
            Some(n) => parse_usize(s@) == Some(n as nat),
            None => parse_usize(s@) is None,
        },
{
    parse_bounded_exec(s, usize::MAX)
}

/// Reads an unsigned decimal integer of at most `max` (see `parse_bounded`).
pub fn parse_bounded_exec(s: &[char], max: usize) -> (r: Option<usize>)
    ensures
        match r {
            Some(n) => parse_bounded(s@, max as nat) == Some(n as nat),
            None => parse_bounded(s@, max as nat) is None,
        },
{
    let start: usize = if s.len() > 0 && s[0] == '+' {
        1
    } else {
        0
    };
    let ghost d = if s@.len() > 0 && s@[0] == '+' {
        s@.drop_first()
    } else {
        s@
    };
    assert(d =~= s@.subrange(start as int, s@.len() as int));
    if start >= s.len() {
        return None;
    }
    let mut v: usize = 0;
    let mut i: usize = start;
    while i < s.len()
        invariant
            start <= i <= s@.len(),
            d == s@.subrange(start as int, s@.len() as int),
            d == (if s@.len() > 0 && s@[0] == '+' {
                s@.drop_first()
            } else {
                s@
            }),
            all_digits(s@.subrange(start as int, i as int)),
            v <= max,
            v as nat == digits_value(s@.subrange(start as int, i as int)),
        decreases s@.len() - i,
    {
        let c = s[i];
        if !('0' <= c && c <= '9') {
            assert(!is_digit(d[i - start]));
            assert(!all_digits(d));
            return None;
        }
        let dv = (c as u32 - '0' as u32) as usize;
        assert(s@.subrange(start as int, i + 1).drop_last() =~= s@.subrange(start as int, i as int));
        assert(all_digits(s@.subrange(start as int, i + 1)));
        if dv > max || v > (max - dv) / 10 {
            proof {
                assert(v * 10 + dv > max) by (nonlinear_arith)
                    requires
                        dv > max || v > (max - dv) / 10,
                        dv <= 9,
                ;
                let pre = d.subrange(0, i + 1 - start);
                assert(pre =~= s@.subrange(start as int, i + 1));
                assert(pre.drop_last() =~= s@.subrange(start as int, i as int));
                assert(digits_value(pre) == v * 10 + dv);
                if all_digits(d) {
                    lemma_digits_value_grows(d, i + 1 - start);
                }
            }
            return None;
        }
        proof {
            assert(v * 10 + dv <= max) by (nonlinear_arith)
                requires
                    dv <= max,
                    v <= (max - dv) / 10,
                    dv <= 9,
            ;
        }
        v = v * 10 + dv;
        i += 1;
    }
    assert(s@.subrange(start as int, s@.len() as int) == d);
    Some(v)
}

/// The numeric suffix of a device name (see `card_key`).
pub fn card_number(card: &str) -> (r: usize)
    ensures
        r as nat == card_key(card@),
{
    let c = chars_of(card);
    let prefix = chars_of("card");
    proof {
        reveal_strlit("card");
    }
    let mut i: usize = 0;
    assert(c@.subrange(0, c@.len() as int) == c@);
    while c.len() - i >= 4 && matches_at(c.as_slice(), prefix.as_slice(), i)
        invariant
            i <= c@.len(),
            prefix@ == "card"@,
            "card"@.len() == 4,
            strip_card(c@) == strip_card(c@.subrange(i as int, c@.len() as int)),
        decreases c@.len() - i,
    {
        assert(c@.subrange(i as int, c@.len() as int).subrange(0, 4) =~= c@.subrange(
            i as int,
            i + 4,
        ));
        assert(c@.subrange(i as int, c@.len() as int).subrange(4, c@.len() - i) =~= c@.subrange(
            i + 4,
            c@.len() as int,
        ));
        i += 4;
    }
    proof {
        let t = c@.subrange(i as int, c@.len() as int);
        if t.len() >= 4 {
            assert(t.subrange(0, 4) =~= c@.subrange(i as int, i + 4));
        }
    }
    match parse_usize_exec(slice_of(c.as_slice(), i, c.len()).as_slice()) {
        Some(n) => n,
        None => usize::MAX,
    }
}

/// The ordering key of a GPU: the numeric suffix of its device name.
pub open spec fn gpu_key(g: GpuInfo) -> nat {
    card_key(g.card@)
}

/// The GPUs are in ascending key order.
pub open spec fn sorted_by_card(v: Seq<GpuInfo>) -> bool {
    forall|i: int, j: int| 0 <= i < j < v.len() ==> gpu_key(#[trigger] v[i]) <= gpu_key(#[trigger] v[j])
}

/// Sorts GPUs by the numeric suffix of their device names, keeping the
/// discovery order of equal keys.
pub fn sort_gpus_by_card(cards: Vec<GpuInfo>) -> (r: Vec<GpuInfo>)
    ensures
        r@.to_multiset() == cards@.to_multiset(),
        r@.len() == cards@.len(),
        sorted_by_card(r@),
{
    let mut rest = cards;
    let mut out: Vec<GpuInfo> = Vec::new();
    while rest.len() > 0
        invariant
            out@.to_multiset().add(rest@.to_multiset()) == cards@.to_multiset(),
            out@.len() + rest@.len() == cards@.len(),
            sorted_by_card(out@),
        decreases rest@.len(),
    {
        let ghost r0 = rest@;
        let g = rest.remove(0);
        proof {
            vstd::seq_lib::to_multiset_remove(r0, 0);
        }
        let k = card_number(g.card.as_str());
        let mut p: usize = 0;
        while p < out.len() && card_number(out[p].card.as_str()) <= k
            invariant
                p <= out@.len(),
                forall|j: int| 0 <= j < p ==> gpu_key(#[trigger] out@[j]) <= k,
            decreases out@.len() - p,
        {
            p += 1;
        }
        let ghost o0 = out@;
        assert(forall|j: int| p <= j < o0.len() ==> gpu_key(#[trigger] o0[j]) > k) by {
            assert forall|j: int| p <= j < o0.len() implies gpu_key(#[trigger] o0[j]) > k by {
                if p < o0.len() {
                    assert(gpu_key(o0[p as int]) > k);
                    assert(gpu_key(o0[p as int]) <= gpu_key(o0[j]));
                }
            }
        }
        out.insert(p, g);
        proof {
            vstd::seq_lib::to_multiset_insert(o0, p as int, g);
            assert(out@.to_multiset().add(rest@.to_multiset()) =~= cards@.to_multiset());
            assert forall|i: int, j: int| 0 <= i < j < out@.len() implies gpu_key(
                #[trigger] out@[i],
            ) <= gpu_key(#[trigger] out@[j]) by {
                if i < p && j == p {
                } else if i < p && j > p {
                    assert(out@[j] == o0[j - 1]);
                } else if i == p {
                    assert(out@[j] == o0[j - 1]);
                } else if i > p {
                    assert(out@[i] == o0[i - 1]);
                    assert(out@[j] == o0[j - 1]);
                } else {
                    assert(out@[i] == o0[i]);
                    assert(out@[j] == o0[j]);
                }
            }
        }
    }
    proof {
        assert(rest@.to_multiset() =~= Multiset::empty());
        assert(out@.to_multiset().add(Multiset::empty()) =~= out@.to_multiset());
    }
    out
}

/// `a` is device `b` with only its render node and index filled in.
pub open spec fn same_device(a: GpuInfo, b: GpuInfo) -> bool {
    a.card == b.card && a.name == b.name && a.driver == b.driver && a.pci_slot == b.pci_slot
        && a.renderer == b.renderer
}

/// The render node of the GPU at position `i`: its own, else the `i`-th node
/// of the host's sorted list.
pub open spec fn node_at(g: GpuInfo, i: int, fallback: Seq<String>) -> Option<String> {
    match g.render_node {
        Some(n) => Some(n),
        None => if 0 <= i < fallback.len() {
            Some(fallback[i])
        } else {
            None
        },
    }
}

/// `r` is `s` with each render node filled in from `fallback`.
pub open spec fn indexed_from(r: Seq<GpuInfo>, s: Seq<GpuInfo>, fallback: Seq<String>) -> bool {
    s.len() == r.len() && forall|i: int|
        0 <= i < s.len() ==> same_device(#[trigger] r[i], s[i]) && opt_view(r[i].render_node)
            == opt_view(node_at(s[i], i, fallback))
}

fn copy_string(s: &String) -> (r: String)
    ensures
        r@ == s@,
{
    String::from_str(s.as_str())
}

/// Orders the discovered GPUs by device number and gives each its index:
/// GPU `i` of the result has index `i`, the devices are those given, and
/// each lacking a render node takes the `i`-th of `fallback_nodes`.
pub fn index_gpus(cards: Vec<GpuInfo>, fallback_nodes: &[String]) -> (r: Vec<GpuInfo>)
    ensures
        r@.len() == cards@.len(),
        forall|i: int| 0 <= i < r@.len() ==> (#[trigger] r@[i]).dri_prime_index == Some(i as usize),
        sorted_by_card(r@),
        exists|s: Seq<GpuInfo>|
            #[trigger] indexed_from(r@, s, fallback_nodes@) && s.to_multiset()
                == cards@.to_multiset(),
{
    let sorted = sort_gpus_by_card(cards);
    let ghost s = sorted@;
    let total = sorted.len();
    let mut src = sorted;
    let mut out: Vec<GpuInfo> = Vec::new();
    let mut idx: usize = 0;
    while src.len() > 0
        invariant
            idx == out@.len(),
            idx + src@.len() == s.len(),
            s.len() == total,
            src@ == s.subrange(idx as int, s.len() as int),
            sorted_by_card(s),
            forall|i: int| 0 <= i < out@.len() ==> (#[trigger] out@[i]).dri_prime_index == Some(
                i as usize,
            ),
            forall|i: int|
                0 <= i < out@.len() ==> same_device(#[trigger] out@[i], s[i]) && opt_view(
                    out@[i].render_node,
                ) == opt_view(node_at(s[i], i, fallback_nodes@)),
        decreases src@.len(),
    {
        let g = src.remove(0);
        assert(g == s[idx as int]);
        let node = match g.render_node {
            Some(n) => Some(n),
            None => if idx < fallback_nodes.len() {
                Some(copy_string(&fallback_nodes[idx]))
            } else {
                None
            },
        };
        out.push(
            GpuInfo {
                card: g.card,
                name: g.name,
                driver: g.driver,
                pci_slot: g.pci_slot,
                render_node: node,
                dri_prime_index: Some(idx),
                renderer: g.renderer,
            },
        );
        assert(src@ =~= s.subrange(idx + 1, s.len() as int));
        idx += 1;
    }
    assert forall|i: int, j: int| 0 <= i < j < out@.len() implies gpu_key(#[trigger] out@[i])
        <= gpu_key(#[trigger] out@[j]) by {
        assert(same_device(out@[i], s[i]));
        assert(same_device(out@[j], s[j]));
        assert(gpu_key(s[i]) <= gpu_key(s[j]));
    }
    assert(indexed_from(out@, s, fallback_nodes@));
    out
}

/// A primary DRM device name: `card<N>`, not a connector such as `card0-DP-1`.
pub open spec fn is_primary_card_spec(name: Seq<char>) -> bool {
    starts_with(name, "card"@) && !contains(name, "-"@)
}

/// Whether a DRM device name is a primary card.
pub fn is_primary_card(name: &str) -> (r: bool)
    ensures
        r == is_primary_card_spec(name@),
{
    let n = chars_of(name);
    let card = chars_of("card");
    matches_at(n.as_slice(), card.as_slice(), 0) && !contains_str(n.as_slice(), "-")
}

/// Whether a device-node name is a render node.
pub fn is_render_node(name: &str) -> (r: bool)
    ensures
        r == starts_with(name@, "renderD"@),
{
    let n = chars_of(name);
    let p = chars_of("renderD");
    matches_at(n.as_slice(), p.as_slice(), 0)
}

/// An `lspci` line describes a display device.
pub open spec fn is_gpu_line(line: Seq<char>) -> bool {
    contains(line, "VGA compatible controller"@) || contains(line, "3D controller"@) || contains(
        line,
        "Display controller"@,
    )
}

/// The bus address and description of a display device in an `lspci` line:
/// the text before the first space, and the rest (the whole line when it
/// has no space).
pub open spec fn lspci_entry(line: Seq<char>) -> Option<(Seq<char>, Seq<char>)> {
    if !is_gpu_line(line) {
        None
    } else {
        let (slot, name) = match find_from(line, seq![' '], 0, line.len() as int) {
            Some(k) => (line.subrange(0, k), line.subrange(k + 1, line.len() as int)),
            None => (line, line),
        };
        if slot.len() > 0 {
            Some((slot, name))
        } else {
            None
        }
    }
}

/// Reads one `lspci -nn` line (see `lspci_entry`).
pub fn parse_lspci_gpu_line(line: &str) -> (r: Option<(String, String)>)
    ensures
        match r {
            Some((a, b)) => lspci_entry(line@) == Some((a@, b@)),
            None => lspci_entry(line@) is None,
        },
{
    let l = chars_of(line);
    let ls = l.as_slice();
    if !(contains_str(ls, "VGA compatible controller") || contains_str(ls, "3D controller")
        || contains_str(ls, "Display controller")) {
        return None;
    }
    let sp: Vec<char> = vec![' '];
    assert(sp@ == seq![' ']);
    let (slot, name) = match find_in(ls, sp.as_slice(), 0, l.len()) {
        Some(k) => (slice_of(ls, 0, k), slice_of(ls, k + 1, l.len())),
        None => {
            assert(l@.subrange(0, l@.len() as int) == l@);
            (slice_of(ls, 0, l.len()), slice_of(ls, 0, l.len()))
        },
    };
    if slot.len() > 0 {
        Some((string_of(slot.as_slice()), string_of(name.as_slice())))
    } else {
        None
    }
}

/// The rest of the first line of `ls[i..]` that starts with `prefix`.
pub open spec fn first_with_prefix(ls: Seq<Seq<char>>, prefix: Seq<char>, i: int) -> Option<
    Seq<char>,
>
    decreases ls.len() - i,
{
    if i < 0 || i >= ls.len() {
        None
    } else if starts_with(ls[i], prefix) {
        Some(ls[i].subrange(prefix.len() as int, ls[i].len() as int))
    } else {
        first_with_prefix(ls, prefix, i + 1)
    }
}

fn first_with_prefix_exec(ls: &[Vec<char>], prefix: &[char]) -> (r: Option<Vec<char>>)
    ensures
        match r {
            Some(v) => first_with_prefix(vviews(ls@), prefix@, 0) == Some(v@),
            None => first_with_prefix(vviews(ls@), prefix@, 0) is None,
        },
{
    let mut i: usize = 0;
    while i < ls.len()
        invariant
            i <= ls@.len(),
            first_with_prefix(vviews(ls@), prefix@, 0) == first_with_prefix(
                vviews(ls@),
                prefix@,
                i as int,
            ),
        decreases ls@.len() - i,
    {
        let l = ls[i].as_slice();
        assert(vviews(ls@)[i as int] == l@);
        if matches_at(l, prefix, 0) {
            return Some(slice_of(l, prefix.len(), l.len()));
        }
        i += 1;
    }
    None
}

/// The PCI bus address in a device's `uevent` text.
pub open spec fn uevent_slot(content: Seq<char>) -> Option<Seq<char>> {
    first_with_prefix(lines(trim(content)), "PCI_SLOT_NAME="@, 0)
}

/// Reads the `PCI_SLOT_NAME=` entry of a device's `uevent` text.
pub fn pci_slot_from_uevent(content: &str) -> (r: Option<String>)
    ensures
        opt_view(r) == uevent_slot(content@),
{
    let t = trim_all(chars_of(content).as_slice());
    let ls = split_lines(t.as_slice());
    match first_with_prefix_exec(ls.as_slice(), chars_of("PCI_SLOT_NAME=").as_slice()) {
        Some(v) => Some(string_of(v.as_slice())),
        None => None,
    }
}

/// The renderer named in `glxinfo -B` output.
pub open spec fn glx_renderer(out: Seq<char>) -> Option<Seq<char>> {
    match first_with_prefix(lines(out), "OpenGL renderer string:"@, 0) {
        Some(v) => Some(trim(v)),
        None => None,
    }
}

/// Reads the renderer from `glxinfo -B` output.
pub fn renderer_from_glxinfo(output: &str) -> (r: Option<String>)
    ensures
        opt_view(r) == glx_renderer(output@),
{
    let ls = split_lines(chars_of(output).as_slice());
    match first_with_prefix_exec(ls.as_slice(), chars_of("OpenGL renderer string:").as_slice()) {
        Some(v) => Some(string_of(trim_all(v.as_slice()).as_slice())),
        None => None,
    }
}

/// The first trimmed line of `ls[i..]` that starts with `GPU` and holds a `:`.
pub open spec fn first_gpu_line(ls: Seq<Seq<char>>, i: int) -> Option<Seq<char>>
    decreases ls.len() - i,
{
    if i < 0 || i >= ls.len() {
        None
    } else if starts_with(trim(ls[i]), "GPU"@) && contains(trim(ls[i]), ":"@) {
        Some(trim(ls[i]))
    } else {
        first_gpu_line(ls, i + 1)
    }
}

/// Reads the device line from `vulkaninfo --summary` output.
pub fn renderer_from_vulkaninfo(output: &str) -> (r: Option<String>)
    ensures
        opt_view(r) == first_gpu_line(lines(output@), 0),
{
    let ls = split_lines(chars_of(output).as_slice());
    let gpu = chars_of("GPU");
    let mut i: usize = 0;
    while i < ls.len()
        invariant
            i <= ls@.len(),
            gpu@ == "GPU"@,
            vviews(ls@) == lines(output@),
            first_gpu_line(lines(output@), 0) == first_gpu_line(vviews(ls@), i as int),
        decreases ls@.len() - i,
    {
        assert(vviews(ls@)[i as int] == ls@[i as int]@);
        let t = trim_all(ls[i].as_slice());
        if matches_at(t.as_slice(), gpu.as_slice(), 0) && contains_str(t.as_slice(), ":") {
            return Some(string_of(t.as_slice()));
        }
        i += 1;
    }
    None
}

/// The primary cards among the first `n` devices, in order.
pub open spec fn primary_only(s: Seq<GpuInfo>, n: int) -> Seq<GpuInfo>
    decreases n,
{
    if n <= 0 || n > s.len() {
        Seq::empty()
    } else if is_primary_card_spec(s[n - 1].card@) {
        primary_only(s, n - 1).push(s[n - 1])
    } else {
        primary_only(s, n - 1)
    }
}

proof fn lemma_primary_only(s: Seq<GpuInfo>, n: int)
    ensures
        forall|i: int|
            0 <= i < primary_only(s, n).len() ==> is_primary_card_spec((#[trigger] primary_only(s, n)[i]).card@),
    decreases n,
{
    if 0 < n <= s.len() {
        lemma_primary_only(s, n - 1);
    }
}

/// Keeps the primary cards (`card<N>`, not connectors such as `card0-DP-1`).
pub fn primary_cards(devices: Vec<GpuInfo>) -> (r: Vec<GpuInfo>)
    ensures
        r@ == primary_only(devices@, devices@.len() as int),
{
    let ghost s = devices@;
    let total = devices.len();
    let mut rest = devices;
    let mut out: Vec<GpuInfo> = Vec::new();
    let mut n: usize = 0;
    while rest.len() > 0
        invariant
            n + rest@.len() == s.len(),
            s.len() == total,
            rest@ == s.subrange(n as int, s.len() as int),
            out@ == primary_only(s, n as int),
        decreases rest@.len(),
    {
        let g = rest.remove(0);
        assert(g == s[n as int]);
        if is_primary_card(g.card.as_str()) {
            out.push(g);
        }
        n += 1;
        assert(rest@ =~= s.subrange(n as int, s.len() as int));
    }
    out
}

/// Enumeration of the host's DRM devices: the primary cards, ordered by
/// device number, GPU `i` with index `i` (dense, zero-based), each lacking a
/// render node taking the `i`-th of `fallback_nodes`.
pub fn enumerate_gpus(devices: Vec<GpuInfo>, fallback_nodes: &[String]) -> (r: Vec<GpuInfo>)
    ensures
        r@.len() == primary_only(devices@, devices@.len() as int).len(),
        forall|i: int| 0 <= i < r@.len() ==> (#[trigger] r@[i]).dri_prime_index == Some(i as usize),
        forall|i: int| 0 <= i < r@.len() ==> is_primary_card_spec((#[trigger] r@[i]).card@),
        sorted_by_card(r@),
        exists|s: Seq<GpuInfo>|
            #[trigger] indexed_from(r@, s, fallback_nodes@) && s.to_multiset()
                == primary_only(devices@, devices@.len() as int).to_multiset(),
{
    let ghost all = devices@;
    let cards = primary_cards(devices);
    let ghost p = cards@;
    let r = index_gpus(cards, fallback_nodes);
    proof {
        lemma_primary_only(all, all.len() as int);
        let s = choose|s: Seq<GpuInfo>| #[trigger] indexed_from(r@, s, fallback_nodes@) && s.to_multiset() == p.to_multiset();
        assert forall|i: int| 0 <= i < r@.len() implies is_primary_card_spec((#[trigger] r@[i]).card@) by {
            assert(same_device(r@[i], s[i]));
            assert(s.to_multiset().contains(s[i]));
            assert(p.to_multiset().contains(s[i]));
            assert(p.contains(s[i]));
            let k = choose|k: int| 0 <= k < p.len() && p[k] == s[i];
            assert(is_primary_card_spec(p[k].card@));
        }
    }
    r
}

} // verus!
