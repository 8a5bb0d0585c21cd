//! Labels shown for GPUs and GPU choices.
use vstd::prelude::*;
use crate::models::{filter_name, GpuChoice, GpuInfo};
use crate::text::{
    chars_of, contains, contains_str, decimal, decimal_chars, extend, extend_str, join, join_vecs,
    opt_view, slice_of, split_words, string_of, words,
};
use crate::desktop::{remove_all, remove_all_exec};

verus! {

/// The short name of a GPU, or `GPU <index>` when nothing is left of it.
pub open spec fn pretty_name(g: GpuInfo) -> Seq<char> {
    if filter_name(g).len() == 0 {
        "GPU "@ + decimal(
            match g.dri_prime_index {
                Some(i) => i as nat,
                None => 0,
            },
        )
    } else {
        filter_name(g)
    }
}

/// The short name of a GPU (see `pretty_name`).
pub fn pretty_gpu_name(gpu: &GpuInfo) -> (r: String)
    ensures
        r@ == pretty_name(*gpu),
{
    let n = gpu.name_for_filter();
    if n.as_str().unicode_len() == 0 {
        let mut v = chars_of("GPU ");
        let idx = match gpu.dri_prime_index {
            Some(i) => i,
            None => 0,
        };
        extend(&mut v, decimal_chars(idx).as_slice());
        string_of(v.as_slice())
    } else {
        n
    }
}

/// Vendor words dropped from the default GPU's name.
pub open spec fn vendor_terms() -> Seq<Seq<char>> {
    seq![
        "Radeon"@,
        "GeForce"@,
        "Graphics"@,
        "Series"@,
        "Integrated"@,
        "Discrete"@,
        "AMD"@,
        "NVIDIA"@,
        "Intel"@,
    ]
}

/// `s` with the first `n` vendor words removed in turn.
pub open spec fn remove_terms(s: Seq<char>, n: int) -> Seq<char>
    decreases n,
{
    if n <= 0 || n > vendor_terms().len() {
        s
    } else {
        remove_all(remove_terms(s, n - 1), vendor_terms()[n - 1])
    }
}

/// A name without vendor words, single-spaced; the name itself when
/// nothing else is left.
pub open spec fn compact_name(name: Seq<char>) -> Seq<char> {
    let c = join(words(remove_terms(name, 9)), seq![' ']);
    if c.len() == 0 {
        name
    } else {
        c
    }
}

/// A GPU name without vendor words (see `compact_name`).
pub fn compact_default_name(name: &str) -> (r: String)
    ensures
        r@ == compact_name(name@),
{
    let terms: [&str; 9] = [
        "Radeon",
        "GeForce",
        "Graphics",
        "Series",
        "Integrated",
        "Discrete",
        "AMD",
        "NVIDIA",
        "Intel",
    ];
    let mut out = chars_of(name);
    let mut n: usize = 0;
    while n < 9
        invariant
            n <= 9,
            out@ == remove_terms(name@, n as int),
            forall|j: int| 0 <= j < 9 ==> (#[trigger] terms@[j])@ == vendor_terms()[j],
        decreases 9 - n,
    {
        out = remove_all_exec(out.as_slice(), chars_of(terms[n]).as_slice());
        n += 1;
    }
    let w = split_words(out.as_slice());
    let sp: Vec<char> = vec![' '];
    assert(sp@ == seq![' ']);
    let c = join_vecs(w.as_slice(), sp.as_slice());
    if c.len() == 0 {
        String::from_str(name)
    } else {
        string_of(c.as_slice())
    }
}

/// `text` cut to `max` characters, the last three of them `...`, when longer.
pub open spec fn truncated(text: Seq<char>, max: nat) -> Seq<char> {
    if text.len() <= max {
        text
    } else {
        text.subrange(0, if max >= 3 { max - 3 } else { 0 }) + "..."@
    }
}

/// Shortens `text` to at most `max_chars` characters, ending in `...`.
pub fn truncate_with_dots(text: &str, max_chars: usize) -> (r: String)
    ensures
        r@ == truncated(text@, max_chars as nat),
{
    let t = chars_of(text);
    if t.len() <= max_chars {
        return String::from_str(text);
    }
    let keep = if max_chars >= 3 {
        max_chars - 3
    } else {
        0
    };
    let mut v = slice_of(t.as_slice(), 0, keep);
    extend_str(&mut v, "...");
    string_of(v.as_slice())
}

/// Index in `gpus` of the first GPU with enumeration index `idx`.
pub open spec fn gpu_position(gpus: Seq<GpuInfo>, idx: usize, i: int) -> Option<int>
    decreases gpus.len() - i,
{
    if i < 0 || i >= gpus.len() {
        None
    } else if gpus[i].dri_prime_index == Some(idx) {
        Some(i)
    } else {
        gpu_position(gpus, idx, i + 1)
    }
}

/// Position in `gpus` of the GPU a choice selects, if it is listed.
pub fn selected_gpu_for_choice(gpus: &[GpuInfo], choice: GpuChoice) -> (r: Option<usize>)
    ensures
        r is None <==> match choice {
            GpuChoice::Default => true,
            GpuChoice::Gpu(idx) => gpu_position(gpus@, idx, 0) is None,
        },
        r matches Some(i) ==> choice matches GpuChoice::Gpu(idx) && gpu_position(gpus@, idx, 0) == Some(
            i as int,
        ) && i < gpus@.len(),
{
    let idx = match choice {
        GpuChoice::Default => return None,
        GpuChoice::Gpu(idx) => idx,
    };
    let mut i: usize = 0;
    while i < gpus.len()
        invariant
            i <= gpus@.len(),
            gpu_position(gpus@, idx, 0) == gpu_position(gpus@, idx, i as int),
            choice == GpuChoice::Gpu(idx),
        decreases gpus@.len() - i,
    {
        let hit = match gpus[i].dri_prime_index {
            Some(j) => j == idx,
            None => false,
        };
        if hit {
            return Some(i);
        }
        i += 1;
    }
    None
}

/// The name shown for the default GPU: GPU 0 (else the first listed, else
/// `System`), without vendor words, at most 18 characters.
pub open spec fn default_hint(gpus: Seq<GpuInfo>) -> Seq<char> {
    let name = match gpu_position(gpus, 0, 0) {
        Some(i) => pretty_name(gpus[i]),
        None => if gpus.len() > 0 {
            pretty_name(gpus[0])
        } else {
            "System"@
        },
    };
    truncated(compact_name(name), 18)
}

/// The name shown for the default GPU (see `default_hint`).
pub fn default_gpu_hint(gpus: &[GpuInfo]) -> (r: String)
    ensures
        r@ == default_hint(gpus@),
{
    let name = match selected_gpu_for_choice(gpus, GpuChoice::Gpu(0)) {
        Some(i) => pretty_gpu_name(&gpus[i]),
        None => if gpus.len() > 0 {
            pretty_gpu_name(&gpus[0])
        } else {
            String::from_str("System")
        },
    };
    truncate_with_dots(compact_default_name(name.as_str()).as_str(), 18)
}

/// `<name> (#<index>)`.
pub open spec fn gpu_entry_label(g: GpuInfo, idx: usize) -> Seq<char> {
    pretty_name(g) + " (#"@ + decimal(idx as nat) + ")"@
}

fn gpu_entry_label_exec(g: &GpuInfo, idx: usize) -> (r: String)
    ensures
        r@ == gpu_entry_label(*g, idx),
{
    let mut v = chars_of(pretty_gpu_name(g).as_str());
    extend_str(&mut v, " (#");
    extend(&mut v, decimal_chars(idx).as_slice());
    extend_str(&mut v, ")");
    string_of(v.as_slice())
}

/// The label of a choice: `Default GPU (<hint>)`, the selected GPU's name
/// with its index, or `GPU <index>` when that GPU is not listed.
pub open spec fn choice_text(gpus: Seq<GpuInfo>, choice: GpuChoice) -> Seq<char> {
    match choice {
        GpuChoice::Default => "Default GPU ("@ + default_hint(gpus) + ")"@,
        GpuChoice::Gpu(idx) => match gpu_position(gpus, idx, 0) {
            Some(i) => gpu_entry_label(gpus[i], idx),
            None => "GPU "@ + decimal(idx as nat),
        },
    }
}

fn default_label(gpus: &[GpuInfo]) -> (r: String)
    ensures
        r@ == "Default GPU ("@ + default_hint(gpus@) + ")"@,
{
    let mut v = chars_of("Default GPU (");
    extend_str(&mut v, default_gpu_hint(gpus).as_str());
    extend_str(&mut v, ")");
    string_of(v.as_slice())
}

/// The label of a choice (see `choice_text`).
pub fn gpu_choice_label(gpus: &[GpuInfo], choice: GpuChoice) -> (r: String)
    ensures
        r@ == choice_text(gpus@, choice),
{
    match choice {
        GpuChoice::Default => default_label(gpus),
        GpuChoice::Gpu(idx) => match selected_gpu_for_choice(gpus, choice) {
            Some(i) => gpu_entry_label_exec(&gpus[i], idx),
            None => choice.label(),
        },
    }
}

/// The GPUs among the first `n` that have an enumeration index, in order.
pub open spec fn indexed_gpus(gpus: Seq<GpuInfo>, n: int) -> Seq<GpuInfo>
    decreases n,
{
    if n <= 0 || n > gpus.len() {
        Seq::empty()
    } else if gpus[n - 1].dri_prime_index is Some {
        indexed_gpus(gpus, n - 1).push(gpus[n - 1])
    } else {
        indexed_gpus(gpus, n - 1)
    }
}

/// The choices offered: the default GPU, then, as entry `j + 1`, the `j`-th
/// GPU that has an enumeration index, labelled `<name> (#<index>)`.
pub fn build_gpu_choices(gpus: &[GpuInfo]) -> (r: Vec<(String, GpuChoice)>)
    ensures
        r@.len() == 1 + indexed_gpus(gpus@, gpus@.len() as int).len(),
        r@[0].0@ == "Default GPU ("@ + default_hint(gpus@) + ")"@,
        r@[0].1 == GpuChoice::Default,
        forall|j: int|
            0 <= j < indexed_gpus(gpus@, gpus@.len() as int).len() ==> ({
                let g = #[trigger] indexed_gpus(gpus@, gpus@.len() as int)[j];
                r@[j + 1].1 == GpuChoice::Gpu(g.dri_prime_index->0) && r@[j + 1].0@ == gpu_entry_label(
                    g,
                    g.dri_prime_index->0,
                )
            }),
{
    let mut out: Vec<(String, GpuChoice)> = Vec::new();
    out.push((default_label(gpus), GpuChoice::Default));
    let mut i: usize = 0;
    while i < gpus.len()
        invariant
            i <= gpus@.len(),
            out@.len() == 1 + indexed_gpus(gpus@, i as int).len(),
            out@[0].0@ == "Default GPU ("@ + default_hint(gpus@) + ")"@,
            out@[0].1 == GpuChoice::Default,
            forall|j: int|
                0 <= j < indexed_gpus(gpus@, i as int).len() ==> ({
                    let g = #[trigger] indexed_gpus(gpus@, i as int)[j];
                    out@[j + 1].1 == GpuChoice::Gpu(g.dri_prime_index->0) && out@[j + 1].0@
                        == gpu_entry_label(g, g.dri_prime_index->0)
                }),
        decreases gpus@.len() - i,
    {
        let ghost before = out@;
        let ghost prev = indexed_gpus(gpus@, i as int);
        if let Some(idx) = gpus[i].dri_prime_index {
            out.push((gpu_entry_label_exec(&gpus[i], idx), GpuChoice::Gpu(idx)));
            proof {
                let cur = indexed_gpus(gpus@, i + 1);
                assert(cur == prev.push(gpus@[i as int]));
                assert forall|j: int| 0 <= j < cur.len() implies ({
                    let g = #[trigger] cur[j];
                    out@[j + 1].1 == GpuChoice::Gpu(g.dri_prime_index->0) && out@[j + 1].0@
                        == gpu_entry_label(g, g.dri_prime_index->0)
                }) by {
                    if j < prev.len() {
                        assert(cur[j] == prev[j]);
                        assert(out@[j + 1] == before[j + 1]);
                    }
                }
            }
        }
        i += 1;
    }
    out
}

/// The GPU's renderer string (else its name), lower-cased, names NVIDIA or
/// GeForce.
pub open spec fn names_nvidia(g: GpuInfo) -> bool {
    let n = crate::text::lowercase_of(
        match g.renderer {
            Some(r) => r@,
            None => g.name@,
        },
    );
    contains(n, "nvidia"@) || contains(n, "geforce"@)
}

/// Some GPU names NVIDIA (see `names_nvidia`).
pub open spec fn any_nvidia(gpus: Seq<GpuInfo>) -> bool {
    exists|i: int| 0 <= i < gpus.len() && names_nvidia(#[trigger] gpus[i])
}

/// Whether an NVIDIA GPU is present (see `any_nvidia`).
pub fn has_nvidia_gpu(gpus: &[GpuInfo]) -> (r: bool)
    ensures
        r == any_nvidia(gpus@),
{
    let mut i: usize = 0;
    while i < gpus.len()
        invariant
            i <= gpus@.len(),
            forall|k: int| 0 <= k < i ==> !names_nvidia(#[trigger] gpus@[k]),
        decreases gpus@.len() - i,
    {
        let src = match &gpus[i].renderer {
            Some(r) => r.as_str(),
            None => gpus[i].name.as_str(),
        };
        let n = chars_of(crate::text::to_lowercase(src).as_str());
        if contains_str(n.as_slice(), "nvidia") || contains_str(n.as_slice(), "geforce") {
            assert(names_nvidia(gpus@[i as int]));
            return true;
        }
        i += 1;
    }
    false
}

} // verus!
