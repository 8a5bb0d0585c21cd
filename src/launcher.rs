//! Environment synthesis for a GPU, launcher rewriting and request dispatch.
use vstd::prelude::*;
use crate::models::{DesktopApp, GpuChoice, GpuInfo};
use crate::steam::dri_prime_var;
use crate::text::{
    chars_of, contains, contains_str, count_char, count_char_exec, decimal_chars, extend,
    extend_str, join, join_strings, lower, lower_vec, opt_view, push_chars, push_literal,
    push_string, seq_eq, slice_of, string_of, trim, trim_all, views, vviews, words, split_words,
    join_vecs, ends_with, matches_at, push_vec, lines, split_lines, starts_with, trim_start,
    trim_start_all, trim_range, occurs_at, lemma_join_contains, lemma_contains_extend,
};

verus! {

/// The lower-cased name, driver and renderer of a GPU, separated by spaces.
pub open spec fn gpu_haystack(g: GpuInfo) -> Seq<char> {
    lower(g.name@) + (match g.driver {
        Some(d) => seq![' '] + lower(d@),
        None => Seq::empty(),
    }) + (match g.renderer {
        Some(r) => seq![' '] + lower(r@),
        None => Seq::empty(),
    })
}

/// The lower-cased driver name, empty when unknown.
pub open spec fn driver_lower(g: GpuInfo) -> Seq<char> {
    match g.driver {
        Some(d) => lower(d@),
        None => Seq::empty(),
    }
}

/// The GPU is driven by NVIDIA's proprietary stack.
pub open spec fn is_nvidia_gpu(g: GpuInfo) -> bool {
    driver_lower(g) == "nvidia"@ || contains(gpu_haystack(g), "nvidia"@)
}

/// The GPU is driven by Mesa.
pub open spec fn is_mesa_gpu(g: GpuInfo) -> bool {
    !is_nvidia_gpu(g) && (contains(gpu_haystack(g), "mesa"@) || contains(
        driver_lower(g),
        "amdgpu"@,
    ) || contains(driver_lower(g), "radeon"@) || contains(driver_lower(g), "i915"@) || contains(
        driver_lower(g),
        "iris"@,
    ) || contains(driver_lower(g), "nouveau"@))
}

/// `s` with every `:` and `.` replaced by `_`.
pub open spec fn underscored(s: Seq<char>) -> Seq<char> {
    s.map_values(
        |c: char|
            if c == ':' || c == '.' {
                '_'
            } else {
                c
            },
    )
}

/// Mesa's Vulkan device selector for a PCI slot: a two-part `bus:dev.fn`
/// slot gets the `0000:` domain, separators become `_`, and `pci-` is
/// prepended. None for a missing or blank slot.
pub open spec fn mesa_selector(pci: Option<Seq<char>>) -> Option<Seq<char>> {
    match pci {
        None => None,
        Some(p) => {
            let slot = trim(p);
            if slot.len() == 0 {
                None
            } else {
                let n = if count_char(slot, ':') == 1 {
                    "0000:"@ + slot
                } else {
                    slot
                };
                Some("pci-"@ + underscored(n))
            }
        },
    }
}

/// The vendor profile of an optional GPU: NVIDIA, Mesa, and Mesa's selector.
pub open spec fn profile_of(g: Option<GpuInfo>) -> (bool, bool, Option<Seq<char>>) {
    match g {
        None => (false, false, None),
        Some(g) => (is_nvidia_gpu(g), is_mesa_gpu(g), mesa_selector(opt_view(g.pci_slot))),
    }
}

/// Vendor facts derived from a GPU's strings.
pub struct GpuProfile {
    pub is_nvidia: bool,
    pub is_mesa: bool,
    pub mesa_vk_device_select: Option<String>,
}

/// Mesa's Vulkan device selector for a PCI slot (see `mesa_selector`).
pub fn mesa_vk_device_select_from_pci(pci: Option<&str>) -> (r: Option<String>)
    ensures
        opt_view(r) == mesa_selector(
            match pci {
                Some(p) => Some(p@),
                None => None,
            },
        ),
{
    let p = match pci {
        Some(p) => chars_of(p),
        None => return None,
    };
    let slot = trim_all(p.as_slice());
    if slot.len() == 0 {
        return None;
    }
    let n = if count_char_exec(slot.as_slice(), ':') == 1 {
        let mut v = chars_of("0000:");
        extend(&mut v, slot.as_slice());
        v
    } else {
        slot
    };
    let mut out = chars_of("pci-");
    let ghost head = out@;
    let mut i: usize = 0;
    while i < n.len()
        invariant
            i <= n@.len(),
            out@ == head + underscored(n@.subrange(0, i as int)),
        decreases n@.len() - i,
    {
        let c = n[i];
        out.push(
            if c == ':' || c == '.' {
                '_'
            } else {
                c
            },
        );
        i += 1;
        assert(underscored(n@.subrange(0, i as int)) =~= underscored(
            n@.subrange(0, i - 1 as int),
        ).push(underscored(n@)[i - 1]));
    }
    assert(n@.subrange(0, n@.len() as int) == n@);
    Some(string_of(out.as_slice()))
}

fn lower_of(s: &String) -> (r: Vec<char>)
    ensures
        r@ == lower(s@),
{
    lower_vec(chars_of(s.as_str()).as_slice())
}

/// The vendor profile of the selected GPU (see `profile_of`).
pub fn gpu_profile(selected_gpu: Option<&GpuInfo>) -> (r: GpuProfile)
    ensures
        (r.is_nvidia, r.is_mesa, opt_view(r.mesa_vk_device_select)) == profile_of(
            match selected_gpu {
                Some(g) => Some(*g),
                None => None,
            },
        ),
{
    let gpu = match selected_gpu {
        Some(g) => g,
        None => return GpuProfile { is_nvidia: false, is_mesa: false, mesa_vk_device_select: None },
    };
    let mut hay = lower_of(&gpu.name);
    let driver = match &gpu.driver {
        Some(d) => {
            let dl = lower_of(d);
            hay.push(' ');
            extend(&mut hay, dl.as_slice());
            dl
        },
        None => Vec::new(),
    };
    match &gpu.renderer {
        Some(r) => {
            hay.push(' ');
            extend(&mut hay, lower_of(r).as_slice());
        },
        None => {},
    }
    assert(hay@ =~= gpu_haystack(*gpu));
    assert(driver@ =~= driver_lower(*gpu));
    let nvidia_word = chars_of("nvidia");
    let is_nvidia = seq_eq(driver.as_slice(), nvidia_word.as_slice()) || contains_str(
        hay.as_slice(),
        "nvidia",
    );
    let is_mesa = !is_nvidia && (contains_str(hay.as_slice(), "mesa") || contains_str(
        driver.as_slice(),
        "amdgpu",
    ) || contains_str(driver.as_slice(), "radeon") || contains_str(driver.as_slice(), "i915")
        || contains_str(driver.as_slice(), "iris") || contains_str(driver.as_slice(), "nouveau"));
    let sel = match &gpu.pci_slot {
        Some(p) => mesa_vk_device_select_from_pci(Some(p.as_str())),
        None => None,
    };
    GpuProfile { is_nvidia, is_mesa, mesa_vk_device_select: sel }
}

/// The variables NVIDIA's PRIME render offload needs.
pub open spec fn nvidia_vars() -> Seq<Seq<char>> {
    seq![
        "__NV_PRIME_RENDER_OFFLOAD=1"@,
        "__GLX_VENDOR_LIBRARY_NAME=nvidia"@,
        "__VK_LAYER_NV_optimus=NVIDIA_only"@,
    ]
}

/// The names of `nvidia_vars`.
pub open spec fn nvidia_names() -> Seq<Seq<char>> {
    seq!["__NV_PRIME_RENDER_OFFLOAD"@, "__GLX_VENDOR_LIBRARY_NAME"@, "__VK_LAYER_NV_optimus"@]
}

/// The Mesa variables: the device selector when known, and the force-default
/// flag for GPU 0.
pub open spec fn mesa_vars(index: nat, sel: Option<Seq<char>>) -> Seq<Seq<char>> {
    (match sel {
        Some(x) => seq!["MESA_VK_DEVICE_SELECT="@ + x],
        None => Seq::empty(),
    }) + (if index == 0 {
        seq!["MESA_VK_DEVICE_SELECT_FORCE_DEFAULT_DEVICE=1"@]
    } else {
        Seq::empty()
    })
}

/// The names of `mesa_vars`.
pub open spec fn mesa_names(index: nat, sel: Option<Seq<char>>) -> Seq<Seq<char>> {
    (match sel {
        Some(_) => seq!["MESA_VK_DEVICE_SELECT"@],
        None => Seq::empty(),
    }) + (if index == 0 {
        seq!["MESA_VK_DEVICE_SELECT_FORCE_DEFAULT_DEVICE"@]
    } else {
        Seq::empty()
    })
}

/// The `KEY=VALUE` assignments that put rendering on GPU `index`, in order:
/// `DRI_PRIME`, then the NVIDIA or Mesa variables, then for a Steam title
/// `PRESSURE_VESSEL_IMPORT_VARS` naming every variable before it.
pub open spec fn env_pairs(
    index: nat,
    is_steam: bool,
    profile: (bool, bool, Option<Seq<char>>),
) -> Seq<Seq<char>> {
    let vars = seq![dri_prime_var(index)] + (if profile.0 {
        nvidia_vars()
    } else {
        Seq::empty()
    }) + (if profile.1 {
        mesa_vars(index, profile.2)
    } else {
        Seq::empty()
    });
    let names = seq!["DRI_PRIME"@] + (if profile.0 {
        nvidia_names()
    } else {
        Seq::empty()
    }) + (if profile.1 {
        mesa_names(index, profile.2)
    } else {
        Seq::empty()
    });
    if is_steam {
        vars.push("PRESSURE_VESSEL_IMPORT_VARS="@ + join(names, seq![',']))
    } else {
        vars
    }
}

/// The selected GPU as a spec value.
pub open spec fn gpu_opt(g: Option<&GpuInfo>) -> Option<GpuInfo> {
    match g {
        Some(g) => Some(*g),
        None => None,
    }
}

/// The environment assignments for GPU `index` (see `env_pairs`).
pub fn build_env_pairs(index: usize, is_steam: bool, selected_gpu: Option<&GpuInfo>) -> (r: Vec<
    String,
>)
    ensures
        views(r@) == env_pairs(index as nat, is_steam, profile_of(gpu_opt(selected_gpu))),
{
    let profile = gpu_profile(selected_gpu);
    let ghost prof = profile_of(gpu_opt(selected_gpu));
    let mut vars: Vec<String> = Vec::new();
    let mut names: Vec<String> = Vec::new();
    let mut dri = chars_of("DRI_PRIME=");
    extend(&mut dri, decimal_chars(index).as_slice());
    push_chars(&mut vars, dri.as_slice());
    push_literal(&mut names, "DRI_PRIME");
    let ghost v0 = views(vars@);
    let ghost n0 = views(names@);
    assert(v0 =~= seq![dri_prime_var(index as nat)]);
    assert(n0 =~= seq!["DRI_PRIME"@]);
    if profile.is_nvidia {
        push_literal(&mut vars, "__NV_PRIME_RENDER_OFFLOAD=1");
        push_literal(&mut vars, "__GLX_VENDOR_LIBRARY_NAME=nvidia");
        push_literal(&mut vars, "__VK_LAYER_NV_optimus=NVIDIA_only");
        push_literal(&mut names, "__NV_PRIME_RENDER_OFFLOAD");
        push_literal(&mut names, "__GLX_VENDOR_LIBRARY_NAME");
        push_literal(&mut names, "__VK_LAYER_NV_optimus");
    }
    assert(views(vars@) =~= v0 + (if prof.0 { nvidia_vars() } else { Seq::empty() }));
    assert(views(names@) =~= n0 + (if prof.0 { nvidia_names() } else { Seq::empty() }));
    let ghost v1 = views(vars@);
    let ghost n1 = views(names@);
    if profile.is_mesa {
        match &profile.mesa_vk_device_select {
            Some(sel) => {
                let mut m = chars_of("MESA_VK_DEVICE_SELECT=");
                extend_str(&mut m, sel.as_str());
                push_chars(&mut vars, m.as_slice());
                push_literal(&mut names, "MESA_VK_DEVICE_SELECT");
            },
            None => {},
        }
        if index == 0 {
            push_literal(&mut vars, "MESA_VK_DEVICE_SELECT_FORCE_DEFAULT_DEVICE=1");
            push_literal(&mut names, "MESA_VK_DEVICE_SELECT_FORCE_DEFAULT_DEVICE");
        }
    }
    assert(views(vars@) =~= v1 + (if prof.1 { mesa_vars(index as nat, prof.2) } else { Seq::empty() }));
    assert(views(names@) =~= n1 + (if prof.1 { mesa_names(index as nat, prof.2) } else { Seq::empty() }));
    if is_steam {
        let mut p = chars_of("PRESSURE_VESSEL_IMPORT_VARS=");
        extend(&mut p, join_strings(names.as_slice(), ",").as_slice());
        proof {
            reveal_strlit(",");
            assert(","@ =~= seq![',']);
        }
        push_chars(&mut vars, p.as_slice());
    }
    assert(views(vars@) =~= env_pairs(index as nat, is_steam, prof));
    vars
}

/// The environment for a Steam title: none for the default GPU.
pub fn steam_env_vars(choice: GpuChoice, selected_gpu: Option<&GpuInfo>) -> (r: Vec<String>)
    ensures
        views(r@) == match choice {
            GpuChoice::Default => Seq::empty(),
            GpuChoice::Gpu(i) => env_pairs(i as nat, true, profile_of(gpu_opt(selected_gpu))),
        },
{
    match choice {
        GpuChoice::Default => {
            let r: Vec<String> = Vec::new();
            assert(views(r@) =~= Seq::empty());
            r
        },
        GpuChoice::Gpu(index) => build_env_pairs(index, true, selected_gpu),
    }
}

/// `a` names the flatpak executable.
pub open spec fn is_flatpak_word(a: Seq<char>) -> bool {
    a == "flatpak"@ || ends_with(a, "/flatpak"@)
}

/// The first index `j >= i` with words `flatpak run` at `j` and `j + 1`.
pub open spec fn first_flatpak_run(w: Seq<Seq<char>>, i: int) -> Option<int>
    decreases w.len() - i,
{
    if i < 0 || i + 1 >= w.len() {
        None
    } else if is_flatpak_word(w[i]) && w[i + 1] == "run"@ {
        Some(i)
    } else {
        first_flatpak_run(w, i + 1)
    }
}

/// The command runs an application through `flatpak run`.
pub open spec fn is_flatpak_run(exec: Seq<char>) -> bool {
    first_flatpak_run(words(exec), 0) is Some
}

/// `--env=KEY=VALUE` for each assignment.
pub open spec fn env_args(pairs: Seq<Seq<char>>) -> Seq<Seq<char>> {
    pairs.map_values(|p: Seq<char>| "--env="@ + p)
}

/// `env KEY=VALUE ... <exec>`.
pub open spec fn env_prefixed(exec: Seq<char>, pairs: Seq<Seq<char>>) -> Seq<char> {
    "env "@ + join(pairs, seq![' ']) + seq![' '] + exec
}

/// A `flatpak run` command with `--env=` arguments inserted right after
/// `run`, words joined by single spaces; any other command is prefixed by
/// `env`.
pub open spec fn wrap_flatpak(exec: Seq<char>, pairs: Seq<Seq<char>>) -> Seq<char> {
    let w = words(exec);
    match first_flatpak_run(w, 0) {
        Some(i) => join(
            w.subrange(0, i + 2) + env_args(pairs) + w.subrange(i + 2, w.len() as int),
            seq![' '],
        ),
        None => env_prefixed(exec, pairs),
    }
}

fn is_flatpak_word_exec(a: &[char]) -> (r: bool)
    ensures
        r == is_flatpak_word(a@),
{
    let f = chars_of("flatpak");
    let sf = chars_of("/flatpak");
    seq_eq(a, f.as_slice()) || (a.len() >= sf.len() && matches_at(a, sf.as_slice(), a.len() - sf.len()))
}

fn find_flatpak_run(w: &[Vec<char>]) -> (r: Option<usize>)
    ensures
        r is None <==> first_flatpak_run(vviews(w@), 0) is None,
        r matches Some(i) ==> first_flatpak_run(vviews(w@), 0) == Some(i as int) && i + 1 < w@.len(),
{
    let run = chars_of("run");
    let mut i: usize = 0;
    while w.len() > 1 && i < w.len() - 1
        invariant
            first_flatpak_run(vviews(w@), 0) == first_flatpak_run(vviews(w@), i as int),
            run@ == "run"@,
        decreases w@.len() - i,
    {
        if is_flatpak_word_exec(w[i].as_slice()) && seq_eq(w[i + 1].as_slice(), run.as_slice()) {
            return Some(i);
        }
        i += 1;
    }
    None
}

/// Whether the command runs an application through `flatpak run`.
pub fn looks_like_flatpak_run(exec: &str) -> (r: bool)
    ensures
        r == is_flatpak_run(exec@),
{
    let w = split_words(chars_of(exec).as_slice());
    find_flatpak_run(w.as_slice()).is_some()
}

fn env_prefixed_exec(exec: &[char], pairs: &[String]) -> (r: Vec<char>)
    ensures
        r@ == env_prefixed(exec@, views(pairs@)),
{
    let mut out = chars_of("env ");
    extend(&mut out, join_strings(pairs, " ").as_slice());
    out.push(' ');
    extend(&mut out, exec);
    proof {
        reveal_strlit(" ");
        assert(" "@ =~= seq![' ']);
    }
    assert(out@ =~= env_prefixed(exec@, views(pairs@)));
    out
}

/// Puts the assignments into a launch command (see `wrap_flatpak`).
pub fn wrap_flatpak_run_with_env(exec: &str, env_pairs: &[String]) -> (r: String)
    ensures
        r@ == wrap_flatpak(exec@, views(env_pairs@)),
{
    let e = chars_of(exec);
    let w = split_words(e.as_slice());
    let i = match find_flatpak_run(w.as_slice()) {
        Some(i) => i,
        None => return string_of(env_prefixed_exec(e.as_slice(), env_pairs).as_slice()),
    };
    let ghost ws = vviews(w@);
    let n = w.len();
    assert(i + 1 < n);
    let stop = i + 2;
    let mut parts: Vec<Vec<char>> = Vec::new();
    let mut k: usize = 0;
    while k < stop
        invariant
            stop == i + 2,
            i + 1 < w@.len(),
            k <= i + 2,
            vviews(parts@) == ws.subrange(0, k as int),
            ws == vviews(w@),
        decreases i + 2 - k,
    {
        push_vec(&mut parts, slice_of(w[k].as_slice(), 0, w[k].len()));
        assert(w@[k as int]@.subrange(0, w@[k as int]@.len() as int) == w@[k as int]@);
        assert(vviews(parts@) =~= ws.subrange(0, k + 1 as int));
        k += 1;
    }
    let ghost head = vviews(parts@);
    let mut j: usize = 0;
    while j < env_pairs.len()
        invariant
            j <= env_pairs@.len(),
            vviews(parts@) == head + env_args(views(env_pairs@)).subrange(0, j as int),
        decreases env_pairs@.len() - j,
    {
        let mut a = chars_of("--env=");
        extend_str(&mut a, env_pairs[j].as_str());
        push_vec(&mut parts, a);
        assert(vviews(parts@) =~= head + env_args(views(env_pairs@)).subrange(0, j + 1 as int));
        j += 1;
    }
    assert(env_args(views(env_pairs@)).subrange(0, env_pairs@.len() as int) =~= env_args(
        views(env_pairs@),
    ));
    let ghost mid = vviews(parts@);
    let mut k2: usize = stop;
    while k2 < w.len()
        invariant
            i + 2 <= k2 <= w@.len(),
            ws == vviews(w@),
            vviews(parts@) == mid + ws.subrange(i + 2, k2 as int),
        decreases w@.len() - k2,
    {
        push_vec(&mut parts, slice_of(w[k2].as_slice(), 0, w[k2].len()));
        assert(w@[k2 as int]@.subrange(0, w@[k2 as int]@.len() as int) == w@[k2 as int]@);
        assert(vviews(parts@) =~= mid + ws.subrange(i + 2, k2 + 1 as int));
        k2 += 1;
    }
    let sp: Vec<char> = vec![' '];
    assert(sp@ == seq![' ']);
    assert(vviews(parts@) =~= ws.subrange(0, i + 2) + env_args(views(env_pairs@)) + ws.subrange(
        i + 2,
        ws.len() as int,
    ));
    string_of(join_vecs(parts.as_slice(), sp.as_slice()).as_slice())
}

/// The command starts a Steam game.
pub open spec fn is_steam_command(exec: Seq<char>) -> bool {
    let l = lower(exec);
    contains(l, "steam"@) && (contains(l, "rungameid"@) || contains(l, "-applaunch"@) || contains(
        l,
        "steam://run"@,
    ))
}

/// Whether the command starts a Steam game.
pub fn is_steam_exec(exec: &str) -> (r: bool)
    ensures
        r == is_steam_command(exec@),
{
    let l = lower_vec(chars_of(exec).as_slice());
    contains_str(l.as_slice(), "steam") && (contains_str(l.as_slice(), "rungameid") || contains_str(
        l.as_slice(),
        "-applaunch",
    ) || contains_str(l.as_slice(), "steam://run"))
}

/// The launch command wrapped to run on GPU `index`.
pub open spec fn wrapped_exec(exec: Seq<char>, index: nat, profile: (bool, bool, Option<Seq<char>>)) -> Seq<
    char,
> {
    let pairs = env_pairs(index, is_steam_command(exec), profile);
    if is_flatpak_run(exec) {
        wrap_flatpak(exec, pairs)
    } else {
        env_prefixed(exec, pairs)
    }
}

/// Wraps a launch command so that it renders on GPU `index`.
pub fn wrap_exec_for_gpu(exec: &str, index: usize, selected_gpu: Option<&GpuInfo>) -> (r: String)
    ensures
        r@ == wrapped_exec(exec@, index as nat, profile_of(gpu_opt(selected_gpu))),
{
    let is_steam = is_steam_exec(exec);
    let pairs = build_env_pairs(index, is_steam, selected_gpu);
    if looks_like_flatpak_run(exec) {
        return wrap_flatpak_run_with_env(exec, pairs.as_slice());
    }
    string_of(env_prefixed_exec(chars_of(exec).as_slice(), pairs.as_slice()).as_slice())
}

/// Line that marks a launcher written by this library.
pub const OVERRIDE_MARKER: &'static str = "X-Kaede-Managed=true";

/// The first non-empty `Exec=` value (trimmed) among `ls[i..]`.
pub open spec fn exec_value_from(ls: Seq<Seq<char>>, i: int) -> Option<Seq<char>>
    decreases ls.len() - i,
{
    if i < 0 || i >= ls.len() {
        None
    } else if starts_with(ls[i], "Exec="@) && trim(ls[i].subrange(5, ls[i].len() as int)).len()
        > 0 {
        Some(trim(ls[i].subrange(5, ls[i].len() as int)))
    } else {
        exec_value_from(ls, i + 1)
    }
}

/// The first non-empty `Exec=` value of a desktop file.
pub open spec fn exec_value(content: Seq<char>) -> Option<Seq<char>> {
    exec_value_from(lines(content), 0)
}

/// The first non-empty `Exec=` value of a desktop file, trimmed.
pub fn desktop_exec_value(content: &str) -> (r: Option<String>)
    ensures
        opt_view(r) == exec_value(content@),
{
    let ls = split_lines(chars_of(content).as_slice());
    let prefix = chars_of("Exec=");
    proof {
        reveal_strlit("Exec=");
    }
    let mut i: usize = 0;
    while i < ls.len()
        invariant
            i <= ls@.len(),
            prefix@ == "Exec="@,
            prefix@.len() == 5,
            exec_value(content@) == exec_value_from(vviews(ls@), i as int),
            vviews(ls@) == lines(content@),
        decreases ls@.len() - i,
    {
        let l = ls[i].as_slice();
        if matches_at(l, prefix.as_slice(), 0) {
            let v = trim_range(l, 5, l.len());
            if v.len() > 0 {
                return Some(string_of(v.as_slice()));
            }
        }
        i += 1;
    }
    None
}

/// Scan state of the rewrite: lines written so far, whether the `Exec` line
/// was written, whether a marker line was seen, and whether the current
/// section is `[Desktop Entry]`.
pub type RewriteState = (Seq<Seq<char>>, bool, bool, bool);

/// One source line through the rewrite.
pub open spec fn rewrite_step(st: RewriteState, line: Seq<char>, exec_line: Seq<char>) -> RewriteState {
    let (out, replaced, has_marker, in_entry) = st;
    if starts_with(trim_start(line), "["@) {
        let out1 = if in_entry && !replaced {
            out.push(exec_line)
        } else {
            out
        };
        (out1.push(line), replaced || in_entry, has_marker, trim(line) == "[Desktop Entry]"@)
    } else if starts_with(line, "X-Kaede-Managed="@) {
        (out.push(OVERRIDE_MARKER@), replaced, true, in_entry)
    } else if in_entry && starts_with(line, "Exec="@) && !replaced {
        (out.push(exec_line), true, has_marker, in_entry)
    } else {
        (out.push(line), replaced, has_marker, in_entry)
    }
}

/// The first `n` source lines through the rewrite.
pub open spec fn rewrite_fold(ls: Seq<Seq<char>>, n: int, exec_line: Seq<char>) -> RewriteState
    decreases n,
{
    if n <= 0 || n > ls.len() {
        (Seq::empty(), false, false, false)
    } else {
        rewrite_step(rewrite_fold(ls, n - 1, exec_line), ls[n - 1], exec_line)
    }
}

/// Index just after the first `[Desktop Entry]` header among `out[i..]`, or 0.
pub open spec fn entry_insert_index(out: Seq<Seq<char>>, i: int) -> int
    decreases out.len() - i,
{
    if i < 0 || i >= out.len() {
        0
    } else if trim(out[i]) == "[Desktop Entry]"@ {
        i + 1
    } else {
        entry_insert_index(out, i + 1)
    }
}

/// A fresh launcher for an application without a readable source file.
pub open spec fn fresh_launcher(name: Seq<char>, icon: Option<Seq<char>>, wrapped: Seq<char>) -> Seq<
    char,
> {
    "[Desktop Entry]\nType=Application\nName="@ + name + "\nIcon="@ + (match icon {
        Some(i) => i,
        None => "application-x-executable"@,
    }) + "\nExec="@ + wrapped + "\nTerminal=false\n"@ + OVERRIDE_MARKER@ + "\n"@
}

/// The launcher written for an override: the source with its first
/// `[Desktop Entry]` `Exec=` line replaced by the wrapped command (or one
/// inserted when there is none), every marker line normalised, and a marker
/// line appended when the source had none. A blank source gives a fresh
/// launcher.
pub open spec fn rewrite_spec(source: Seq<char>, wrapped: Seq<char>, name: Seq<char>, icon: Option<
    Seq<char>,
>) -> Seq<char> {
    if trim(source).len() == 0 {
        fresh_launcher(name, icon, wrapped)
    } else {
        let el = "Exec="@ + wrapped;
        let ls = lines(source);
        let (out, replaced, has_marker, _) = rewrite_fold(ls, ls.len() as int, el);
        let out2 = if !replaced {
            out.insert(entry_insert_index(out, 0), el)
        } else {
            out
        };
        let out3 = if !has_marker {
            out2.push(OVERRIDE_MARKER@)
        } else {
            out2
        };
        join(out3, seq!['\n']).push('\n')
    }
}

fn entry_index(out: &[Vec<char>]) -> (r: usize)
    ensures
        r as int == entry_insert_index(vviews(out@), 0),
        r <= out@.len(),
{
    let mut k: usize = 0;
    while k < out.len()
        invariant
            k <= out@.len(),
            entry_insert_index(vviews(out@), 0) == entry_insert_index(vviews(out@), k as int),
        decreases out@.len() - k,
    {
        if is_entry_header(out[k].as_slice()) {
            return k + 1;
        }
        k += 1;
    }
    0
}

fn is_entry_header(line: &[char]) -> (r: bool)
    ensures
        r == (trim(line@) == "[Desktop Entry]"@),
{
    let t = trim_all(line);
    let h = chars_of("[Desktop Entry]");
    seq_eq(t.as_slice(), h.as_slice())
}

/// Writes the launcher for an override (see `rewrite_spec`).
pub fn rewrite_desktop_override_content(source: &str, wrapped_exec: &str, app: &DesktopApp) -> (r:
    String)
    ensures
        r@ == rewrite_spec(source@, wrapped_exec@, app.name@, opt_view(app.icon)),
{
    let src = chars_of(source);
    if trim_all(src.as_slice()).len() == 0 {
        let mut out = chars_of("[Desktop Entry]\nType=Application\nName=");
        extend_str(&mut out, app.name.as_str());
        extend_str(&mut out, "\nIcon=");
        match &app.icon {
            Some(i) => extend_str(&mut out, i.as_str()),
            None => extend_str(&mut out, "application-x-executable"),
        }
        extend_str(&mut out, "\nExec=");
        extend_str(&mut out, wrapped_exec);
        extend_str(&mut out, "\nTerminal=false\n");
        extend_str(&mut out, OVERRIDE_MARKER);
        extend_str(&mut out, "\n");
        assert(out@ =~= fresh_launcher(app.name@, opt_view(app.icon), wrapped_exec@));
        return string_of(out.as_slice());
    }
    let mut el = chars_of("Exec=");
    extend_str(&mut el, wrapped_exec);
    let ls = split_lines(src.as_slice());
    let bracket = chars_of("[");
    let marker_key = chars_of("X-Kaede-Managed=");
    let exec_key = chars_of("Exec=");
    let mut out: Vec<Vec<char>> = Vec::new();
    let mut replaced = false;
    let mut has_marker = false;
    let mut in_entry = false;
    let mut i: usize = 0;
    while i < ls.len()
        invariant
            i <= ls@.len(),
            vviews(ls@) == lines(source@),
            el@ == "Exec="@ + wrapped_exec@,
            bracket@ == "["@,
            marker_key@ == "X-Kaede-Managed="@,
            exec_key@ == "Exec="@,
            rewrite_fold(vviews(ls@), i as int, el@) == (vviews(out@), replaced, has_marker, in_entry),
        decreases ls@.len() - i,
    {
        let line = ls[i].as_slice();
        if matches_at(trim_start_all(line).as_slice(), bracket.as_slice(), 0) {
            if in_entry && !replaced {
                push_vec(&mut out, slice_of(el.as_slice(), 0, el.len()));
                assert(el@.subrange(0, el@.len() as int) == el@);
                replaced = true;
            }
            push_vec(&mut out, slice_of(line, 0, line.len()));
            assert(line@.subrange(0, line@.len() as int) == line@);
            in_entry = is_entry_header(line);
        } else if matches_at(line, marker_key.as_slice(), 0) {
            has_marker = true;
            push_vec(&mut out, chars_of(OVERRIDE_MARKER));
        } else if in_entry && matches_at(line, exec_key.as_slice(), 0) && !replaced {
            push_vec(&mut out, slice_of(el.as_slice(), 0, el.len()));
            assert(el@.subrange(0, el@.len() as int) == el@);
            replaced = true;
        } else {
            push_vec(&mut out, slice_of(line, 0, line.len()));
            assert(line@.subrange(0, line@.len() as int) == line@);
        }
        i += 1;
    }
    assert(ls@.len() == vviews(ls@).len());
    if !replaced {
        let at = entry_index(out.as_slice());
        assert(at as int == entry_insert_index(vviews(out@), 0));
        let ghost before = vviews(out@);
        let ghost elv = el@;
        out.insert(at, el);
        assert(vviews(out@) =~= before.insert(at as int, elv));
    }
    if !has_marker {
        push_vec(&mut out, chars_of(OVERRIDE_MARKER));
    }
    let nl: Vec<char> = vec!['\n'];
    assert(nl@ == seq!['\n']);
    let mut text = join_vecs(out.as_slice(), nl.as_slice());
    text.push('\n');
    string_of(text.as_slice())
}

/// Whether a launcher's text carries the ownership marker.
pub fn has_override_marker(content: &str) -> (r: bool)
    ensures
        r == contains(content@, OVERRIDE_MARKER@),
{
    contains_str(chars_of(content).as_slice(), OVERRIDE_MARKER)
}

/// The `--unset-env=` arguments for every variable this library manages.
pub open spec fn unset_args() -> Seq<Seq<char>> {
    seq![
        "--unset-env=DRI_PRIME"@,
        "--unset-env=PRESSURE_VESSEL_IMPORT_VARS"@,
        "--unset-env=__NV_PRIME_RENDER_OFFLOAD"@,
        "--unset-env=__GLX_VENDOR_LIBRARY_NAME"@,
        "--unset-env=__VK_LAYER_NV_optimus"@,
        "--unset-env=MESA_VK_DEVICE_SELECT"@,
        "--unset-env=MESA_VK_DEVICE_SELECT_FORCE_DEFAULT_DEVICE"@,
    ]
}

/// Arguments of the `flatpak` command that applies a choice to an app:
/// `override --user`, then `--env=` assignments for a GPU or `--unset-env=`
/// for every managed variable, then the app id.
pub open spec fn flatpak_args(app_id: Seq<char>, choice: GpuChoice, profile: (
    bool,
    bool,
    Option<Seq<char>>,
)) -> Seq<Seq<char>> {
    seq!["override"@, "--user"@] + match choice {
        GpuChoice::Default => unset_args(),
        GpuChoice::Gpu(i) => env_args(env_pairs(i as nat, false, profile)),
    }.push(app_id)
}

/// The `flatpak` arguments that apply `choice` to `app_id` (see `flatpak_args`).
pub fn flatpak_override_args(app_id: &str, choice: GpuChoice, selected_gpu: Option<&GpuInfo>) -> (r:
    Vec<String>)
    ensures
        views(r@) == flatpak_args(app_id@, choice, profile_of(gpu_opt(selected_gpu))),
{
    let mut args: Vec<String> = Vec::new();
    push_literal(&mut args, "override");
    push_literal(&mut args, "--user");
    let ghost head = views(args@);
    match choice {
        GpuChoice::Default => {
            push_literal(&mut args, "--unset-env=DRI_PRIME");
            push_literal(&mut args, "--unset-env=PRESSURE_VESSEL_IMPORT_VARS");
            push_literal(&mut args, "--unset-env=__NV_PRIME_RENDER_OFFLOAD");
            push_literal(&mut args, "--unset-env=__GLX_VENDOR_LIBRARY_NAME");
            push_literal(&mut args, "--unset-env=__VK_LAYER_NV_optimus");
            push_literal(&mut args, "--unset-env=MESA_VK_DEVICE_SELECT");
            push_literal(&mut args, "--unset-env=MESA_VK_DEVICE_SELECT_FORCE_DEFAULT_DEVICE");
            assert(views(args@) =~= head + unset_args());
        },
        GpuChoice::Gpu(index) => {
            let pairs = build_env_pairs(index, false, selected_gpu);
            let mut j: usize = 0;
            while j < pairs.len()
                invariant
                    j <= pairs@.len(),
                    views(args@) == head + env_args(views(pairs@)).subrange(0, j as int),
                decreases pairs@.len() - j,
            {
                let mut a = chars_of("--env=");
                extend_str(&mut a, pairs[j].as_str());
                push_chars(&mut args, a.as_slice());
                assert(views(args@) =~= head + env_args(views(pairs@)).subrange(0, j + 1 as int));
                j += 1;
            }
            assert(env_args(views(pairs@)).subrange(0, pairs@.len() as int) =~= env_args(
                views(pairs@),
            ));
        },
    }
    push_literal(&mut args, app_id);
    assert(views(args@) =~= flatpak_args(app_id@, choice, profile_of(gpu_opt(selected_gpu))));
    args
}

/// The launch surface an override request goes to.
#[derive(Debug, Clone, Copy, PartialEq, Eq, Structural)]
pub enum Surface {
    Steam,
    Heroic,
    Flatpak,
    Native,
}

/// The surface that handles `app`: Steam when a Steam app id was resolved,
/// else Heroic when platform and app name were, else Flatpak when an app id
/// was, else the native launcher.
pub open spec fn surface_of(app: DesktopApp) -> Surface {
    if app.is_steam_game && app.steam_app_id is Some {
        Surface::Steam
    } else if app.is_heroic_game && app.heroic_platform is Some && app.heroic_app_name is Some {
        Surface::Heroic
    } else if app.is_flatpak && app.flatpak_app_id is Some {
        Surface::Flatpak
    } else {
        Surface::Native
    }
}

/// What to do to apply a choice to an application.
pub enum OverrideAction {
    /// Drop any native override, then set the Steam launch options of
    /// `app_id` with these variables (none for the default GPU).
    SteamLaunchOptions { app_id: String, env: Vec<String> },
    /// Merge these variables into the Heroic game config (none for the
    /// default GPU).
    HeroicEnv { platform: String, app_name: String, env: Vec<String> },
    /// Run `flatpak` with these arguments.
    FlatpakOverride { args: Vec<String> },
    /// Write the native override launcher for GPU `index`.
    WriteDesktopOverride { index: usize },
    /// Remove the native override launcher if this library owns it.
    RemoveDesktopOverride,
}

fn clone_string(s: &String) -> (r: String)
    ensures
        r@ == s@,
{
    String::from_str(s.as_str())
}

/// Chooses the single patcher for `(app, choice)` and what it must apply
/// (see `surface_of`).
pub fn apply_launcher_override(app: &DesktopApp, choice: GpuChoice, selected_gpu: Option<&GpuInfo>) -> (r:
    OverrideAction)
    ensures
        surface_of(*app) == Surface::Steam ==> (r matches OverrideAction::SteamLaunchOptions {
            app_id,
            env,
        } && Some(app_id@) == opt_view(app.steam_app_id) && views(env@) == match choice {
            GpuChoice::Default => Seq::empty(),
            GpuChoice::Gpu(i) => env_pairs(i as nat, true, profile_of(gpu_opt(selected_gpu))),
        }),
        surface_of(*app) == Surface::Heroic ==> (r matches OverrideAction::HeroicEnv {
            platform,
            app_name,
            env,
        } && Some(platform@) == opt_view(app.heroic_platform) && Some(app_name@) == opt_view(
            app.heroic_app_name,
        ) && views(env@) == match choice {
            GpuChoice::Default => Seq::empty(),
            GpuChoice::Gpu(i) => env_pairs(i as nat, false, profile_of(gpu_opt(selected_gpu))),
        }),
        surface_of(*app) == Surface::Flatpak ==> (r matches OverrideAction::FlatpakOverride { args }
            && views(args@) == flatpak_args(
            app.flatpak_app_id->0@,
            choice,
            profile_of(gpu_opt(selected_gpu)),
        )),
        surface_of(*app) == Surface::Native ==> match choice {
            GpuChoice::Default => r is RemoveDesktopOverride,
            GpuChoice::Gpu(i) => r matches OverrideAction::WriteDesktopOverride { index } && index
                == i,
        },
{
    if app.is_steam_game {
        if let Some(app_id) = &app.steam_app_id {
            return OverrideAction::SteamLaunchOptions {
                app_id: clone_string(app_id),
                env: steam_env_vars(choice, selected_gpu),
            };
        }
    }
    if app.is_heroic_game {
        if let (Some(platform), Some(app_name)) = (&app.heroic_platform, &app.heroic_app_name) {
            let env = match choice {
                GpuChoice::Default => {
                    let e: Vec<String> = Vec::new();
                    assert(views(e@) =~= Seq::empty());
                    e
                },
                GpuChoice::Gpu(index) => build_env_pairs(index, false, selected_gpu),
            };
            return OverrideAction::HeroicEnv {
                platform: clone_string(platform),
                app_name: clone_string(app_name),
                env,
            };
        }
    }
    if app.is_flatpak {
        if let Some(app_id) = &app.flatpak_app_id {
            return OverrideAction::FlatpakOverride {
                args: flatpak_override_args(app_id.as_str(), choice, selected_gpu),
            };
        }
    }
    match choice {
        GpuChoice::Default => OverrideAction::RemoveDesktopOverride,
        GpuChoice::Gpu(index) => OverrideAction::WriteDesktopOverride { index },
    }
}

/// The command the override launcher wraps: the source's `Exec=` value, or
/// the application's cleaned command when the source has none.
pub open spec fn override_command(source: Seq<char>, command: Seq<char>) -> Seq<char> {
    match exec_value(source) {
        Some(v) => v,
        None => command,
    }
}

/// The full text of the override launcher for GPU `index`, from the text of
/// the application's own desktop file.
pub fn desktop_override_content(
    source: &str,
    app: &DesktopApp,
    index: usize,
    selected_gpu: Option<&GpuInfo>,
) -> (r: String)
    ensures
        r@ == rewrite_spec(
            source@,
            wrapped_exec(
                override_command(source@, app.command@),
                index as nat,
                profile_of(gpu_opt(selected_gpu)),
            ),
            app.name@,
            opt_view(app.icon),
        ),
{
    let command = match desktop_exec_value(source) {
        Some(v) => v,
        None => clone_string(&app.command),
    };
    let wrapped = wrap_exec_for_gpu(command.as_str(), index, selected_gpu);
    rewrite_desktop_override_content(source, wrapped.as_str(), app)
}

/// Writing the override is refused when its path is the application's own
/// desktop file and that file does not carry the ownership marker (or
/// cannot be read: `None`).
pub open spec fn write_refused(app_path: Seq<char>, target_path: Seq<char>, target_content: Option<
    Seq<char>,
>) -> bool {
    app_path == target_path && !match target_content {
        Some(c) => contains(c, OVERRIDE_MARKER@),
        None => false,
    }
}

/// Whether the override launcher may be written (see `write_refused`).
pub fn may_write_override(app_path: &str, target_path: &str, target_content: Option<&str>) -> (r:
    bool)
    ensures
        r == !write_refused(
            app_path@,
            target_path@,
            match target_content {
                Some(c) => Some(c@),
                None => None,
            },
        ),
{
    let same = seq_eq(chars_of(app_path).as_slice(), chars_of(target_path).as_slice());
    let marked = match target_content {
        Some(c) => has_override_marker(c),
        None => false,
    };
    !(same && !marked)
}

/// Whether an existing override launcher is removed for the default GPU:
/// only when it exists (`Some`) and carries the ownership marker.
pub fn override_removable(content: Option<&str>) -> (r: bool)
    ensures
        r == match content {
            Some(c) => contains(c@, OVERRIDE_MARKER@),
            None => false,
        },
{
    match content {
        Some(c) => has_override_marker(c),
        None => false,
    }
}

proof fn lemma_fold_marker(ls: Seq<Seq<char>>, n: int, el: Seq<char>)
    ensures
        rewrite_fold(ls, n, el).2 ==> exists|k: int|
            0 <= k < rewrite_fold(ls, n, el).0.len() && rewrite_fold(ls, n, el).0[k]
                == OVERRIDE_MARKER@,
    decreases n,
{
    if 0 < n <= ls.len() {
        lemma_fold_marker(ls, n - 1, el);
        let prev = rewrite_fold(ls, n - 1, el);
        if prev.2 {
            let k = choose|k: int| 0 <= k < prev.0.len() && prev.0[k] == OVERRIDE_MARKER@;
            let cur = rewrite_fold(ls, n, el);
            assert(cur.0[k] == prev.0[k]);
        } else if rewrite_fold(ls, n, el).2 {
            let cur = rewrite_fold(ls, n, el);
            assert(cur.0[cur.0.len() - 1] == OVERRIDE_MARKER@);
        }
    }
}

/// Every launcher written for an override carries the ownership marker, so
/// choosing the default GPU afterwards removes it.
pub proof fn lemma_override_is_owned(
    source: Seq<char>,
    wrapped: Seq<char>,
    name: Seq<char>,
    icon: Option<Seq<char>>,
)
    ensures
        contains(rewrite_spec(source, wrapped, name, icon), OVERRIDE_MARKER@),
{
    let m = OVERRIDE_MARKER@;
    if trim(source).len() == 0 {
        let f = fresh_launcher(name, icon, wrapped);
        let head = "[Desktop Entry]\nType=Application\nName="@ + name + "\nIcon="@ + (match icon {
            Some(i) => i,
            None => "application-x-executable"@,
        }) + "\nExec="@ + wrapped + "\nTerminal=false\n"@;
        assert(f =~= head + m + "\n"@);
        assert(f.subrange(head.len() as int, (head.len() + m.len()) as int) =~= m);
        assert(occurs_at(f, m, head.len() as int));
    } else {
        let el = "Exec="@ + wrapped;
        let ls = lines(source);
        let st = rewrite_fold(ls, ls.len() as int, el);
        let out = st.0;
        let out2 = if !st.1 {
            out.insert(entry_insert_index(out, 0), el)
        } else {
            out
        };
        let out3 = if !st.2 {
            out2.push(m)
        } else {
            out2
        };
        lemma_fold_marker(ls, ls.len() as int, el);
        let k: int = if !st.2 {
            out2.len() as int
        } else {
            let k0 = choose|k: int| 0 <= k < out.len() && out[k] == m;
            if !st.1 {
                if k0 < entry_insert_index(out, 0) {
                    k0
                } else {
                    k0 + 1
                }
            } else {
                k0
            }
        };
        assert(0 <= entry_insert_index(out, 0) <= out.len()) by {
            lemma_entry_index_bound(out, 0);
        }
        assert(out3[k] == m);
        lemma_join_contains(out3, seq!['\n'], k);
        lemma_contains_extend(join(out3, seq!['\n']), seq!['\n'], m);
        assert(join(out3, seq!['\n']).push('\n') =~= join(out3, seq!['\n']) + seq!['\n']);
    }
}

proof fn lemma_entry_index_bound(out: Seq<Seq<char>>, i: int)
    requires
        0 <= i,
    ensures
        0 <= entry_insert_index(out, i) <= out.len(),
    decreases out.len() - i,
{
    if i < out.len() && trim(out[i]) != "[Desktop Entry]"@ {
        lemma_entry_index_bound(out, i + 1);
    }
}

} // verus!
