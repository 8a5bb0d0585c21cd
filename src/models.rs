//! The data handed between enumeration, classification and the patchers.
use vstd::prelude::*;
use crate::text::{chars_of, find_in, trim_all, trim_range};

verus! {

/// One render-capable GPU found on the host.
#[derive(Debug, Clone)]
pub struct GpuInfo {
    /// Device-tree name, such as `card1`.
    pub card: String,
    /// Human-readable name.
    pub name: String,
    /// Bound kernel driver.
    pub driver: Option<String>,
    /// PCI bus address, such as `0000:01:00.0`.
    pub pci_slot: Option<String>,
    /// Render node path, such as `/dev/dri/renderD128`.
    pub render_node: Option<String>,
    /// Enumeration index, once assigned.
    pub dri_prime_index: Option<usize>,
    /// Renderer string reported by an OpenGL or Vulkan query.
    pub renderer: Option<String>,
}

/// An installed application and the launch surface that starts it.
#[derive(Debug, Clone)]
pub struct DesktopApp {
    /// File name of its desktop entry, such as `org.foo.Bar.desktop`.
    pub desktop_id: String,
    /// Path of its desktop entry.
    pub path: String,
    pub name: String,
    pub icon: Option<String>,
    /// The `Exec` command with field codes removed.
    pub command: String,
    pub is_steam_game: bool,
    pub steam_app_id: Option<String>,
    pub is_heroic_game: bool,
    pub heroic_platform: Option<String>,
    pub heroic_app_name: Option<String>,
    pub is_flatpak: bool,
    pub flatpak_app_id: Option<String>,
}

/// Which GPU an application should run on.
#[derive(Debug, Clone, Copy, PartialEq, Eq, Structural)]
pub enum GpuChoice {
    /// Leave the application's launch untouched.
    Default,
    /// Force rendering onto the GPU with this enumeration index.
    Gpu(usize),
}

impl Default for GpuChoice {
    fn default() -> (r: GpuChoice)
        ensures
            r == GpuChoice::Default,
    {
        GpuChoice::Default
    }
}

/// The label shown for a choice.
pub open spec fn choice_label(c: GpuChoice) -> Seq<char> {
    match c {
        GpuChoice::Default => "Default GPU"@,
        GpuChoice::Gpu(i) => "GPU "@ + crate::text::decimal(i as nat),
    }
}

impl GpuChoice {
    /// `Default GPU`, or `GPU <index>`.
    pub fn label(&self) -> (r: String)
        ensures
            r@ == choice_label(*self),
    {
        match self {
            GpuChoice::Default => String::from_str("Default GPU"),
            GpuChoice::Gpu(idx) => {
                let mut v = crate::text::chars_of("GPU ");
                crate::text::extend(&mut v, crate::text::decimal_chars(*idx).as_slice());
                crate::text::string_of(v.as_slice())
            },
        }
    }
}

/// Stored preferences: the GPU assigned to each application and which
/// launch surfaces are listed.
pub struct AppConfig {
    /// `(desktop id, choice)` pairs; for a repeated id the last pair counts.
    pub assignments: Vec<(String, GpuChoice)>,
    pub show_steam_apps: bool,
    pub show_heroic_apps: bool,
    pub show_flatpak_apps: bool,
}

/// The value a missing display flag takes.
pub fn default_true() -> (r: bool)
    ensures
        r,
{
    true
}

impl Default for AppConfig {
    fn default() -> (r: AppConfig)
        ensures
            r.assignments@.len() == 0,
            r.show_steam_apps && r.show_heroic_apps && r.show_flatpak_apps,
    {
        AppConfig {
            assignments: Vec::new(),
            show_steam_apps: default_true(),
            show_heroic_apps: default_true(),
            show_flatpak_apps: default_true(),
        }
    }
}

/// The choice recorded last for `id` among the first `n` pairs.
pub open spec fn lookup_from(v: Seq<(String, GpuChoice)>, id: Seq<char>, n: int) -> Option<GpuChoice>
    decreases n,
{
    if n <= 0 || n > v.len() {
        None
    } else if v[n - 1].0@ == id {
        Some(v[n - 1].1)
    } else {
        lookup_from(v, id, n - 1)
    }
}

/// The choice recorded for `id`, if any.
pub open spec fn lookup(v: Seq<(String, GpuChoice)>, id: Seq<char>) -> Option<GpuChoice> {
    lookup_from(v, id, v.len() as int)
}

/// The index of the last pair for `id` among the first `n`.
pub open spec fn last_index(v: Seq<(String, GpuChoice)>, id: Seq<char>, n: int) -> Option<int>
    decreases n,
{
    if n <= 0 || n > v.len() {
        None
    } else if v[n - 1].0@ == id {
        Some(n - 1)
    } else {
        last_index(v, id, n - 1)
    }
}

fn find_last(v: &Vec<(String, GpuChoice)>, id: &str) -> (r: Option<usize>)
    ensures
        r is None <==> last_index(v@, id@, v@.len() as int) is None,
        r matches Some(i) ==> last_index(v@, id@, v@.len() as int) == Some(i as int) && i
            < v@.len(),
{
    let key = crate::text::chars_of(id);
    let mut n: usize = v.len();
    while n > 0
        invariant
            n <= v@.len(),
            key@ == id@,
            last_index(v@, id@, v@.len() as int) == last_index(v@, id@, n as int),
        decreases n,
    {
        let k = crate::text::chars_of(v[n - 1].0.as_str());
        if crate::text::seq_eq(k.as_slice(), key.as_slice()) {
            return Some(n - 1);
        }
        n -= 1;
    }
    None
}

proof fn lemma_lookup_index(v: Seq<(String, GpuChoice)>, id: Seq<char>, n: int)
    ensures
        match last_index(v, id, n) {
            Some(i) => 0 <= i < n && lookup_from(v, id, n) == Some(v[i].1),
            None => lookup_from(v, id, n) is None,
        },
    decreases n,
{
    if 0 < n <= v.len() && v[n - 1].0@ != id {
        lemma_lookup_index(v, id, n - 1);
    }
}

proof fn lemma_lookup_update(
    v: Seq<(String, GpuChoice)>,
    w: Seq<(String, GpuChoice)>,
    id: Seq<char>,
    i: int,
    other: Seq<char>,
    n: int,
)
    requires
        w.len() == v.len(),
        0 <= i < v.len(),
        w[i].0@ == id,
        v[i].0@ == id,
        forall|k: int| 0 <= k < v.len() && k != i ==> w[k] == v[k],
        other != id,
    ensures
        lookup_from(w, other, n) == lookup_from(v, other, n),
    decreases n,
{
    if 0 < n <= v.len() {
        lemma_lookup_update(v, w, id, i, other, n - 1);
    }
}

proof fn lemma_lookup_after(
    v: Seq<(String, GpuChoice)>,
    w: Seq<(String, GpuChoice)>,
    id: Seq<char>,
    i: int,
    n: int,
)
    requires
        w.len() == v.len(),
        0 <= i < n <= v.len(),
        forall|k: int| 0 <= k < v.len() && k != i ==> w[k] == v[k],
        forall|k: int| i < k < n ==> v[k].0@ != id,
        w[i].0@ == id,
    ensures
        lookup_from(w, id, n) == Some(w[i].1),
    decreases n,
{
    if n - 1 > i {
        lemma_lookup_after(v, w, id, i, n - 1);
    }
}

proof fn lemma_last_index_after(v: Seq<(String, GpuChoice)>, id: Seq<char>, n: int, i: int)
    requires
        last_index(v, id, n) == Some(i),
    ensures
        forall|k: int| i < k < n ==> v[k].0@ != id,
        0 <= i < n && v[i].0@ == id,
    decreases n,
{
    if 0 < n <= v.len() && v[n - 1].0@ != id {
        lemma_last_index_after(v, id, n - 1, i);
    }
}

proof fn lemma_lookup_push(v: Seq<(String, GpuChoice)>, x: (String, GpuChoice), other: Seq<char>, n: int)
    requires
        0 <= n <= v.len(),
    ensures
        lookup_from(v.push(x), other, n) == lookup_from(v, other, n),
    decreases n,
{
    if n > 0 {
        lemma_lookup_push(v, x, other, n - 1);
    }
}

/// The persisted preferences and where they are stored.
pub struct ConfigStore {
    path: String,
    data: AppConfig,
}

impl ConfigStore {
    /// The preferences as stored.
    pub closed spec fn spec_data(&self) -> AppConfig {
        self.data
    }

    /// Where the preferences are stored.
    pub closed spec fn spec_path(&self) -> Seq<char> {
        self.path@
    }

    /// A store for `data`, saved at `path`.
    pub fn from_parts(path: String, data: AppConfig) -> (r: ConfigStore)
        ensures
            r.spec_data() == data,
            r.spec_path() == path@,
    {
        ConfigStore { path, data }
    }

    /// Where the preferences are saved.
    pub fn path(&self) -> (r: &String)
        ensures
            r@ == self.spec_path(),
    {
        &self.path
    }

    /// The preferences.
    pub fn data(&self) -> (r: &AppConfig)
        ensures
            *r == self.spec_data(),
    {
        &self.data
    }

    /// The GPU chosen for an application; the default GPU when none was.
    pub fn get_choice(&self, desktop_id: &str) -> (r: GpuChoice)
        ensures
            r == match lookup(self.spec_data().assignments@, desktop_id@) {
                Some(c) => c,
                None => GpuChoice::Default,
            },
    {
        proof {
            lemma_lookup_index(self.data.assignments@, desktop_id@, self.data.assignments@.len() as int);
        }
        match find_last(&self.data.assignments, desktop_id) {
            Some(i) => self.data.assignments[i].1,
            None => GpuChoice::Default,
        }
    }

    /// Records the GPU chosen for an application; other choices are kept.
    pub fn set_choice(&mut self, desktop_id: &str, choice: GpuChoice)
        ensures
            lookup(final(self).spec_data().assignments@, desktop_id@) == Some(choice),
            forall|other: Seq<char>|
                other != desktop_id@ ==> lookup(final(self).spec_data().assignments@, other)
                    == lookup(old(self).spec_data().assignments@, other),
            final(self).spec_data().show_steam_apps == old(self).spec_data().show_steam_apps,
            final(self).spec_data().show_heroic_apps == old(self).spec_data().show_heroic_apps,
            final(self).spec_data().show_flatpak_apps == old(self).spec_data().show_flatpak_apps,
    {
        let ghost v = self.data.assignments@;
        match find_last(&self.data.assignments, desktop_id) {
            Some(i) => {
                let (k, _) = self.data.assignments.remove(i);
                self.data.assignments.insert(i, (k, choice));
                proof {
                    let w = self.data.assignments@;
                    lemma_last_index_after(v, desktop_id@, v.len() as int, i as int);
                    assert(w[i as int].0 == v[i as int].0);
                    lemma_lookup_after(v, w, desktop_id@, i as int, v.len() as int);
                    assert forall|other: Seq<char>| other != desktop_id@ implies lookup(w, other)
                        == lookup(v, other) by {
                        lemma_lookup_update(v, w, desktop_id@, i as int, other, v.len() as int);
                    }
                }
            },
            None => {
                let id = String::from_str(desktop_id);
                self.data.assignments.push((id, choice));
                proof {
                    let w = self.data.assignments@;
                    assert forall|other: Seq<char>| other != desktop_id@ implies lookup(w, other)
                        == lookup(v, other) by {
                        lemma_lookup_push(v, w[v.len() as int], other, v.len() as int);
                        assert(w == v.push(w[v.len() as int]));
                    }
                }
            },
        }
    }

    pub fn show_steam_apps(&self) -> (r: bool)
        ensures
            r == self.spec_data().show_steam_apps,
    {
        self.data.show_steam_apps
    }

    pub fn set_show_steam_apps(&mut self, value: bool)
        ensures
            final(self).spec_data().show_steam_apps == value,
            final(self).spec_data().show_heroic_apps == old(self).spec_data().show_heroic_apps,
            final(self).spec_data().show_flatpak_apps == old(self).spec_data().show_flatpak_apps,
            final(self).spec_data().assignments == old(self).spec_data().assignments,
    {
        self.data.show_steam_apps = value;
    }

    pub fn show_heroic_apps(&self) -> (r: bool)
        ensures
            r == self.spec_data().show_heroic_apps,
    {
        self.data.show_heroic_apps
    }

    pub fn set_show_heroic_apps(&mut self, value: bool)
        ensures
            final(self).spec_data().show_heroic_apps == value,
            final(self).spec_data().show_steam_apps == old(self).spec_data().show_steam_apps,
            final(self).spec_data().show_flatpak_apps == old(self).spec_data().show_flatpak_apps,
            final(self).spec_data().assignments == old(self).spec_data().assignments,
    {
        self.data.show_heroic_apps = value;
    }

    pub fn show_flatpak_apps(&self) -> (r: bool)
        ensures
            r == self.spec_data().show_flatpak_apps,
    {
        self.data.show_flatpak_apps
    }

    pub fn set_show_flatpak_apps(&mut self, value: bool)
        ensures
            final(self).spec_data().show_flatpak_apps == value,
            final(self).spec_data().show_steam_apps == old(self).spec_data().show_steam_apps,
            final(self).spec_data().show_heroic_apps == old(self).spec_data().show_heroic_apps,
            final(self).spec_data().assignments == old(self).spec_data().assignments,
    {
        self.data.show_flatpak_apps = value;
    }
}

/// Vendor decorations removed from a GPU name.
pub open spec fn name_noise() -> Seq<Seq<char>> {
    seq!["(TM)"@, "(tm)"@, "(R)"@, "(r)"@, "Corporation"@, "Inc."@]
}

/// Separators after which a GPU name only carries details.
pub open spec fn name_splitters() -> Seq<Seq<char>> {
    seq![" ("@, ", "@, " ["@, " / "@]
}

/// `s` with the first `n` decorations removed in turn.
pub open spec fn remove_noise(s: Seq<char>, n: int) -> Seq<char>
    decreases n,
{
    if n <= 0 || n > name_noise().len() {
        s
    } else {
        crate::desktop::remove_all(remove_noise(s, n - 1), name_noise()[n - 1])
    }
}

/// `s` cut, in turn, before the first of each of the first `n` separators.
pub open spec fn cut_details(s: Seq<char>, n: int) -> Seq<char>
    decreases n,
{
    if n <= 0 || n > name_splitters().len() {
        s
    } else {
        let c = cut_details(s, n - 1);
        match crate::text::find(c, name_splitters()[n - 1]) {
            Some(k) => crate::text::trim(c.subrange(0, k)),
            None => c,
        }
    }
}

/// The short model name of a GPU: its renderer string when known (else its
/// name), without a `vendor:` prefix, decorations, details after a
/// separator, or text after `Series`, with single spaces.
pub open spec fn filter_name(g: GpuInfo) -> Seq<char> {
    let source = match g.renderer {
        Some(r) => if crate::text::trim(r@).len() > 0 {
            r@
        } else {
            g.name@
        },
        None => g.name@,
    };
    let c0 = crate::text::trim(source);
    let c1 = match crate::text::find(c0, ":"@) {
        Some(k) => crate::text::trim(c0.subrange(k + 1, c0.len() as int)),
        None => c0,
    };
    let c3 = cut_details(remove_noise(c1, 6), 4);
    let c4 = match crate::text::find(c3, "Series"@) {
        Some(p) => crate::text::trim(c3.subrange(0, p + "Series"@.len())),
        None => c3,
    };
    crate::text::join(crate::text::words(c4), seq![' '])
}

impl GpuInfo {
    /// The short model name used to match and display a GPU (see `filter_name`).
    pub fn name_for_filter(&self) -> (r: String)
        ensures
            r@ == filter_name(*self),
    {
        let source = match &self.renderer {
            Some(r) => {
                let rc = chars_of(r.as_str());
                if trim_all(rc.as_slice()).len() > 0 {
                    rc
                } else {
                    chars_of(self.name.as_str())
                }
            },
            None => chars_of(self.name.as_str()),
        };
        let mut c = trim_all(source.as_slice());
        let colon = chars_of(":");
        match find_in(c.as_slice(), colon.as_slice(), 0, c.len()) {
            Some(k) => {
                proof {
                    reveal_strlit(":");
                }
                c = trim_range(c.as_slice(), k + 1, c.len());
            },
            None => {},
        }
        let noise: [&str; 6] = ["(TM)", "(tm)", "(R)", "(r)", "Corporation", "Inc."];
        let ghost c1 = c@;
        let mut n: usize = 0;
        while n < 6
            invariant
                n <= 6,
                c@ == remove_noise(c1, n as int),
                forall|j: int| 0 <= j < 6 ==> (#[trigger] noise@[j])@ == name_noise()[j],
            decreases 6 - n,
        {
            c = crate::desktop::remove_all_exec(c.as_slice(), chars_of(noise[n]).as_slice());
            n += 1;
        }
        let splitters: [&str; 4] = [" (", ", ", " [", " / "];
        let ghost c2 = c@;
        let mut m: usize = 0;
        while m < 4
            invariant
                m <= 4,
                c@ == cut_details(c2, m as int),
                forall|j: int| 0 <= j < 4 ==> (#[trigger] splitters@[j])@ == name_splitters()[j],
            decreases 4 - m,
        {
            let sp = chars_of(splitters[m]);
            match find_in(c.as_slice(), sp.as_slice(), 0, c.len()) {
                Some(k) => {
                    c = trim_range(c.as_slice(), 0, k);
                },
                None => {},
            }
            m += 1;
        }
        let series = chars_of("Series");
        match find_in(c.as_slice(), series.as_slice(), 0, c.len()) {
            Some(p) => {
                c = trim_range(c.as_slice(), 0, p + series.len());
            },
            None => {},
        }
        let w = crate::text::split_words(c.as_slice());
        let sp: Vec<char> = vec![' '];
        assert(sp@ == seq![' ']);
        crate::text::string_of(crate::text::join_vecs(w.as_slice(), sp.as_slice()).as_slice())
    }
}

} // verus!
