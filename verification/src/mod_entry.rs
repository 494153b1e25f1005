//! Mod metadata: the record kept per installed mod, how it is built from a
//! mod folder and its `About.xml` data, the order of the game's own content
//! folders, and the status checks shown beside each mod in the lists.
use vstd::prelude::*;
use crate::text::{
    all_digits, contains_str, decimal, lemma_decimal_roundtrip, is_digit, is_digit_char, lowercase, parse_u64, parse_u64_spec,
    push_str, str_eq, string_of, strings_view, to_chars, to_lowercase,
};

verus! {

/// Where a mod comes from.
#[derive(Debug, Clone, PartialEq)]
pub enum ModSource {
    /// `Data/Core` of the game.
    Core,
    /// A DLC folder of `Data/`, by folder name.
    DLC(String),
    /// A folder of the local mods directory.
    Local,
    /// A Steam Workshop item, by id.
    Workshop(u64),
}

/// The value of a [`ModSource`].
pub enum ModSourceView {
    Core,
    DLC(Seq<char>),
    Local,
    Workshop(u64),
}

impl View for ModSource {
    type V = ModSourceView;

    open spec fn view(&self) -> ModSourceView {
        match self {
            ModSource::Core => ModSourceView::Core,
            ModSource::DLC(s) => ModSourceView::DLC(s@),
            ModSource::Local => ModSourceView::Local,
            ModSource::Workshop(id) => ModSourceView::Workshop(*id),
        }
    }
}

/// One installed mod. Package ids and the ids in the dependency and
/// load-order lists are kept in lower case; paths are `/`-separated text.
#[derive(Debug, Clone, PartialEq)]
pub struct ModEntry {
    pub name: String,
    pub package_id: String,
    pub version: String,
    pub author: String,
    pub supported_versions: Vec<String>,
    pub path: String,
    pub source: ModSource,
    pub dependencies: Vec<String>,
    pub load_after: Vec<String>,
    pub load_before: Vec<String>,
    pub incompatible_with: Vec<String>,
    pub is_active: bool,
    pub description: String,
    pub preview_path: Option<String>,
}

/// What a mod's `About/About.xml` declares.
#[derive(Debug, Clone, PartialEq)]
pub struct AboutData {
    pub name: String,
    pub package_id: String,
    pub version: String,
    pub author: String,
    pub supported_versions: Vec<String>,
    pub dependencies: Vec<String>,
    pub load_after: Vec<String>,
    pub load_before: Vec<String>,
    pub incompatible_with: Vec<String>,
    pub description: String,
}

/// What is known of one directory entry: its path, its file name when that
/// is valid UTF-8, the bytes of its file name as the platform encodes them
/// (what file names are compared by), and its kind.
#[derive(Debug, Clone, PartialEq)]
pub struct DirEntryInfo {
    pub path: String,
    pub name: Option<String>,
    pub name_bytes: Vec<u8>,
    pub is_file: bool,
    pub is_dir: bool,
}

// ─── Building entries ────────────────────────────────────────────────────────

/// Every id of a list, lower-cased, in order.
pub open spec fn lowered(ids: Seq<String>) -> Seq<Seq<char>> {
    ids.map_values(|s: String| lowercase(s@))
}

/// Lower-cases every id of a list.
pub fn lower_ids(ids: Vec<String>) -> (r: Vec<String>)
    ensures
        strings_view(r@) == lowered(ids@),
{
    let mut r: Vec<String> = Vec::new();
    let mut i: usize = 0;
    while i < ids.len()
        invariant
            i <= ids.len(),
            strings_view(r@) == lowered(ids@.take(i as int)),
        decreases ids.len() - i,
    {
        let ghost before = r@;
        r.push(to_lowercase(ids[i].as_str()));
        proof {
            assert(strings_view(r@) =~= strings_view(before).push(lowercase(ids@[i as int]@)));
            assert(lowered(ids@.take(i + 1)) =~= lowered(ids@.take(i as int)).push(
                lowercase(ids@[i as int]@),
            ));
        }
        i = i + 1;
    }
    assert(ids@.take(ids.len() as int) =~= ids@);
    r
}

/// The name a mod is shown under: the declared one, or the folder name when
/// none is declared.
pub open spec fn shown_name(declared: Seq<char>, folder_name: Seq<char>) -> Seq<char> {
    if declared.len() == 0 {
        folder_name
    } else {
        declared
    }
}

/// The entry for a mod folder: declared data with ids lower-cased, the
/// folder name as name when none is declared, inactive.
pub fn entry_from_about(
    about: AboutData,
    folder_name: String,
    path: String,
    source: ModSource,
    preview_path: Option<String>,
) -> (r: ModEntry)
    ensures
        r.name@ == shown_name(about.name@, folder_name@),
        r.package_id@ == lowercase(about.package_id@),
        r.version == about.version,
        r.author == about.author,
        r.supported_versions == about.supported_versions,
        r.path == path,
        r.source == source,
        strings_view(r.dependencies@) == lowered(about.dependencies@),
        strings_view(r.load_after@) == lowered(about.load_after@),
        strings_view(r.load_before@) == lowered(about.load_before@),
        strings_view(r.incompatible_with@) == lowered(about.incompatible_with@),
        !r.is_active,
        r.description == about.description,
        r.preview_path == preview_path,
{
    let name = if about.name.as_str().is_empty() {
        folder_name
    } else {
        about.name
    };
    let package_id = to_lowercase(about.package_id.as_str());
    ModEntry {
        name,
        package_id,
        version: about.version,
        author: about.author,
        supported_versions: about.supported_versions,
        path,
        source,
        dependencies: lower_ids(about.dependencies),
        load_after: lower_ids(about.load_after),
        load_before: lower_ids(about.load_before),
        incompatible_with: lower_ids(about.incompatible_with),
        is_active: false,
        description: about.description,
        preview_path,
    }
}

/// The source of a folder of the local mods directory: a Workshop item when
/// the folder name is all digits and fits a `u64`, a local mod otherwise.
pub open spec fn local_source_spec(folder_name: Seq<char>) -> ModSourceView {
    if all_digits(folder_name) {
        match parse_u64_spec(folder_name) {
            Some(id) => ModSourceView::Workshop(id),
            None => ModSourceView::Local,
        }
    } else {
        ModSourceView::Local
    }
}

/// A local folder named by the decimal rendering of a Workshop id is that
/// Workshop item.
pub proof fn lemma_workshop_folder(id: u64)
    ensures
        local_source_spec(decimal(id as nat)) == ModSourceView::Workshop(id),
{
    lemma_decimal_roundtrip(id);
}

/// The source of a folder of the local mods directory.
pub fn local_source(folder_name: &str) -> (r: ModSource)
    ensures
        r@ == local_source_spec(folder_name@),
{
    let cs = to_chars(folder_name);
    let mut i: usize = 0;
    while i < cs.len()
        invariant
            i <= cs.len(),
            cs@ == folder_name@,
            forall|j: int| 0 <= j < i ==> is_digit(#[trigger] cs@[j]),
        decreases cs.len() - i,
    {
        if !is_digit_char(cs[i]) {
            proof {
                assert(!is_digit(folder_name@[i as int]));
            }
            return ModSource::Local;
        }
        i = i + 1;
    }
    match parse_u64(folder_name) {
        Some(id) => ModSource::Workshop(id),
        None => ModSource::Local,
    }
}

/// The source of a folder of the game's `Data/`: `Core` is the base game,
/// any other folder a DLC of that name.
pub fn dlc_source(folder_name: &str) -> (r: ModSource)
    ensures
        folder_name@ == "Core"@ ==> r@ == ModSourceView::Core,
        folder_name@ != "Core"@ ==> r@ == ModSourceView::DLC(folder_name@),
{
    if str_eq(folder_name, "Core") {
        ModSource::Core
    } else {
        ModSource::DLC(string_of(folder_name))
    }
}

// ─── Preview images ──────────────────────────────────────────────────────────

/// The lower-case file names accepted as a mod's preview image.
pub open spec fn is_preview_name(lower: Seq<char>) -> bool {
    lower == "preview.png"@ || lower == "preview.jpg"@ || lower == "preview.jpeg"@ || lower
        == "preview.webp"@ || lower == "preview.gif"@
}

/// Whether a file name names a preview image, whatever its case.
pub fn is_preview_file_name(name: &str) -> (r: bool)
    ensures
        r == is_preview_name(lowercase(name@)),
{
    let lower = to_lowercase(name);
    let l = lower.as_str();
    str_eq(l, "preview.png") || str_eq(l, "preview.jpg") || str_eq(l, "preview.jpeg") || str_eq(
        l,
        "preview.webp",
    ) || str_eq(l, "preview.gif")
}

/// Whether a directory entry is a preview image.
pub open spec fn is_preview_entry(e: DirEntryInfo) -> bool {
    e.is_file && e.name is Some && is_preview_name(lowercase(e.name->0@))
}

/// The path of the first entry (in the order given) of a mod's `About/`
/// folder that is a file named like a preview image.
pub fn find_preview_image(entries: &Vec<DirEntryInfo>) -> (r: Option<String>)
    ensures
        match r {
            Some(p) => exists|i: int|
                0 <= i < entries.len() && is_preview_entry(#[trigger] entries@[i]) && p
                    == entries@[i].path && forall|j: int|
                    0 <= j < i ==> !is_preview_entry(#[trigger] entries@[j]),
            None => forall|i: int| 0 <= i < entries.len() ==> !is_preview_entry(#[trigger] entries@[i]),
        },
{
    let mut i: usize = 0;
    while i < entries.len()
        invariant
            i <= entries.len(),
            forall|j: int| 0 <= j < i ==> !is_preview_entry(#[trigger] entries@[j]),
        decreases entries.len() - i,
    {
        let e = &entries[i];
        if e.is_file {
            if let Some(n) = &e.name {
                if is_preview_file_name(n.as_str()) {
                    proof {
                        assert(is_preview_entry(entries@[i as int]));
                    }
                    return Some(e.path.clone());
                }
            }
        }
        i = i + 1;
    }
    None
}

// ─── Order of the game's content folders ─────────────────────────────────────

/// `a` comes before `b` in lexicographic byte order (a proper prefix first).
pub open spec fn bytes_lt(a: Seq<u8>, b: Seq<u8>) -> bool
    decreases a.len(),
{
    if a.len() == 0 {
        b.len() > 0
    } else if b.len() == 0 {
        false
    } else if a[0] != b[0] {
        a[0] < b[0]
    } else {
        bytes_lt(a.skip(1), b.skip(1))
    }
}

proof fn lemma_bytes_irreflexive(a: Seq<u8>)
    ensures
        !bytes_lt(a, a),
    decreases a.len(),
{
    if a.len() > 0 {
        lemma_bytes_irreflexive(a.skip(1));
    }
}

proof fn lemma_bytes_trichotomy(a: Seq<u8>, b: Seq<u8>)
    ensures
        bytes_lt(a, b) || bytes_lt(b, a) || a == b,
        !(bytes_lt(a, b) && bytes_lt(b, a)),
    decreases a.len(),
{
    if a.len() > 0 && b.len() > 0 {
        if a[0] == b[0] {
            lemma_bytes_trichotomy(a.skip(1), b.skip(1));
            if a.skip(1) == b.skip(1) {
                assert(a =~= seq![a[0]] + a.skip(1));
                assert(b =~= seq![b[0]] + b.skip(1));
            }
        }
    } else if a.len() == 0 && b.len() == 0 {
        assert(a =~= b);
    }
}

proof fn lemma_bytes_transitive(a: Seq<u8>, b: Seq<u8>, c: Seq<u8>)
    requires
        bytes_lt(a, b),
        bytes_lt(b, c),
    ensures
        bytes_lt(a, c),
    decreases a.len(),
{
    if a.len() > 0 && b.len() > 0 && c.len() > 0 {
        if a[0] == b[0] && b[0] == c[0] {
            lemma_bytes_transitive(a.skip(1), b.skip(1), c.skip(1));
        }
    }
}

/// Whether two byte strings compare `bytes_lt`.
pub fn bytes_less(a: &Vec<u8>, b: &Vec<u8>) -> (r: bool)
    ensures
        r == bytes_lt(a@, b@),
{
    let mut i: usize = 0;
    assert(a@.skip(0) =~= a@);
    assert(b@.skip(0) =~= b@);
    while i < a.len() && i < b.len() && a[i] == b[i]
        invariant
            i <= a.len(),
            i <= b.len(),
            bytes_lt(a@, b@) == bytes_lt(a@.skip(i as int), b@.skip(i as int)),
        decreases a.len() - i,
    {
        proof {
            let x = a@.skip(i as int);
            let y = b@.skip(i as int);
            assert(x[0] == y[0]);
            assert(x.skip(1) =~= a@.skip(i + 1));
            assert(y.skip(1) =~= b@.skip(i + 1));
        }
        i = i + 1;
    }
    if i == a.len() {
        i < b.len()
    } else if i == b.len() {
        false
    } else {
        proof {
            assert(a@.skip(i as int)[0] == a@[i as int]);
            assert(b@.skip(i as int)[0] == b@[i as int]);
        }
        a[i] < b[i]
    }
}

/// The bytes of the name `Core`.
pub open spec fn core_bytes() -> Seq<u8> {
    seq![67u8, 111u8, 114u8, 101u8]
}

/// The sort key of a content folder: whether it is named `Core`, and the
/// bytes of its name.
pub open spec fn folder_key(e: DirEntryInfo) -> (bool, Seq<u8>) {
    (e.name_bytes@ == core_bytes(), e.name_bytes@)
}

/// Content folder order: `Core` first, the others by name.
pub open spec fn key_lt(a: (bool, Seq<u8>), b: (bool, Seq<u8>)) -> bool {
    (a.0 && !b.0) || (a.0 == b.0 && bytes_lt(a.1, b.1))
}

proof fn lemma_key_order(a: (bool, Seq<u8>), b: (bool, Seq<u8>), c: (bool, Seq<u8>))
    ensures
        !key_lt(a, a),
        key_lt(a, b) ==> !key_lt(b, a),
        !key_lt(a, b) ==> key_lt(b, a) || a == b,
        key_lt(a, b) && !key_lt(c, b) ==> key_lt(a, c),
{
    lemma_bytes_irreflexive(a.1);
    lemma_bytes_trichotomy(a.1, b.1);
    lemma_bytes_trichotomy(b.1, c.1);
    lemma_bytes_trichotomy(a.1, c.1);
    if key_lt(a, b) && !key_lt(c, b) {
        if bytes_lt(a.1, b.1) && bytes_lt(b.1, c.1) {
            lemma_bytes_transitive(a.1, b.1, c.1);
        }
    }
}

/// The entries of `s` that are directories, in order.
pub open spec fn dirs_of(s: Seq<DirEntryInfo>) -> Seq<DirEntryInfo>
    decreases s.len(),
{
    if s.len() == 0 {
        Seq::<DirEntryInfo>::empty()
    } else if s.last().is_dir {
        dirs_of(s.drop_last()).push(s.last())
    } else {
        dirs_of(s.drop_last())
    }
}

/// The directories among the entries of the local mods folder, in listing
/// order; each is a candidate mod folder.
pub fn local_mod_folders(entries: Vec<DirEntryInfo>) -> (r: Vec<DirEntryInfo>)
    ensures
        r@ == dirs_of(entries@),
{
    let ghost all = entries@;
    let n = entries.len();
    let mut rest = entries;
    let mut r: Vec<DirEntryInfo> = Vec::new();
    let mut i: usize = 0;
    while i < n
        invariant
            i <= n,
            n == all.len(),
            rest@ == all.skip(i as int),
            r@ == dirs_of(all.take(i as int)),
        decreases n - i,
    {
        let e = rest.remove(0);
        proof {
            assert(e == all[i as int]);
            assert(rest@ =~= all.skip(i + 1));
            let t = all.take(i + 1);
            assert(t.drop_last() =~= all.take(i as int));
            assert(t.last() == all[i as int]);
        }
        if e.is_dir {
            r.push(e);
        }
        i = i + 1;
    }
    assert(all.take(n as int) =~= all);
    r
}

/// `s` is in content folder order.
pub open spec fn folders_sorted(s: Seq<DirEntryInfo>) -> bool {
    forall|i: int, j: int|
        0 <= i < j < s.len() ==> !key_lt(folder_key(#[trigger] s[j]), folder_key(#[trigger] s[i]))
}

fn is_core_name(b: &Vec<u8>) -> (r: bool)
    ensures
        r == (b@ == core_bytes()),
{
    if b.len() == 4 && b[0] == 67 && b[1] == 111 && b[2] == 114 && b[3] == 101 {
        assert(b@ =~= core_bytes());
        true
    } else {
        false
    }
}

fn entry_key(e: &DirEntryInfo) -> (r: (bool, Vec<u8>))
    ensures
        r.0 == folder_key(*e).0,
        r.1@ == folder_key(*e).1,
{
    (is_core_name(&e.name_bytes), e.name_bytes.clone())
}

fn key_less(a: &(bool, Vec<u8>), b: &(bool, Vec<u8>)) -> (r: bool)
    ensures
        r == key_lt((a.0, a.1@), (b.0, b.1@)),
{
    (a.0 && !b.0) || (a.0 == b.0 && bytes_less(&a.1, &b.1))
}

/// The directories among the entries of the game's `Data/` folder, `Core`
/// first and the others by the bytes of their names; a folder named `Core`
/// comes before every other folder.
pub fn order_dlc_folders(entries: Vec<DirEntryInfo>) -> (r: Vec<DirEntryInfo>)
    ensures
        r@.to_multiset() == dirs_of(entries@).to_multiset(),
        folders_sorted(r@),
        forall|k: int| 0 <= k < r.len() ==> (#[trigger] r@[k]).is_dir,
        forall|i: int, j: int|
            0 <= i < j < r.len() && folder_key(#[trigger] r@[j]).0 ==> folder_key(
                #[trigger] r@[i],
            ).0,
{
    let ghost all = entries@;
    let n = entries.len();
    let mut rest = entries;
    let mut res: Vec<DirEntryInfo> = Vec::new();
    let mut keys: Vec<(bool, Vec<u8>)> = Vec::new();
    let mut i: usize = 0;
    while i < n
        invariant
            i <= n,
            n == all.len(),
            rest@ == all.skip(i as int),
            res.len() == keys.len(),
            forall|k: int|
                0 <= k < res.len() ==> (#[trigger] keys@[k]).0 == folder_key(res@[k]).0
                    && keys@[k].1@ == folder_key(res@[k]).1,
            res@.to_multiset() == dirs_of(all.take(i as int)).to_multiset(),
            folders_sorted(res@),
            forall|k: int| 0 <= k < res.len() ==> (#[trigger] res@[k]).is_dir,
        decreases n - i,
    {
        let e = rest.remove(0);
        proof {
            assert(e == all[i as int]);
            assert(rest@ =~= all.skip(i + 1));
            let t = all.take(i + 1);
            assert(t.drop_last() =~= all.take(i as int));
            assert(t.last() == all[i as int]);
        }
        if e.is_dir {
            let key = entry_key(&e);
            let ghost kx = folder_key(e);
            let mut p: usize = 0;
            while p < res.len() && !key_less(&key, &keys[p])
                invariant
                    p <= res.len(),
                    res.len() == keys.len(),
                    key.0 == kx.0 && key.1@ == kx.1,
                    forall|k: int|
                        0 <= k < res.len() ==> (#[trigger] keys@[k]).0 == folder_key(res@[k]).0
                            && keys@[k].1@ == folder_key(res@[k]).1,
                    forall|k: int| 0 <= k < p ==> !key_lt(kx, folder_key(#[trigger] res@[k])),
                decreases res.len() - p,
            {
                p = p + 1;
            }
            let ghost old_res = res@;
            proof {
                if p < res.len() {
                    assert(key_lt(kx, folder_key(res@[p as int])));
                    assert forall|k: int| p <= k < res.len() implies key_lt(
                        kx,
                        folder_key(#[trigger] res@[k]),
                    ) by {
                        if k > p {
                            assert(!key_lt(folder_key(res@[k]), folder_key(res@[p as int])));
                        }
                        lemma_key_order(kx, folder_key(res@[p as int]), folder_key(res@[k]));
                    }
                }
            }
            res.insert(p, e);
            keys.insert(p, key);
            proof {
                let s = res@;
                assert(s.remove(p as int) =~= old_res);
                s.to_multiset_ensures();
                old_res.to_multiset_ensures();
                assert(s[p as int] == all[i as int]);
                assert(s.contains(s[p as int]));
                assert(old_res.to_multiset() =~= s.to_multiset().remove(s[p as int]));
                assert(s.to_multiset() =~= old_res.to_multiset().insert(s[p as int]));
                let d = dirs_of(all.take(i as int));
                d.to_multiset_ensures();
                assert(dirs_of(all.take(i + 1)) == d.push(all[i as int]));
                assert forall|a: int, b: int| 0 <= a < b < s.len() implies !key_lt(
                    folder_key(#[trigger] s[b]),
                    folder_key(#[trigger] s[a]),
                ) by {
                    if a < p && b < p {
                        assert(s[a] == old_res[a] && s[b] == old_res[b]);
                    } else if a < p && b == p {
                        assert(s[a] == old_res[a]);
                        lemma_key_order(folder_key(s[a]), kx, kx);
                        lemma_key_order(kx, folder_key(s[a]), kx);
                    } else if a < p && b > p {
                        assert(s[a] == old_res[a] && s[b] == old_res[b - 1]);
                    } else if a == p {
                        assert(s[b] == old_res[b - 1]);
                        lemma_key_order(kx, folder_key(s[b]), kx);
                    } else {
                        assert(s[a] == old_res[a - 1] && s[b] == old_res[b - 1]);
                    }
                }
                assert forall|k: int| 0 <= k < res.len() implies (#[trigger] keys@[k]).0 == folder_key(
                    res@[k],
                ).0 && keys@[k].1@ == folder_key(res@[k]).1 by {
                    if k > p {
                        assert(res@[k] == old_res[k - 1]);
                    } else if k < p {
                        assert(res@[k] == old_res[k]);
                    }
                }
                assert forall|k: int| 0 <= k < res.len() implies (#[trigger] res@[k]).is_dir by {
                    if k > p {
                        assert(res@[k] == old_res[k - 1]);
                    } else if k < p {
                        assert(res@[k] == old_res[k]);
                    }
                }
            }
        }
        proof {
            if !all[i as int].is_dir {
                assert(dirs_of(all.take(i + 1)) == dirs_of(all.take(i as int)));
            }
        }
        i = i + 1;
    }
    assert(all.take(n as int) =~= all);
    proof {
        assert forall|a: int, b: int|
            0 <= a < b < res.len() && folder_key(#[trigger] res@[b]).0 implies folder_key(
            #[trigger] res@[a],
        ).0 by {
            if !folder_key(res@[a]).0 {
                assert(key_lt(folder_key(res@[b]), folder_key(res@[a])));
            }
        }
    }
    res
}

// ─── Status shown beside a mod ───────────────────────────────────────────────

/// The package ids of the active mods, in list order.
pub open spec fn active_ids(mods: Seq<ModEntry>) -> Seq<Seq<char>>
    decreases mods.len(),
{
    if mods.len() == 0 {
        Seq::<Seq<char>>::empty()
    } else if mods.last().is_active {
        active_ids(mods.drop_last()).push(mods.last().package_id@)
    } else {
        active_ids(mods.drop_last())
    }
}

/// The package ids of the active mods.
pub fn active_package_ids(mods: &Vec<ModEntry>) -> (r: Vec<String>)
    ensures
        strings_view(r@) == active_ids(mods@),
{
    let mut r: Vec<String> = Vec::new();
    let mut i: usize = 0;
    while i < mods.len()
        invariant
            i <= mods.len(),
            strings_view(r@) == active_ids(mods@.take(i as int)),
        decreases mods.len() - i,
    {
        let ghost before = r@;
        if mods[i].is_active {
            r.push(mods[i].package_id.clone());
        }
        proof {
            let t = mods@.take(i + 1);
            assert(t.drop_last() =~= mods@.take(i as int));
            assert(t.last() == mods@[i as int]);
            if mods@[i as int].is_active {
                assert(strings_view(r@) =~= strings_view(before).push(mods@[i as int].package_id@));
            } else {
                assert(strings_view(r@) =~= strings_view(before));
            }
        }
        i = i + 1;
    }
    assert(mods@.take(mods.len() as int) =~= mods@);
    r
}

/// The number of active mods.
pub open spec fn active_count(mods: Seq<ModEntry>) -> nat
    decreases mods.len(),
{
    if mods.len() == 0 {
        0
    } else {
        active_count(mods.drop_last()) + if mods.last().is_active {
            1nat
        } else {
            0nat
        }
    }
}

/// Counts the active mods.
pub fn count_active(mods: &Vec<ModEntry>) -> (r: usize)
    ensures
        r == active_count(mods@),
{
    let mut n: usize = 0;
    let mut i: usize = 0;
    while i < mods.len()
        invariant
            i <= mods.len(),
            n == active_count(mods@.take(i as int)),
            n <= i,
        decreases mods.len() - i,
    {
        if mods[i].is_active {
            n = n + 1;
        }
        proof {
            let t = mods@.take(i + 1);
            assert(t.drop_last() =~= mods@.take(i as int));
            assert(t.last() == mods@[i as int]);
        }
        i = i + 1;
    }
    assert(mods@.take(mods.len() as int) =~= mods@);
    n
}

/// Whether some entry of `ids` is missing from `present`.
pub open spec fn any_missing(ids: Seq<Seq<char>>, present: Seq<Seq<char>>) -> bool {
    exists|k: int| 0 <= k < ids.len() && !present.contains(#[trigger] ids[k])
}

/// Whether some entry of `ids` is in `present`.
pub open spec fn any_present(ids: Seq<Seq<char>>, present: Seq<Seq<char>>) -> bool {
    exists|k: int| 0 <= k < ids.len() && present.contains(#[trigger] ids[k])
}

fn any_in(ids: &Vec<String>, present: &Vec<String>, want_present: bool) -> (r: bool)
    ensures
        want_present ==> r == any_present(strings_view(ids@), strings_view(present@)),
        !want_present ==> r == any_missing(strings_view(ids@), strings_view(present@)),
{
    let ghost v = strings_view(ids@);
    let ghost pr = strings_view(present@);
    let mut i: usize = 0;
    while i < ids.len()
        invariant
            i <= ids.len(),
            v == strings_view(ids@),
            pr == strings_view(present@),
            forall|k: int| 0 <= k < i ==> pr.contains(#[trigger] v[k]) != want_present,
        decreases ids.len() - i,
    {
        let c = contains_str(present, ids[i].as_str());
        if c == want_present {
            proof {
                assert(v[i as int] == ids@[i as int]@);
            }
            return true;
        }
        proof {
            assert(v[i as int] == ids@[i as int]@);
        }
        i = i + 1;
    }
    false
}

/// A mod misses a dependency when one of its dependencies is not active.
pub fn has_missing_deps(m: &ModEntry, active: &Vec<String>) -> (r: bool)
    ensures
        r == any_missing(strings_view(m.dependencies@), strings_view(active@)),
{
    any_in(&m.dependencies, active, false)
}

/// An active mod conflicts when a mod it is incompatible with is active.
pub fn has_incompatibility(m: &ModEntry, active: &Vec<String>) -> (r: bool)
    ensures
        r == (m.is_active && any_present(strings_view(m.incompatible_with@), strings_view(active@))),
{
    m.is_active && any_in(&m.incompatible_with, active, true)
}

/// The warning shown beside a mod in a list pane.
#[derive(Debug, Clone, Copy, PartialEq, Eq, Structural)]
pub enum RowStatus {
    /// No warning.
    Fine,
    /// An active mod it is incompatible with is active (`✕`).
    Conflict,
    /// In the active pane, one of its dependencies is not active (`⚠`).
    MissingDeps,
}

/// The warning for a mod: a conflict first; missing dependencies only in
/// the active pane.
pub open spec fn row_status_spec(m: ModEntry, active: Seq<Seq<char>>, in_active_pane: bool) -> RowStatus {
    if m.is_active && any_present(strings_view(m.incompatible_with@), active) {
        RowStatus::Conflict
    } else if in_active_pane && any_missing(strings_view(m.dependencies@), active) {
        RowStatus::MissingDeps
    } else {
        RowStatus::Fine
    }
}

/// The warnings, over the ids themselves: an active mod with an
/// incompatible mod among the active ids shows a conflict; otherwise, in
/// the active pane, a mod with any dependency (at any position) not among
/// the active ids shows missing dependencies; a mod with neither shows
/// nothing.
pub proof fn lemma_row_status_warnings(m: ModEntry, active: Seq<Seq<char>>, in_active_pane: bool)
    ensures
        (m.is_active && exists|k: int|
            0 <= k < m.incompatible_with.len() && active.contains(
                (#[trigger] m.incompatible_with@[k])@,
            )) ==> row_status_spec(m, active, in_active_pane) == RowStatus::Conflict,
        (!(m.is_active && exists|k: int|
            0 <= k < m.incompatible_with.len() && active.contains(
                (#[trigger] m.incompatible_with@[k])@,
            )) && in_active_pane && exists|k: int|
            0 <= k < m.dependencies.len() && !active.contains((#[trigger] m.dependencies@[k])@))
            ==> row_status_spec(m, active, in_active_pane) == RowStatus::MissingDeps,
        (!(m.is_active && exists|k: int|
            0 <= k < m.incompatible_with.len() && active.contains(
                (#[trigger] m.incompatible_with@[k])@,
            )) && (!in_active_pane || forall|k: int|
            0 <= k < m.dependencies.len() ==> active.contains((#[trigger] m.dependencies@[k])@)))
            ==> row_status_spec(m, active, in_active_pane) == RowStatus::Fine,
{
    let inc = strings_view(m.incompatible_with@);
    let deps = strings_view(m.dependencies@);
    assert(any_present(inc, active) <==> exists|k: int|
        0 <= k < m.incompatible_with.len() && active.contains((#[trigger] m.incompatible_with@[k])@))
        by {
        if any_present(inc, active) {
            let k = choose|k: int| 0 <= k < inc.len() && active.contains(#[trigger] inc[k]);
            assert(inc[k] == m.incompatible_with@[k]@);
        }
        if exists|k: int|
            0 <= k < m.incompatible_with.len() && active.contains(
                (#[trigger] m.incompatible_with@[k])@,
            ) {
            let k = choose|k: int|
                0 <= k < m.incompatible_with.len() && active.contains(
                    (#[trigger] m.incompatible_with@[k])@,
                );
            assert(inc[k] == m.incompatible_with@[k]@);
        }
    }
    assert(any_missing(deps, active) <==> exists|k: int|
        0 <= k < m.dependencies.len() && !active.contains((#[trigger] m.dependencies@[k])@)) by {
        if any_missing(deps, active) {
            let k = choose|k: int| 0 <= k < deps.len() && !active.contains(#[trigger] deps[k]);
            assert(deps[k] == m.dependencies@[k]@);
        }
        if exists|k: int| 0 <= k < m.dependencies.len() && !active.contains((#[trigger] m.dependencies@[k])@) {
            let k = choose|k: int|
                0 <= k < m.dependencies.len() && !active.contains((#[trigger] m.dependencies@[k])@);
            assert(deps[k] == m.dependencies@[k]@);
        }
    }
}

/// The warning shown beside a mod, given the package ids of the active mods.
pub fn row_status(m: &ModEntry, active: &Vec<String>, in_active_pane: bool) -> (r: RowStatus)
    ensures
        r == row_status_spec(*m, strings_view(active@), in_active_pane),
{
    if has_incompatibility(m, active) {
        RowStatus::Conflict
    } else if in_active_pane && has_missing_deps(m, active) {
        RowStatus::MissingDeps
    } else {
        RowStatus::Fine
    }
}

proof fn lemma_active_ids_contains(mods: Seq<ModEntry>, j: int)
    requires
        0 <= j < mods.len(),
        mods[j].is_active,
    ensures
        active_ids(mods).contains(mods[j].package_id@),
    decreases mods.len(),
{
    let d = mods.drop_last();
    if j < mods.len() - 1 {
        assert(d[j] == mods[j]);
        lemma_active_ids_contains(d, j);
        let k = choose|k: int| 0 <= k < active_ids(d).len() && active_ids(d)[k] == mods[j].package_id@;
        if mods.last().is_active {
            assert(active_ids(mods)[k] == active_ids(d)[k]);
        }
    } else {
        assert(active_ids(mods)[active_ids(d).len() as int] == mods[j].package_id@);
    }
}

/// A mod whose every dependency is the package id of an active mod of the
/// list shows no missing-dependency warning, in either pane.
pub proof fn lemma_satisfied_deps(mods: Seq<ModEntry>, m: ModEntry, in_active_pane: bool)
    requires
        forall|k: int|
            0 <= k < m.dependencies.len() ==> exists|j: int|
                0 <= j < mods.len() && mods[j].is_active && mods[j].package_id@
                    == (#[trigger] m.dependencies@[k])@,
    ensures
        row_status_spec(m, active_ids(mods), in_active_pane) != RowStatus::MissingDeps,
{
    let deps = strings_view(m.dependencies@);
    assert forall|k: int| 0 <= k < deps.len() implies active_ids(mods).contains(
        #[trigger] deps[k],
    ) by {
        assert(deps[k] == m.dependencies@[k]@);
        let j = choose|j: int|
            0 <= j < mods.len() && mods[j].is_active && mods[j].package_id@
                == m.dependencies@[k]@;
        lemma_active_ids_contains(mods, j);
    }
}

/// An inactive mod never shows a conflict.
pub proof fn lemma_inactive_no_conflict(m: ModEntry, active: Seq<Seq<char>>, in_active_pane: bool)
    requires
        !m.is_active,
    ensures
        row_status_spec(m, active, in_active_pane) != RowStatus::Conflict,
{
}

/// The glyph of a warning and its hover text.
pub fn warning_mark(s: RowStatus) -> (r: Option<(&'static str, &'static str)>)
    ensures
        s == RowStatus::Fine ==> r is None,
        s == RowStatus::Conflict ==> (r matches Some((g, h)) && g@ == "✕"@ && h@
            == "Конфликт с активным модом"@),
        s == RowStatus::MissingDeps ==> (r matches Some((g, h)) && g@ == "⚠"@ && h@
            == "Отсутствуют зависимости"@),
{
    match s {
        RowStatus::Fine => None,
        RowStatus::Conflict => Some(("✕", "Конфликт с активным модом")),
        RowStatus::MissingDeps => Some(("⚠", "Отсутствуют зависимости")),
    }
}

/// What the user asked of a mod in a list pane, by its position in the mod
/// list.
#[derive(Debug, Clone, Copy, PartialEq, Eq, Structural)]
pub enum MoveRequest {
    Activate(usize),
    Deactivate(usize),
    MoveUp(usize),
    MoveDown(usize),
    OpenFolder(usize),
    /// A dragged mod was dropped on a row of a pane: the mod, whether the
    /// pane is the active one, and the row it was dropped on.
    DragDrop { orig_idx: usize, to_active: bool, to_pos: usize },
}

/// A double click moves a mod to the other pane.
pub fn double_click_request(in_active_pane: bool, idx: usize) -> (r: MoveRequest)
    ensures
        r == (if in_active_pane {
            MoveRequest::Deactivate(idx)
        } else {
            MoveRequest::Activate(idx)
        }),
{
    if in_active_pane {
        MoveRequest::Deactivate(idx)
    } else {
        MoveRequest::Activate(idx)
    }
}

/// The request when the pointer is released during a drag: the dragged mod
/// goes to the row under the pointer in this pane, or, when no row is under
/// it now, to the row that was under it last; nothing when nothing is
/// dragged, no row was hovered, or the pointer was not released.
pub fn drop_request(
    released: bool,
    dragged: Option<usize>,
    drop_row: Option<usize>,
    last_drop_row: Option<usize>,
    in_active_pane: bool,
) -> (r: Option<MoveRequest>)
    ensures
        (released && dragged is Some && (drop_row is Some || last_drop_row is Some)) ==> r == Some(
            (MoveRequest::DragDrop {
                orig_idx: dragged->0,
                to_active: in_active_pane,
                to_pos: if drop_row is Some {
                    drop_row->0
                } else {
                    last_drop_row->0
                },
            }),
        ),
        !(released && dragged is Some && (drop_row is Some || last_drop_row is Some)) ==> r is None,
{
    if !released {
        return None;
    }
    let pos = match drop_row {
        Some(p) => p,
        None => match last_drop_row {
            Some(p) => p,
            None => return None,
        },
    };
    match dragged {
        Some(idx) => Some(MoveRequest::DragDrop { orig_idx: idx, to_active: in_active_pane, to_pos: pos }),
        None => None,
    }
}

/// The entries of a mod's context menu, top to bottom: in the active pane
/// deactivate, move up, move down; in the other pane activate; then open
/// the folder.
pub fn context_menu(in_active_pane: bool, idx: usize) -> (r: Vec<MoveRequest>)
    ensures
        in_active_pane ==> r@ == seq![
            MoveRequest::Deactivate(idx),
            MoveRequest::MoveUp(idx),
            MoveRequest::MoveDown(idx),
            MoveRequest::OpenFolder(idx),
        ],
        !in_active_pane ==> r@ == seq![MoveRequest::Activate(idx), MoveRequest::OpenFolder(idx)],
{
    let mut r: Vec<MoveRequest> = Vec::new();
    if in_active_pane {
        r.push(MoveRequest::Deactivate(idx));
        r.push(MoveRequest::MoveUp(idx));
        r.push(MoveRequest::MoveDown(idx));
    } else {
        r.push(MoveRequest::Activate(idx));
    }
    r.push(MoveRequest::OpenFolder(idx));
    proof {
        if in_active_pane {
            assert(r@ =~= seq![
                MoveRequest::Deactivate(idx),
                MoveRequest::MoveUp(idx),
                MoveRequest::MoveDown(idx),
                MoveRequest::OpenFolder(idx),
            ]);
        } else {
            assert(r@ =~= seq![MoveRequest::Activate(idx), MoveRequest::OpenFolder(idx)]);
        }
    }
    r
}

/// The version shown for a mod: its declared version, else the last game
/// version it supports, else nothing.
pub open spec fn shown_version(m: ModEntry) -> Seq<char> {
    if m.version@.len() > 0 {
        m.version@
    } else if m.supported_versions.len() > 0 {
        m.supported_versions@.last()@
    } else {
        Seq::<char>::empty()
    }
}

/// The version shown for a mod.
pub fn display_version(m: &ModEntry) -> (r: String)
    ensures
        r@ == shown_version(*m),
{
    if !m.version.as_str().is_empty() {
        m.version.clone()
    } else if m.supported_versions.len() > 0 {
        m.supported_versions[m.supported_versions.len() - 1].clone()
    } else {
        String::new()
    }
}

/// The glyph shown for a mod's source in the lists.
pub open spec fn source_glyph_spec(s: ModSourceView) -> Seq<char> {
    match s {
        ModSourceView::Core => "◆"@,
        ModSourceView::DLC(_) => "★"@,
        ModSourceView::Workshop(_) => "◇"@,
        ModSourceView::Local => "◉"@,
    }
}

/// The glyph shown for a mod's source: ◆ core, ★ DLC, ◇ Workshop, ◉ local.
pub fn source_glyph(s: &ModSource) -> (r: &'static str)
    ensures
        r@ == source_glyph_spec(s@),
{
    match s {
        ModSource::Core => "◆",
        ModSource::DLC(_) => "★",
        ModSource::Workshop(_) => "◇",
        ModSource::Local => "◉",
    }
}

// ─── Path settings ───────────────────────────────────────────────────────────

/// The first-run path dialog can be confirmed once both the game folder and
/// the local mods folder are given.
pub fn paths_ready(game_path: &str, local_mods_path: &str) -> (r: bool)
    ensures
        r == (game_path@.len() > 0 && local_mods_path@.len() > 0),
{
    !game_path.is_empty() && !local_mods_path.is_empty()
}

/// The `ModsConfig.xml` the active list is saved to: inside the config
/// folder; none (saving disabled) while no config folder is set.
pub fn mods_config_target(config_path: &str) -> (r: Option<String>)
    ensures
        config_path@.len() == 0 ==> r is None,
        config_path@.len() > 0 ==> (r matches Some(t) && t@ == config_path@ + "/ModsConfig.xml"@),
{
    if config_path.is_empty() {
        None
    } else {
        let mut t = string_of(config_path);
        push_str(&mut t, "/ModsConfig.xml");
        Some(t)
    }
}

// ─── List panes ──────────────────────────────────────────────────────────────

/// One of the two mod list panes: the mods, the positions shown in this
/// pane, the selected mod, and whether this is the active pane.
pub struct ModList<'a> {
    pub mods: &'a mut Vec<ModEntry>,
    pub indices: &'a [usize],
    pub selected: &'a mut Option<usize>,
    pub is_active: bool,
}

impl<'a> ModList<'a> {
    /// A pane over the given mods.
    pub fn new(
        mods: &'a mut Vec<ModEntry>,
        indices: &'a [usize],
        selected: &'a mut Option<usize>,
        is_active: bool,
    ) -> (r: Self)
        ensures
            *r.mods == *old(mods),
            r.indices@ == indices@,
            *r.selected == *old(selected),
            r.is_active == is_active,
    {
        ModList { mods, indices, selected, is_active }
    }
}

} // verus!
