//! SteamCMD: where it lives, how it is launched to download Workshop items,
//! and how its console output is turned into progress events.
use vstd::prelude::*;
use crate::text::{
    chars_to_string, decimal, find_chars, find_first, lemma_find_first_is, forward_slashes, is_alpha, is_alpha_char,
    is_digit, is_digit_char, is_ws, join, lemma_decimal_roundtrip, push_char, lemma_trim_shape, occurs_at,
    parse_digits, parse_digits_chars, path_join, push_decimal, push_signed_decimal, push_str,
    signed_decimal, string_of, strings_view, to_chars, to_forward_slashes, trim, trim_chars, u64_to_string,
};

verus! {

/// The Steam application id of RimWorld.
pub const RIMWORLD_APP_ID: &'static str = "294100";

/// The operating system a path or command is planned for.
#[derive(Debug, Clone, Copy, PartialEq, Eq, Structural)]
pub enum Platform {
    Windows,
    MacOs,
    Linux,
}

// ─── Events ──────────────────────────────────────────────────────────────────

/// Progress of a Workshop download.
#[derive(Debug, Clone, PartialEq)]
pub enum DownloadEvent {
    Log(String),
    ItemStarted(u64),
    ItemDone(u64),
    ItemFailed(u64),
    Finished { failed: Vec<u64> },
}

/// Progress of a SteamCMD installation.
#[derive(Debug, Clone, PartialEq)]
pub enum InstallEvent {
    Log(String),
    Done,
    Error(String),
}

/// The mathematical value of a [`DownloadEvent`].
pub enum DownloadEventView {
    Log(Seq<char>),
    ItemStarted(u64),
    ItemDone(u64),
    ItemFailed(u64),
    Finished(Seq<u64>),
}

impl View for DownloadEvent {
    type V = DownloadEventView;

    open spec fn view(&self) -> DownloadEventView {
        match self {
            DownloadEvent::Log(s) => DownloadEventView::Log(s@),
            DownloadEvent::ItemStarted(id) => DownloadEventView::ItemStarted(*id),
            DownloadEvent::ItemDone(id) => DownloadEventView::ItemDone(*id),
            DownloadEvent::ItemFailed(id) => DownloadEventView::ItemFailed(*id),
            DownloadEvent::Finished { failed } => DownloadEventView::Finished(failed@),
        }
    }
}

/// The mathematical value of an [`InstallEvent`].
pub enum InstallEventView {
    Log(Seq<char>),
    Done,
    Error(Seq<char>),
}

impl View for InstallEvent {
    type V = InstallEventView;

    open spec fn view(&self) -> InstallEventView {
        match self {
            InstallEvent::Log(s) => InstallEventView::Log(s@),
            InstallEvent::Done => InstallEventView::Done,
            InstallEvent::Error(s) => InstallEventView::Error(s@),
        }
    }
}

/// The values of a sequence of download events.
pub open spec fn download_events_view(v: Seq<DownloadEvent>) -> Seq<DownloadEventView> {
    v.map_values(|e: DownloadEvent| e@)
}

/// The values of a sequence of install events.
pub open spec fn install_events_view(v: Seq<InstallEvent>) -> Seq<InstallEventView> {
    v.map_values(|e: InstallEvent| e@)
}

// ─── Paths ───────────────────────────────────────────────────────────────────

/// The launcher file name of SteamCMD on a platform.
pub open spec fn launcher_name(p: Platform) -> Seq<char> {
    if p == Platform::Windows {
        "steamcmd.exe"@
    } else {
        "steamcmd.sh"@
    }
}

/// The separator `Path::join` writes on a platform.
pub open spec fn separator(p: Platform) -> char {
    if p == Platform::Windows {
        '\\'
    } else {
        '/'
    }
}

/// Whether `c` separates path components on a platform (`/`, and on
/// Windows `\\` too).
pub open spec fn is_separator(c: char, p: Platform) -> bool {
    c == '/' || (p == Platform::Windows && c == '\\')
}

/// A bare Windows drive such as `C:`.
pub open spec fn is_bare_drive(base: Seq<char>, p: Platform) -> bool {
    p == Platform::Windows && base.len() == 2 && is_alpha(base[0]) && base[1] == ':'
}

/// `Path::join(base, name)` for a plain file name `name` (no separator, no
/// drive): `name` follows `base` after a separator, unless `base` is empty,
/// already ends with a separator, or is a bare Windows drive.
pub open spec fn join_name(base: Seq<char>, name: Seq<char>, p: Platform) -> Seq<char> {
    if base.len() == 0 || is_separator(base.last(), p) || is_bare_drive(base, p) {
        base + name
    } else {
        base + seq![separator(p)] + name
    }
}

/// Appends the plain file name `name` to `base` as `Path::join` does on
/// the platform.
pub fn join_path(base: &str, name: &str, platform: Platform) -> (r: String)
    ensures
        r@ == join_name(base@, name@, platform),
{
    let b = to_chars(base);
    let n = b.len();
    let win = platform == Platform::Windows;
    let bare_drive = win && n == 2 && is_alpha_char(b[0]) && b[1] == ':';
    let ends_sep = n > 0 && (b[n - 1] == '/' || (win && b[n - 1] == '\\'));
    let mut r = chars_to_string(&b);
    if !(n == 0 || ends_sep || bare_drive) {
        push_char(&mut r, if win { '\\' } else { '/' });
    }
    push_str(&mut r, name);
    r
}

/// `{base}/steamcmd`: where SteamCMD is installed.
pub fn steamcmd_dir(base: &str, platform: Platform) -> (r: String)
    ensures
        r@ == join_name(base@, "steamcmd"@, platform),
{
    join_path(base, "steamcmd", platform)
}

/// `{base}/steamcmd/steamcmd.exe` on Windows, `{base}/steamcmd/steamcmd.sh`
/// elsewhere.
pub fn steamcmd_executable(base: &str, platform: Platform) -> (r: String)
    ensures
        r@ == join_name(join_name(base@, "steamcmd"@, platform), launcher_name(platform), platform),
{
    let dir = steamcmd_dir(base, platform);
    if platform == Platform::Windows {
        join_path(dir.as_str(), "steamcmd.exe", platform)
    } else {
        join_path(dir.as_str(), "steamcmd.sh", platform)
    }
}

/// `{base}/steam`: the install directory handed to SteamCMD.
pub fn steam_download_dir(base: &str, platform: Platform) -> (r: String)
    ensures
        r@ == join_name(base@, "steam"@, platform),
{
    join_path(base, "steam", platform)
}

/// Where SteamCMD puts downloaded Workshop mods:
/// `{base}/steam/steamapps/workshop/content/294100`.
pub fn steam_content_path(base: &str, platform: Platform) -> (r: String)
    ensures
        r@ == join_name(
            join_name(
                join_name(
                    join_name(join_name(base@, "steam"@, platform), "steamapps"@, platform),
                    "workshop"@,
                    platform,
                ),
                "content"@,
                platform,
            ),
            RIMWORLD_APP_ID@,
            platform,
        ),
{
    let a = join_path(base, "steam", platform);
    let b = join_path(a.as_str(), "steamapps", platform);
    let c = join_path(b.as_str(), "workshop", platform);
    let d = join_path(c.as_str(), "content", platform);
    join_path(d.as_str(), RIMWORLD_APP_ID, platform)
}

proof fn lemma_join_plain(base: Seq<char>, name: Seq<char>, p: Platform)
    requires
        name.len() > 2,
        !is_separator(name.last(), p),
    ensures
        join_name(base, name, p).len() > 2,
        join_name(base, name, p).last() == name.last(),
        !is_bare_drive(join_name(base, name, p), p),
{
}

/// Downloaded mods land under the install directory handed to SteamCMD:
/// the content path is that directory followed by
/// `steamapps`, `workshop`, `content` and `294100`, each after a separator.
pub proof fn lemma_content_under_download_dir(base: Seq<char>, p: Platform)
    ensures
        join_name(
            join_name(
                join_name(join_name(join_name(base, "steam"@, p), "steamapps"@, p), "workshop"@, p),
                "content"@,
                p,
            ),
            RIMWORLD_APP_ID@,
            p,
        ) == join_name(base, "steam"@, p) + seq![separator(p)] + "steamapps"@ + seq![separator(p)]
            + "workshop"@ + seq![separator(p)] + "content"@ + seq![separator(p)] + "294100"@,
{
    reveal_strlit("steam");
    reveal_strlit("steamapps");
    reveal_strlit("workshop");
    reveal_strlit("content");
    reveal_strlit("294100");
    let a = join_name(base, "steam"@, p);
    lemma_join_plain(base, "steam"@, p);
    let b = join_name(a, "steamapps"@, p);
    lemma_join_plain(a, "steamapps"@, p);
    let c = join_name(b, "workshop"@, p);
    lemma_join_plain(b, "workshop"@, p);
    let d = join_name(c, "content"@, p);
    lemma_join_plain(c, "content"@, p);
    lemma_join_plain(d, "294100"@, p);
    assert(join_name(d, "294100"@, p) =~= a + seq![separator(p)] + "steamapps"@ + seq![separator(p)]
        + "workshop"@ + seq![separator(p)] + "content"@ + seq![separator(p)] + "294100"@);
}

/// Whether SteamCMD counts as installed: on NixOS when a system `steamcmd`
/// was found on the search path, elsewhere when the launcher exists.
pub fn is_installed(on_nixos: bool, system_steamcmd_found: bool, executable_exists: bool) -> (r:
    bool)
    ensures
        r == if on_nixos {
            system_steamcmd_found
        } else {
            executable_exists
        },
{
    if on_nixos {
        system_steamcmd_found
    } else {
        executable_exists
    }
}

/// The candidate paths `{dir}/{name}` for each directory of a search path,
/// in order; the first one that is a file is the program found.
pub fn search_path_candidates(dirs: &Vec<String>, name: &str) -> (r: Vec<String>)
    ensures
        r.len() == dirs.len(),
        forall|i: int| 0 <= i < dirs.len() ==> #[trigger] r[i]@ == join(dirs[i]@, name@),
{
    let mut r: Vec<String> = Vec::new();
    let mut i: usize = 0;
    while i < dirs.len()
        invariant
            i <= dirs.len(),
            r.len() == i,
            forall|j: int| 0 <= j < i ==> #[trigger] r[j]@ == join(dirs[j]@, name@),
        decreases dirs.len() - i,
    {
        r.push(path_join(dirs[i].as_str(), name));
        i = i + 1;
    }
    r
}

// ─── Choosing and launching SteamCMD ─────────────────────────────────────────

/// The message when NixOS has no `steamcmd` on its search path.
pub open spec fn nixos_missing_message() -> Seq<char> {
    "NixOS: steamcmd не найден в PATH.\nУстановите через nixpkgs: nix-shell -p steamcmd"@
}

/// Which SteamCMD to run: on NixOS the system one found on the search path
/// (an error when there is none), elsewhere the installed launcher.
/// The flag says whether the system one is used.
pub fn choose_steamcmd(
    on_nixos: bool,
    system_steamcmd: Option<String>,
    base: &str,
    platform: Platform,
) -> (r: Result<(String, bool), String>)
    ensures
        on_nixos ==> match system_steamcmd {
            Some(p) => (r matches Ok((e, s)) && e@ == p@ && s),
            None => (r matches Err(m) && m@ == nixos_missing_message()),
        },
        !on_nixos ==> (r matches Ok((e, s)) && !s && e@ == join_name(
            join_name(base@, "steamcmd"@, platform),
            launcher_name(platform),
            platform,
        )),
{
    if on_nixos {
        match system_steamcmd {
            Some(p) => Ok((p, true)),
            None => Err(
                string_of(
                    "NixOS: steamcmd не найден в PATH.\nУстановите через nixpkgs: nix-shell -p steamcmd",
                ),
            ),
        }
    } else {
        Ok((steamcmd_executable(base, platform), false))
    }
}

/// How SteamCMD is started: the program, the arguments that precede the
/// SteamCMD commands, and whether it is wrapped in `steam-run`.
#[derive(Debug, Clone, PartialEq)]
pub struct LaunchPlan {
    pub program: String,
    pub leading_args: Vec<String>,
    pub wrapped: bool,
}

/// SteamCMD is wrapped in `steam-run` (an FHS environment, which NixOS
/// needs to run it) whenever `steam-run` was found, the system SteamCMD of
/// NixOS included; otherwise it is started directly.
pub fn plan_launch(exe: &str, steam_run: Option<String>) -> (r: LaunchPlan)
    ensures
        steam_run is Some ==> r.program@ == steam_run->0@ && r.leading_args.len() == 1
            && r.leading_args[0]@ == exe@ && r.wrapped,
        steam_run is None ==> r.program@ == exe@ && r.leading_args.len() == 0 && !r.wrapped,
{
    match steam_run {
        Some(sr) => {
            let mut args: Vec<String> = Vec::new();
            args.push(string_of(exe));
            LaunchPlan { program: sr, leading_args: args, wrapped: true }
        },
        None => LaunchPlan { program: string_of(exe), leading_args: Vec::new(), wrapped: false },
    }
}

/// The SteamCMD arguments for one Workshop item.
pub open spec fn item_args(id: u64, validate: bool) -> Seq<Seq<char>> {
    seq!["+workshop_download_item"@, RIMWORLD_APP_ID@, decimal(id as nat)] + if validate {
        seq!["validate"@]
    } else {
        Seq::<Seq<char>>::empty()
    }
}

/// The SteamCMD arguments for a list of Workshop items, in order.
pub open spec fn items_args(ids: Seq<u64>, validate: bool) -> Seq<Seq<char>>
    decreases ids.len(),
{
    if ids.len() == 0 {
        Seq::<Seq<char>>::empty()
    } else {
        items_args(ids.drop_last(), validate) + item_args(ids.last(), validate)
    }
}

/// The whole SteamCMD command line for downloading `ids` into `steam_path`:
/// install dir (with `/` separators), anonymous login, one download command
/// per item, quit.
pub open spec fn download_args_spec(steam_path: Seq<char>, ids: Seq<u64>, validate: bool) -> Seq<
    Seq<char>,
> {
    seq!["+force_install_dir"@, forward_slashes(steam_path), "+login"@, "anonymous"@] + items_args(
        ids,
        validate,
    ) + seq!["+quit"@]
}

/// Builds the SteamCMD arguments of [`download_args_spec`].
pub fn download_args(steam_path: &str, ids: &Vec<u64>, validate: bool) -> (r: Vec<String>)
    ensures
        strings_view(r@) == download_args_spec(steam_path@, ids@, validate),
{
    let mut r: Vec<String> = Vec::new();
    r.push(string_of("+force_install_dir"));
    r.push(to_forward_slashes(steam_path));
    r.push(string_of("+login"));
    r.push(string_of("anonymous"));
    let ghost head = seq!["+force_install_dir"@, forward_slashes(steam_path@), "+login"@, "anonymous"@];
    assert(strings_view(r@) =~= head);
    let mut i: usize = 0;
    while i < ids.len()
        invariant
            i <= ids.len(),
            head == seq!["+force_install_dir"@, forward_slashes(steam_path@), "+login"@, "anonymous"@],
            strings_view(r@) == head + items_args(ids@.take(i as int), validate),
        decreases ids.len() - i,
    {
        let ghost before = r@;
        let id = ids[i];
        r.push(string_of("+workshop_download_item"));
        r.push(string_of(RIMWORLD_APP_ID));
        r.push(u64_to_string(id));
        if validate {
            r.push(string_of("validate"));
        }
        proof {
            let t = ids@.take(i + 1);
            assert(t.drop_last() =~= ids@.take(i as int));
            assert(t.last() == id);
            assert(strings_view(r@) =~= strings_view(before) + item_args(id, validate));
        }
        i = i + 1;
    }
    r.push(string_of("+quit"));
    assert(ids@.take(ids.len() as int) =~= ids@);
    assert(strings_view(r@) =~= download_args_spec(steam_path@, ids@, validate));
    r
}

// ─── ANSI escape sequences ───────────────────────────────────────────────────

/// The escape character that starts an ANSI sequence.
pub open spec fn esc() -> char {
    '\x1b'
}

/// The index just after the letter that ends a control sequence whose body
/// starts at `j` (the end of `s` when no letter follows).
pub open spec fn csi_end(s: Seq<char>, j: int) -> int
    decreases s.len() - j,
{
    if j >= s.len() {
        s.len() as int
    } else if is_alpha(s[j]) {
        j + 1
    } else {
        csi_end(s, j + 1)
    }
}

/// The end of a control sequence lies between its start and the end of `s`.
pub proof fn lemma_csi_end_bounds(s: Seq<char>, j: int)
    requires
        0 <= j <= s.len(),
    ensures
        j <= csi_end(s, j) <= s.len(),
    decreases s.len() - j,
{
    if j < s.len() && !is_alpha(s[j]) {
        lemma_csi_end_bounds(s, j + 1);
    }
}

/// The characters of `s` from `i` on, with ANSI escapes removed: `ESC [`
/// drops everything up to and including the next ASCII letter, a bare `ESC`
/// is dropped alone.
pub open spec fn strip_from(s: Seq<char>, i: int) -> Seq<char>
    decreases s.len() - i,
{
    if i < 0 || i >= s.len() {
        Seq::<char>::empty()
    } else if s[i] == esc() {
        if i + 1 < s.len() && s[i + 1] == '[' {
            proof {
                lemma_csi_end_bounds(s, i + 2);
            }
            strip_from(s, csi_end(s, i + 2))
        } else {
            strip_from(s, i + 1)
        }
    } else {
        seq![s[i]] + strip_from(s, i + 1)
    }
}

/// `s` with its ANSI escape sequences removed.
pub open spec fn strip_ansi(s: Seq<char>) -> Seq<char> {
    strip_from(s, 0)
}

/// Removes ANSI escape sequences of the form `ESC [ … letter`; a bare
/// `ESC` is dropped.
pub fn strip_ansi_codes(s: &str) -> (r: String)
    ensures
        r@ == strip_ansi(s@),
{
    let cs = to_chars(s);
    let out = strip_ansi_chars(&cs);
    chars_to_string(&out)
}

fn strip_ansi_chars(cs: &Vec<char>) -> (out: Vec<char>)
    ensures
        out@ == strip_ansi(cs@),
{
    let n = cs.len();
    let mut out: Vec<char> = Vec::new();
    let mut i: usize = 0;
    while i < n
        invariant
            i <= n,
            n == cs.len(),
            out@ + strip_from(cs@, i as int) == strip_ansi(cs@),
        decreases n - i,
    {
        let c = cs[i];
        if c == '\x1b' {
            if i + 1 < n && cs[i + 1] == '[' {
                let mut j: usize = i + 2;
                while j < n && !is_alpha_char(cs[j])
                    invariant
                        i + 2 <= j <= n,
                        n == cs.len(),
                        csi_end(cs@, j as int) == csi_end(cs@, i + 2),
                    decreases n - j,
                {
                    j = j + 1;
                }
                let next = if j < n {
                    j + 1
                } else {
                    n
                };
                proof {
                    assert(csi_end(cs@, j as int) == next);
                    lemma_csi_end_bounds(cs@, i + 2);
                }
                i = next;
            } else {
                i = i + 1;
            }
        } else {
            let ghost before = out@;
            out.push(c);
            proof {
                assert(before + strip_from(cs@, i as int) =~= out@ + strip_from(cs@, i + 1));
            }
            i = i + 1;
        }
    }
    assert(out@ + strip_from(cs@, i as int) =~= out@);
    out
}

proof fn lemma_strip_from_no_esc(s: Seq<char>, i: int)
    ensures
        !strip_from(s, i).contains(esc()),
    decreases s.len() - i,
{
    if 0 <= i < s.len() {
        if s[i] == esc() {
            if i + 1 < s.len() && s[i + 1] == '[' {
                lemma_csi_end_bounds(s, i + 2);
                lemma_strip_from_no_esc(s, csi_end(s, i + 2));
            } else {
                lemma_strip_from_no_esc(s, i + 1);
            }
        } else {
            lemma_strip_from_no_esc(s, i + 1);
            let t = strip_from(s, i + 1);
            assert forall|k: int| 0 <= k < (seq![s[i]] + t).len() implies (seq![s[i]] + t)[k]
                != esc() by {
                if k > 0 {
                    assert((seq![s[i]] + t)[k] == t[k - 1]);
                }
            }
        }
    }
}

proof fn lemma_strip_from_identity(s: Seq<char>, i: int)
    requires
        0 <= i <= s.len(),
        !s.contains(esc()),
    ensures
        strip_from(s, i) == s.skip(i),
    decreases s.len() - i,
{
    if i < s.len() {
        assert(s[i] != esc());
        lemma_strip_from_identity(s, i + 1);
        assert(seq![s[i]] + s.skip(i + 1) =~= s.skip(i));
    } else {
        assert(s.skip(i) =~= Seq::<char>::empty());
    }
}

/// `a` is `s` with some characters left out: each character of `a` is
/// found in `s`, at increasing positions.
pub open spec fn subsequence_of(a: Seq<char>, s: Seq<char>) -> bool {
    exists|idx: Seq<int>|
        #![trigger idx.len()]
        idx.len() == a.len() && (forall|k: int|
            0 <= k < idx.len() ==> 0 <= #[trigger] idx[k] < s.len() && a[k] == s[idx[k]]) && (
        forall|k: int, l: int| 0 <= k < l < idx.len() ==> #[trigger] idx[k] < #[trigger] idx[l])
}

/// The positions in `s` of the characters that [`strip_from`] keeps.
pub open spec fn strip_positions(s: Seq<char>, i: int) -> Seq<int>
    decreases s.len() - i,
{
    if i < 0 || i >= s.len() {
        Seq::<int>::empty()
    } else if s[i] == esc() {
        if i + 1 < s.len() && s[i + 1] == '[' {
            proof {
                lemma_csi_end_bounds(s, i + 2);
            }
            strip_positions(s, csi_end(s, i + 2))
        } else {
            strip_positions(s, i + 1)
        }
    } else {
        seq![i] + strip_positions(s, i + 1)
    }
}

proof fn lemma_strip_positions(s: Seq<char>, i: int)
    ensures
        strip_positions(s, i).len() == strip_from(s, i).len(),
        forall|k: int|
            0 <= k < strip_positions(s, i).len() ==> i <= #[trigger] strip_positions(s, i)[k] < s.len()
                && strip_from(s, i)[k] == s[strip_positions(s, i)[k]],
        forall|k: int, l: int|
            0 <= k < l < strip_positions(s, i).len() ==> #[trigger] strip_positions(s, i)[k]
                < #[trigger] strip_positions(s, i)[l],
    decreases s.len() - i,
{
    if 0 <= i < s.len() {
        if s[i] == esc() {
            if i + 1 < s.len() && s[i + 1] == '[' {
                lemma_csi_end_bounds(s, i + 2);
                lemma_strip_positions(s, csi_end(s, i + 2));
            } else {
                lemma_strip_positions(s, i + 1);
            }
        } else {
            lemma_strip_positions(s, i + 1);
            let p = strip_positions(s, i + 1);
            let t = strip_from(s, i + 1);
            assert(strip_positions(s, i) == seq![i] + p);
            assert(strip_from(s, i) == seq![s[i]] + t);
            assert forall|k: int| 0 <= k < (seq![i] + p).len() implies i <= #[trigger] (seq![i]
                + p)[k] < s.len() && (seq![s[i]] + t)[k] == s[(seq![i] + p)[k]] by {
                if k > 0 {
                    assert((seq![i] + p)[k] == p[k - 1]);
                    assert((seq![s[i]] + t)[k] == t[k - 1]);
                }
            }
            assert forall|k: int, l: int| 0 <= k < l < (seq![i] + p).len() implies #[trigger] (seq![i]
                + p)[k] < #[trigger] (seq![i] + p)[l] by {
                assert((seq![i] + p)[l] == p[l - 1]);
                if k > 0 {
                    assert((seq![i] + p)[k] == p[k - 1]);
                }
            }
        }
    }
}

/// Stripping leaves no escape character, and a string without escape
/// characters is left as it is; so stripping twice is stripping once. What
/// is left is the input with some characters removed.
pub proof fn lemma_strip_ansi_laws(s: Seq<char>)
    ensures
        !strip_ansi(s).contains(esc()),
        !s.contains(esc()) ==> strip_ansi(s) == s,
        strip_ansi(strip_ansi(s)) == strip_ansi(s),
        subsequence_of(strip_ansi(s), s),
{
    lemma_strip_positions(s, 0);
    let idx = strip_positions(s, 0);
    assert(idx.len() == strip_ansi(s).len());
    lemma_strip_from_no_esc(s, 0);
    if !s.contains(esc()) {
        lemma_strip_from_identity(s, 0);
        assert(s.skip(0) =~= s);
    }
    lemma_strip_from_identity(strip_ansi(s), 0);
    assert(strip_ansi(s).skip(0) =~= strip_ansi(s));
}

// ─── Splitting console lines ─────────────────────────────────────────────────

/// `trim(cur)` as a one-element sequence when it is non-empty, else nothing.
pub open spec fn keep_trimmed(cur: Seq<char>) -> Seq<Seq<char>> {
    if trim(cur).len() > 0 {
        seq![trim(cur)]
    } else {
        Seq::<Seq<char>>::empty()
    }
}

/// The pieces of `s` from `i` on between `\r` characters (the first one
/// continuing `cur`), each trimmed, the empty ones dropped.
pub open spec fn split_trim_from(s: Seq<char>, i: int, cur: Seq<char>) -> Seq<Seq<char>>
    decreases s.len() - i,
{
    if i < 0 || i >= s.len() {
        keep_trimmed(cur)
    } else if s[i] == '\r' {
        keep_trimmed(cur) + split_trim_from(s, i + 1, Seq::<char>::empty())
    } else {
        split_trim_from(s, i + 1, cur.push(s[i]))
    }
}

/// The lines SteamCMD printed in one physical line: escapes removed, split
/// at `\r`, each piece trimmed, empty pieces dropped.
pub open spec fn console_parts(raw: Seq<char>) -> Seq<Seq<char>> {
    split_trim_from(strip_ansi(raw), 0, Seq::<char>::empty())
}

/// Whether a console part is well shaped: non-empty, no surrounding
/// whitespace, no `\r` and no escape character.
pub open spec fn clean_part(p: Seq<char>) -> bool {
    &&& p.len() > 0
    &&& !is_ws(p[0])
    &&& !is_ws(p.last())
    &&& !p.contains('\r')
    &&& !p.contains(esc())
}

proof fn lemma_keep_trimmed_clean(cur: Seq<char>)
    requires
        !cur.contains('\r'),
        !cur.contains(esc()),
    ensures
        forall|k: int| 0 <= k < keep_trimmed(cur).len() ==> clean_part(#[trigger] keep_trimmed(cur)[k]),
{
    lemma_trim_shape(cur);
    if trim(cur).len() > 0 {
        assert(keep_trimmed(cur)[0] == trim(cur));
        if trim(cur).contains('\r') {
            assert(cur.contains('\r'));
        }
        if trim(cur).contains(esc()) {
            assert(cur.contains(esc()));
        }
    }
}

proof fn lemma_split_trim_clean(s: Seq<char>, i: int, cur: Seq<char>)
    requires
        !s.contains(esc()),
        !cur.contains('\r'),
        !cur.contains(esc()),
    ensures
        forall|k: int| 0 <= k < split_trim_from(s, i, cur).len() ==> clean_part(#[trigger] split_trim_from(s, i, cur)[k]),
    decreases s.len() - i,
{
    lemma_keep_trimmed_clean(cur);
    if 0 <= i < s.len() {
        if s[i] == '\r' {
            lemma_split_trim_clean(s, i + 1, Seq::<char>::empty());
            let a = keep_trimmed(cur);
            let b = split_trim_from(s, i + 1, Seq::<char>::empty());
            assert(split_trim_from(s, i, cur) == a + b);
            assert forall|k: int| 0 <= k < (a + b).len() implies clean_part(#[trigger] (a + b)[k]) by {
                if k < a.len() {
                    assert((a + b)[k] == a[k]);
                } else {
                    assert((a + b)[k] == b[k - a.len()]);
                }
            }
        } else {
            let c2 = cur.push(s[i]);
            assert(s[i] != esc());
            assert(!c2.contains('\r')) by {
                if c2.contains('\r') {
                    let k = choose|k: int| 0 <= k < c2.len() && c2[k] == '\r';
                    if k < cur.len() {
                        assert(cur[k] == '\r');
                    }
                }
            }
            assert(!c2.contains(esc())) by {
                if c2.contains(esc()) {
                    let k = choose|k: int| 0 <= k < c2.len() && c2[k] == esc();
                    if k < cur.len() {
                        assert(cur[k] == esc());
                    }
                }
            }
            lemma_split_trim_clean(s, i + 1, c2);
            assert(split_trim_from(s, i, cur) == split_trim_from(s, i + 1, c2));
        }
    } else {
        assert(split_trim_from(s, i, cur) == keep_trimmed(cur));
    }
}

/// Every part that [`console_parts`] gives is clean.
pub proof fn lemma_console_parts_clean(raw: Seq<char>)
    ensures
        forall|k: int| 0 <= k < console_parts(raw).len() ==> clean_part(#[trigger] console_parts(raw)[k]),
{
    lemma_strip_from_no_esc(raw, 0);
    lemma_split_trim_clean(strip_ansi(raw), 0, Seq::<char>::empty());
}

/// Removes escapes, splits at `\r`, trims each piece and keeps the non-empty
/// ones.
pub fn split_ansi_lines(raw: &str) -> (r: Vec<String>)
    ensures
        strings_view(r@) == console_parts(raw@),
        forall|k: int| 0 <= k < r.len() ==> clean_part(#[trigger] r[k]@),
{
    let cs = to_chars(raw);
    let clean = strip_ansi_chars(&cs);
    let n = clean.len();
    let mut r: Vec<String> = Vec::new();
    let mut cur: Vec<char> = Vec::new();
    let mut i: usize = 0;
    while i < n
        invariant
            i <= n,
            n == clean.len(),
            clean@ == strip_ansi(raw@),
            strings_view(r@) + split_trim_from(clean@, i as int, cur@) == console_parts(raw@),
        decreases n - i,
    {
        let c = clean[i];
        if c == '\r' {
            let ghost before = r@;
            let t = trim_chars(&cur);
            if t.len() > 0 {
                r.push(chars_to_string(&t));
            }
            proof {
                assert(strings_view(r@) =~= strings_view(before) + keep_trimmed(cur@));
                assert(strings_view(before) + (keep_trimmed(cur@) + split_trim_from(
                    clean@,
                    i + 1,
                    Seq::<char>::empty(),
                )) =~= strings_view(r@) + split_trim_from(clean@, i + 1, Seq::<char>::empty()));
            }
            cur = Vec::new();
        } else {
            cur.push(c);
        }
        i = i + 1;
    }
    let ghost before = r@;
    let t = trim_chars(&cur);
    if t.len() > 0 {
        r.push(chars_to_string(&t));
    }
    proof {
        assert(strings_view(r@) =~= strings_view(before) + keep_trimmed(cur@));
        lemma_console_parts_clean(raw@);
        assert forall|k: int| 0 <= k < r.len() implies clean_part(#[trigger] r[k]@) by {
            assert(strings_view(r@)[k] == r[k]@);
        }
    }
    r
}

// ─── Progress lines ──────────────────────────────────────────────────────────

/// The length of the run of ASCII digits at the start of `s`.
pub open spec fn digit_run(s: Seq<char>) -> nat
    decreases s.len(),
{
    if s.len() > 0 && is_digit(s[0]) {
        1 + digit_run(s.skip(1))
    } else {
        0
    }
}

/// What the id parser reads after `prefix` in `line`: the digits right after
/// the first occurrence of `prefix`, as a `u64` when there is at least one
/// and they fit.
pub open spec fn id_after(line: Seq<char>, prefix: Seq<char>) -> Option<u64> {
    match find_first(line, prefix) {
        None => None,
        Some(k) => {
            let rest = line.skip(k + prefix.len());
            parse_digits(rest.take(digit_run(rest) as int))
        },
    }
}

proof fn lemma_digit_run_is(s: Seq<char>, j: int)
    requires
        0 <= j <= s.len(),
        forall|k: int| 0 <= k < j ==> is_digit(#[trigger] s[k]),
        j == s.len() || !is_digit(s[j]),
    ensures
        digit_run(s) == j,
    decreases j,
{
    if j > 0 {
        assert forall|k: int| 0 <= k < j - 1 implies is_digit(#[trigger] s.skip(1)[k]) by {
            assert(s.skip(1)[k] == s[k + 1]);
        }
        if j < s.len() {
            assert(s.skip(1)[j - 1] == s[j]);
        }
        lemma_digit_run_is(s.skip(1), j - 1);
        assert(is_digit(s[0]));
    }
}

/// The number written by the run of digits that starts at `start`.
fn digits_at(s: &Vec<char>, start: usize) -> (r: Option<u64>)
    requires
        start <= s.len(),
    ensures
        r == parse_digits(s@.skip(start as int).take(digit_run(s@.skip(start as int)) as int)),
{
    let mut j: usize = start;
    while j < s.len() && is_digit_char(s[j])
        invariant
            start <= j <= s.len(),
            forall|m: int| start <= m < j ==> is_digit(#[trigger] s@[m]),
        decreases s.len() - j,
    {
        j = j + 1;
    }
    let ghost rest = s@.skip(start as int);
    proof {
        assert forall|m: int| 0 <= m < j - start implies is_digit(#[trigger] rest[m]) by {
            assert(rest[m] == s@[m + start]);
        }
        if j < s.len() {
            assert(rest[j - start] == s@[j as int]);
        }
        lemma_digit_run_is(rest, j - start);
        assert(rest.take(j - start) =~= s@.subrange(start as int, j as int));
    }
    parse_digits_chars(s, start, j)
}

/// The id written as digits right after the first occurrence of `prefix`.
pub fn parse_id_after(line: &str, prefix: &str) -> (r: Option<u64>)
    ensures
        r == id_after(line@, prefix@),
{
    let s = to_chars(line);
    let p = to_chars(prefix);
    match find_chars(&s, &p) {
        None => None,
        Some(k) => {
            let plen = p.len();
            let slen = s.len();
            assert(occurs_at(s@, p@, k as int));
            assert(k + plen <= slen);
            digits_at(&s, k + plen)
        },
    }
}

/// Text that precedes the id of an item SteamCMD starts downloading.
pub open spec fn downloading_prefix() -> Seq<char> {
    "Downloading item "@
}

/// Text that precedes the id of an item SteamCMD finished downloading.
pub open spec fn success_prefix() -> Seq<char> {
    "Success. Downloaded item "@
}

/// Text that precedes the id of an item SteamCMD failed to download.
pub open spec fn error_prefix() -> Seq<char> {
    "ERROR! Download item "@
}

/// The id in a "Downloading item N" line.
pub fn parse_downloading_id(line: &str) -> (r: Option<u64>)
    ensures
        r == id_after(line@, downloading_prefix()),
{
    parse_id_after(line, "Downloading item ")
}

/// The id in a "Success. Downloaded item N" line.
pub fn parse_success_id(line: &str) -> (r: Option<u64>)
    ensures
        r == id_after(line@, success_prefix()),
{
    parse_id_after(line, "Success. Downloaded item ")
}

/// The id in an "ERROR! Download item N" line.
pub fn parse_error_id(line: &str) -> (r: Option<u64>)
    ensures
        r == id_after(line@, error_prefix()),
{
    parse_id_after(line, "ERROR! Download item ")
}

/// An id that the download command line names, echoed by SteamCMD after a
/// marker (and followed by anything that is not a digit), is read back as
/// the same id.
pub proof fn lemma_id_roundtrip(prefix: Seq<char>, id: u64, rest: Seq<char>)
    requires
        rest.len() == 0 || !is_digit(rest[0]),
    ensures
        id_after(prefix + decimal(id as nat) + rest, prefix) == Some(id),
{
    let line = prefix + decimal(id as nat) + rest;
    assert(line.subrange(0, prefix.len() as int) =~= prefix);
    assert(occurs_at(line, prefix, 0));
    lemma_find_first_zero(line, prefix);
    let after = line.skip(prefix.len() as int);
    let d = decimal(id as nat);
    assert(after =~= d + rest);
    lemma_decimal_roundtrip(id);
    assert forall|m: int| 0 <= m < d.len() implies is_digit(#[trigger] after[m]) by {
        assert(after[m] == d[m]);
    }
    if d.len() < after.len() {
        assert(after[d.len() as int] == rest[0]);
    }
    lemma_digit_run_is(after, d.len() as int);
    assert(after.take(d.len() as int) =~= d);
}

/// The id is read wherever its marker first appears in a line, not only at
/// its start: text `a` before the marker (in which the marker does not
/// begin anywhere), then the marker, the digits of `id`, and anything that
/// does not start with a digit, reads as `id`.
pub proof fn lemma_id_found_anywhere(a: Seq<char>, prefix: Seq<char>, id: u64, rest: Seq<char>)
    requires
        rest.len() == 0 || !is_digit(rest[0]),
        forall|j: int| 0 <= j < a.len() ==> !occurs_at(a + prefix, prefix, j),
    ensures
        id_after(a + prefix + decimal(id as nat) + rest, prefix) == Some(id),
{
    let d = decimal(id as nat);
    let line = a + prefix + d + rest;
    let n = a.len() as int;
    let pl = prefix.len() as int;
    assert(line.subrange(n, n + pl) =~= prefix);
    assert(occurs_at(line, prefix, n));
    assert forall|j: int| 0 <= j < n implies !occurs_at(line, prefix, j) by {
        assert(line.subrange(j, j + pl) =~= (a + prefix).subrange(j, j + pl));
        assert(!occurs_at(a + prefix, prefix, j));
    }
    lemma_find_first_is(line, prefix, n);
    let after = line.skip(n + pl);
    assert(after =~= d + rest);
    lemma_decimal_roundtrip(id);
    assert forall|m: int| 0 <= m < d.len() implies is_digit(#[trigger] after[m]) by {
        assert(after[m] == d[m]);
    }
    if d.len() < after.len() {
        assert(after[d.len() as int] == rest[0]);
    }
    lemma_digit_run_is(after, d.len() as int);
    assert(after.take(d.len() as int) =~= d);
}

proof fn lemma_find_first_zero(s: Seq<char>, p: Seq<char>)
    requires
        occurs_at(s, p, 0),
    ensures
        find_first(s, p) == Some(0int),
{
    reveal(find_first);
    let w = choose|w: int| occurs_at(s, p, w) && forall|j: int| 0 <= j < w ==> !occurs_at(s, p, j);
    assert(occurs_at(s, p, 0) && forall|j: int| 0 <= j < 0 ==> !occurs_at(s, p, j));
    if w > 0 {
        assert(!occurs_at(s, p, 0));
    }
}

// ─── Download progress ───────────────────────────────────────────────────────

/// `ItemStarted(id)` when an id was read.
pub open spec fn started_events(o: Option<u64>) -> Seq<DownloadEventView> {
    match o {
        Some(id) => seq![DownloadEventView::ItemStarted(id)],
        None => Seq::<DownloadEventView>::empty(),
    }
}

/// `ItemDone(id)` when an id was read.
pub open spec fn done_events(o: Option<u64>) -> Seq<DownloadEventView> {
    match o {
        Some(id) => seq![DownloadEventView::ItemDone(id)],
        None => Seq::<DownloadEventView>::empty(),
    }
}

/// `ItemFailed(id)` when an id was read.
pub open spec fn failed_events(o: Option<u64>) -> Seq<DownloadEventView> {
    match o {
        Some(id) => seq![DownloadEventView::ItemFailed(id)],
        None => Seq::<DownloadEventView>::empty(),
    }
}

/// The events for one console part: the part itself as a log line, then a
/// start, a completion and a failure, each when the part names an item that
/// way (one part may do several).
pub open spec fn part_events(part: Seq<char>) -> Seq<DownloadEventView> {
    seq![DownloadEventView::Log(part)] + started_events(id_after(part, downloading_prefix()))
        + done_events(id_after(part, success_prefix())) + failed_events(
        id_after(part, error_prefix()),
    )
}

/// The failed ids after one console part: the id of a failure line is added
/// when it is not there yet.
pub open spec fn record_failure(failed: Seq<u64>, part: Seq<char>) -> Seq<u64> {
    match id_after(part, error_prefix()) {
        Some(id) => if failed.contains(id) {
            failed
        } else {
            failed.push(id)
        },
        None => failed,
    }
}

/// The events for a sequence of console parts, in order.
pub open spec fn parts_events(parts: Seq<Seq<char>>) -> Seq<DownloadEventView>
    decreases parts.len(),
{
    if parts.len() == 0 {
        Seq::<DownloadEventView>::empty()
    } else {
        parts_events(parts.drop_last()) + part_events(parts.last())
    }
}

/// The failed ids after a sequence of console parts.
pub open spec fn parts_failures(failed: Seq<u64>, parts: Seq<Seq<char>>) -> Seq<u64>
    decreases parts.len(),
{
    if parts.len() == 0 {
        failed
    } else {
        record_failure(parts_failures(failed, parts.drop_last()), parts.last())
    }
}

/// Recording failures never lists an id twice.
pub proof fn lemma_failures_distinct(failed: Seq<u64>, parts: Seq<Seq<char>>)
    requires
        failed.no_duplicates(),
    ensures
        parts_failures(failed, parts).no_duplicates(),
    decreases parts.len(),
{
    if parts.len() > 0 {
        lemma_failures_distinct(failed, parts.drop_last());
        let f = parts_failures(failed, parts.drop_last());
        match id_after(parts.last(), error_prefix()) {
            Some(id) => {
                if !f.contains(id) {
                    assert forall|i: int, j: int|
                        0 <= i < f.push(id).len() && 0 <= j < f.push(id).len() && i != j implies f.push(
                        id,
                    )[i] != f.push(id)[j] by {
                        if i < f.len() && j < f.len() {
                        } else if i == f.len() {
                            assert(f.push(id)[j] == f[j]);
                        } else {
                            assert(f.push(id)[i] == f[i]);
                        }
                    }
                }
            },
            None => {},
        }
    }
}

proof fn lemma_record_failure_keeps(failed: Seq<u64>, part: Seq<char>, x: u64)
    requires
        failed.contains(x),
    ensures
        record_failure(failed, part).contains(x),
{
    match id_after(part, error_prefix()) {
        Some(id) => if !failed.contains(id) {
            let k = choose|k: int| 0 <= k < failed.len() && failed[k] == x;
            assert(failed.push(id)[k] == x);
        },
        None => {},
    }
}

/// Every item reported as failed is among the recorded failures.
pub proof fn lemma_failed_events_recorded(failed: Seq<u64>, parts: Seq<Seq<char>>)
    ensures
        forall|k: int|
            0 <= k < parts_events(parts).len() && (#[trigger] parts_events(parts)[k]) is ItemFailed
                ==> parts_failures(failed, parts).contains(parts_events(parts)[k]->ItemFailed_0),
    decreases parts.len(),
{
    if parts.len() > 0 {
        let init = parts.drop_last();
        let last = parts.last();
        lemma_failed_events_recorded(failed, init);
        let a = parts_events(init);
        let b = part_events(last);
        let f = parts_failures(failed, init);
        assert(parts_events(parts) == a + b);
        assert forall|k: int|
            0 <= k < parts_events(parts).len() && (#[trigger] parts_events(parts)[k]) is ItemFailed
                implies parts_failures(failed, parts).contains(
            parts_events(parts)[k]->ItemFailed_0,
        ) by {
            let id = parts_events(parts)[k]->ItemFailed_0;
            if k < a.len() {
                assert((a + b)[k] == a[k]);
                assert(f.contains(id));
                lemma_record_failure_keeps(f, last, id);
            } else {
                assert((a + b)[k] == b[k - a.len()]);
                let s = started_events(id_after(last, downloading_prefix()));
                let d = done_events(id_after(last, success_prefix()));
                let e = failed_events(id_after(last, error_prefix()));
                assert(b == seq![DownloadEventView::Log(last)] + s + d + e);
                let j = k - a.len();
                let n1 = 1 + s.len();
                let n2 = n1 + d.len();
                if j < 1 {
                    assert(b[j] == DownloadEventView::Log(last));
                } else if j < n1 {
                    assert(b[j] == s[j - 1]);
                } else if j < n2 {
                    assert(b[j] == d[j - n1]);
                } else {
                    assert(b[j] == e[j - n2]);
                    let v = id_after(last, error_prefix());
                    assert(v == Some(id));
                    if !f.contains(id) {
                        assert(f.push(id)[f.len() as int] == id);
                    }
                }
            }
        }
    }
}

/// The state of a running download: the ids reported as failed so far, each
/// once.
pub struct DownloadTracker {
    failed: Vec<u64>,
}

impl View for DownloadTracker {
    type V = Seq<u64>;

    closed spec fn view(&self) -> Seq<u64> {
        self.failed@
    }
}

impl DownloadTracker {
    /// No id is listed twice.
    pub closed spec fn wf(&self) -> bool {
        self.failed@.no_duplicates()
    }

    /// A tracker with no failures.
    pub fn new() -> (r: Self)
        ensures
            r@ == Seq::<u64>::empty(),
            r.wf(),
    {
        DownloadTracker { failed: Vec::new() }
    }

    /// The ids reported as failed so far.
    pub fn failed(&self) -> (r: Vec<u64>)
        ensures
            r@ == self@,
    {
        self.failed.clone()
    }

    /// Turns one line of SteamCMD's standard output into events and records
    /// the failures it reports.
    pub fn observe_line(&mut self, line: &str) -> (r: Vec<DownloadEvent>)
        requires
            old(self).wf(),
        ensures
            final(self).wf(),
            download_events_view(r@) == parts_events(console_parts(line@)),
            final(self)@ == parts_failures(old(self)@, console_parts(line@)),
            final(self)@.no_duplicates(),
    {
        let parts = split_ansi_lines(line);
        let ghost ps = strings_view(parts@);
        let mut events: Vec<DownloadEvent> = Vec::new();
        let mut i: usize = 0;
        while i < parts.len()
            invariant
                i <= parts.len(),
                ps == strings_view(parts@),
                ps == console_parts(line@),
                download_events_view(events@) == parts_events(ps.take(i as int)),
                self.failed@ == parts_failures(old(self)@, ps.take(i as int)),
                self.failed@.no_duplicates(),
                old(self)@.no_duplicates(),
            decreases parts.len() - i,
        {
            let part = &parts[i];
            let ghost before = events@;
            let ghost fbefore = self.failed@;
            events.push(DownloadEvent::Log(part.clone()));
            if let Some(id) = parse_downloading_id(part.as_str()) {
                events.push(DownloadEvent::ItemStarted(id));
            }
            if let Some(id) = parse_success_id(part.as_str()) {
                events.push(DownloadEvent::ItemDone(id));
            }
            if let Some(id) = parse_error_id(part.as_str()) {
                if !vec_contains(&self.failed, id) {
                    self.failed.push(id);
                }
                events.push(DownloadEvent::ItemFailed(id));
            }
            proof {
                let t = ps.take(i + 1);
                assert(t.drop_last() =~= ps.take(i as int));
                assert(t.last() == part@);
                assert(download_events_view(events@) =~= download_events_view(before) + part_events(
                    part@,
                ));
                assert(self.failed@ =~= record_failure(fbefore, part@));
                lemma_failures_distinct(old(self)@, t);
            }
            i = i + 1;
        }
        assert(ps.take(parts.len() as int) =~= ps);
        events
    }

    /// The events that close a download: when SteamCMD exited with an error
    /// and no item was reported as failed, a log line with the exit code
    /// (`-1` when there is none) and every requested id as failed; otherwise
    /// the failures reported.
    pub fn finish(&self, exit_success: bool, exit_code: Option<i32>, ids: &Vec<u64>) -> (r: Vec<
        DownloadEvent,
    >)
        ensures
            (!exit_success && self@.len() == 0) ==> download_events_view(r@) == seq![
                DownloadEventView::Log(exit_failure_message(exit_code)),
                DownloadEventView::Finished(ids@),
            ],
            !(!exit_success && self@.len() == 0) ==> download_events_view(r@) == seq![
                DownloadEventView::Finished(self@),
            ],
    {
        let mut r: Vec<DownloadEvent> = Vec::new();
        if !exit_success && self.failed.len() == 0 {
            r.push(DownloadEvent::Log(exit_failure_text(exit_code)));
            r.push(DownloadEvent::Finished { failed: ids.clone() });
        } else {
            r.push(DownloadEvent::Finished { failed: self.failed.clone() });
        }
        assert(download_events_view(r@) =~= if !exit_success && self@.len() == 0 {
            seq![DownloadEventView::Log(exit_failure_message(exit_code)), DownloadEventView::Finished(ids@)]
        } else {
            seq![DownloadEventView::Finished(self@)]
        });
        r
    }
}

/// Whether `v` holds `x`.
pub fn vec_contains(v: &Vec<u64>, x: u64) -> (r: bool)
    ensures
        r == v@.contains(x),
{
    let mut i: usize = 0;
    while i < v.len()
        invariant
            i <= v.len(),
            forall|j: int| 0 <= j < i ==> v@[j] != x,
        decreases v.len() - i,
    {
        if v[i] == x {
            return true;
        }
        i = i + 1;
    }
    false
}

/// The log line of a SteamCMD run that exited with an error.
pub open spec fn exit_failure_message(code: Option<i32>) -> Seq<char> {
    "✕ SteamCMD завершился с ошибкой (код "@ + signed_decimal(
        match code {
            Some(c) => c as int,
            None => -1,
        },
    ) + ")"@
}

fn exit_failure_text(code: Option<i32>) -> (r: String)
    ensures
        r@ == exit_failure_message(code),
{
    let mut s = string_of("✕ SteamCMD завершился с ошибкой (код ");
    let c = match code {
        Some(c) => c,
        None => -1,
    };
    push_signed_decimal(&mut s, c);
    push_str(&mut s, ")");
    s
}

/// Each part as a log line.
pub open spec fn log_events(parts: Seq<Seq<char>>) -> Seq<DownloadEventView> {
    parts.map_values(|p: Seq<char>| DownloadEventView::Log(p))
}

/// Each part of a line of SteamCMD's error output, as a log line.
pub fn error_line_events(line: &str) -> (r: Vec<DownloadEvent>)
    ensures
        download_events_view(r@) == log_events(console_parts(line@)),
{
    let parts = split_ansi_lines(line);
    let ghost ps = strings_view(parts@);
    let mut events: Vec<DownloadEvent> = Vec::new();
    let mut i: usize = 0;
    while i < parts.len()
        invariant
            i <= parts.len(),
            ps == strings_view(parts@),
            ps == console_parts(line@),
            download_events_view(events@) == log_events(ps.take(i as int)),
        decreases parts.len() - i,
    {
        let ghost before = events@;
        events.push(DownloadEvent::Log(parts[i].clone()));
        proof {
            assert(ps[i as int] == parts[i as int]@);
            assert(ps.take(i + 1) =~= ps.take(i as int).push(ps[i as int]));
            assert(log_events(ps.take(i + 1)) =~= log_events(ps.take(i as int)).push(
                DownloadEventView::Log(ps[i as int]),
            ));
            assert(download_events_view(events@) =~= download_events_view(before).push(
                DownloadEventView::Log(ps[i as int]),
            ));
        }
        i = i + 1;
    }
    assert(ps.take(parts.len() as int) =~= ps);
    events
}

/// The first log line of a download: which SteamCMD runs.
pub open spec fn launch_message(exe: Seq<char>, is_system: bool) -> Seq<char> {
    "SteamCMD: "@ + exe + " "@ + if is_system {
        "(системный)"@
    } else {
        ""@
    }
}

/// The second log line of a download: how many items are requested.
pub open spec fn count_message(count: nat) -> Seq<char> {
    "Скачиваем "@ + decimal(count) + " мод(ов)..."@
}

/// The log lines that open a download.
pub fn download_intro_events(exe: &str, is_system: bool, count: usize) -> (r: Vec<DownloadEvent>)
    ensures
        download_events_view(r@) == seq![
            DownloadEventView::Log(launch_message(exe@, is_system)),
            DownloadEventView::Log(count_message(count as nat)),
        ],
{
    let mut a = string_of("SteamCMD: ");
    push_str(&mut a, exe);
    push_str(&mut a, " ");
    if is_system {
        push_str(&mut a, "(системный)");
    } else {
        push_str(&mut a, "");
    }
    let mut b = string_of("Скачиваем ");
    push_decimal(&mut b, count as u64);
    push_str(&mut b, " мод(ов)...");
    let mut r: Vec<DownloadEvent> = Vec::new();
    r.push(DownloadEvent::Log(a));
    r.push(DownloadEvent::Log(b));
    assert(download_events_view(r@) =~= seq![
        DownloadEventView::Log(launch_message(exe@, is_system)),
        DownloadEventView::Log(count_message(count as nat)),
    ]);
    r
}

/// The log line telling that SteamCMD runs inside `steam-run`.
pub fn wrapped_notice() -> (r: DownloadEvent)
    ensures
        r@ == DownloadEventView::Log("(обёрнут в steam-run для FHS-совместимости)"@),
{
    DownloadEvent::Log(string_of("(обёрнут в steam-run для FHS-совместимости)"))
}

/// The events of a download that could not run at all: the error as a log
/// line, and every requested id as failed.
pub fn critical_error_events(message: &str, ids: &Vec<u64>) -> (r: Vec<DownloadEvent>)
    ensures
        download_events_view(r@) == seq![
            DownloadEventView::Log("Критическая ошибка: "@ + message@),
            DownloadEventView::Finished(ids@),
        ],
{
    let mut a = string_of("Критическая ошибка: ");
    push_str(&mut a, message);
    let mut r: Vec<DownloadEvent> = Vec::new();
    r.push(DownloadEvent::Log(a));
    r.push(DownloadEvent::Finished { failed: ids.clone() });
    assert(download_events_view(r@) =~= seq![
        DownloadEventView::Log("Критическая ошибка: "@ + message@),
        DownloadEventView::Finished(ids@),
    ]);
    r
}

// ─── Installing SteamCMD ─────────────────────────────────────────────────────

/// The archive format SteamCMD is distributed in.
#[derive(Debug, Clone, Copy, PartialEq, Eq, Structural)]
pub enum ArchiveKind {
    Zip,
    TarGz,
}

/// Where the SteamCMD installer for a platform is downloaded from.
pub fn installer_url(platform: Platform) -> (r: &'static str)
    ensures
        platform == Platform::Windows ==> r@
            == "https://steamcdn-a.akamaihd.net/client/installer/steamcmd.zip"@,
        platform == Platform::MacOs ==> r@
            == "https://steamcdn-a.akamaihd.net/client/installer/steamcmd_osx.tar.gz"@,
        platform == Platform::Linux ==> r@
            == "https://steamcdn-a.akamaihd.net/client/installer/steamcmd_linux.tar.gz"@,
{
    match platform {
        Platform::Windows => "https://steamcdn-a.akamaihd.net/client/installer/steamcmd.zip",
        Platform::MacOs => "https://steamcdn-a.akamaihd.net/client/installer/steamcmd_osx.tar.gz",
        Platform::Linux => "https://steamcdn-a.akamaihd.net/client/installer/steamcmd_linux.tar.gz",
    }
}

/// The installer is a zip archive on Windows and a gzipped tarball elsewhere;
/// outside Windows the launcher is then made executable.
pub fn installer_archive(platform: Platform) -> (r: (ArchiveKind, bool))
    ensures
        r.0 == (if platform == Platform::Windows {
            ArchiveKind::Zip
        } else {
            ArchiveKind::TarGz
        }),
        r.1 == (platform != Platform::Windows),
{
    if platform == Platform::Windows {
        (ArchiveKind::Zip, false)
    } else {
        (ArchiveKind::TarGz, true)
    }
}

/// The log line when the installer download starts.
pub fn install_download_event(url: &str) -> (r: InstallEvent)
    ensures
        r@ == InstallEventView::Log("Загрузка: "@ + url@),
{
    let mut a = string_of("Загрузка: ");
    push_str(&mut a, url);
    InstallEvent::Log(a)
}

/// The log line when the installer is unpacked: its size in whole MiB.
pub fn install_unpack_event(len: usize) -> (r: InstallEvent)
    ensures
        r@ == InstallEventView::Log(
            "Распаковка ("@ + decimal((len / 1048576) as nat) + " МБ)..."@,
        ),
{
    let mut a = string_of("Распаковка (");
    push_decimal(&mut a, (len / 1048576) as u64);
    push_str(&mut a, " МБ)...");
    InstallEvent::Log(a)
}

/// The end of an installation: success events when the launcher exists
/// after unpacking, else the error message.
pub fn install_outcome(executable_exists: bool) -> (r: Result<Vec<InstallEvent>, String>)
    ensures
        executable_exists ==> (r matches Ok(v) && install_events_view(v@) == seq![
            InstallEventView::Log("SteamCMD успешно установлен."@),
            InstallEventView::Done,
        ]),
        !executable_exists ==> (r matches Err(m) && m@
            == "Исполняемый файл не найден после распаковки"@),
{
    if executable_exists {
        let mut v: Vec<InstallEvent> = Vec::new();
        v.push(InstallEvent::Log(string_of("SteamCMD успешно установлен.")));
        v.push(InstallEvent::Done);
        assert(install_events_view(v@) =~= seq![
            InstallEventView::Log("SteamCMD успешно установлен."@),
            InstallEventView::Done,
        ]);
        Ok(v)
    } else {
        Err(string_of("Исполняемый файл не найден после распаковки"))
    }
}

} // verus!
