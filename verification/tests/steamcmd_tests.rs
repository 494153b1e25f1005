use rust_rim::steamcmd::{
    choose_steamcmd, critical_error_events, download_args, download_intro_events,
    error_line_events, install_download_event, install_outcome, install_unpack_event,
    installer_archive, installer_url, is_installed, parse_downloading_id, parse_error_id,
    parse_id_after, parse_success_id, plan_launch, search_path_candidates, split_ansi_lines,
    steam_content_path, steam_download_dir, steamcmd_dir, steamcmd_executable, strip_ansi_codes,
    wrapped_notice, ArchiveKind, DownloadEvent, DownloadTracker, InstallEvent, LaunchPlan,
    Platform, RIMWORLD_APP_ID,
};
use rust_rim::text::u64_to_string;

#[test]
fn steamcmd_paths() {
    assert_eq!(steamcmd_dir("/data", Platform::Linux), "/data/steamcmd");
    assert_eq!(steamcmd_executable("/data", Platform::Linux), "/data/steamcmd/steamcmd.sh");
    assert_eq!(steamcmd_executable("/data", Platform::MacOs), "/data/steamcmd/steamcmd.sh");
    assert_eq!(steamcmd_executable("C:\\Data", Platform::Windows), "C:\\Data\\steamcmd\\steamcmd.exe");
    assert_eq!(steamcmd_executable("C:/Data/", Platform::Windows), "C:/Data/steamcmd\\steamcmd.exe");
    assert_eq!(steamcmd_dir("C:", Platform::Windows), "C:steamcmd");
    assert_eq!(steamcmd_dir("/data/", Platform::Linux), "/data/steamcmd");
    assert_eq!(steam_download_dir("/data", Platform::Linux), "/data/steam");
    assert_eq!(
        steam_content_path("/data", Platform::Linux),
        "/data/steam/steamapps/workshop/content/294100"
    );
    assert_eq!(RIMWORLD_APP_ID, "294100");
}

#[test]
fn content_path_under_download_dir() {
    for base in ["/data", "/data/", "", "C:/Games/Rim"] {
        let expected = format!(
            "{}/steamapps/workshop/content/294100",
            steam_download_dir(base, Platform::Linux)
        );
        assert_eq!(steam_content_path(base, Platform::Linux), expected);
        let expected = format!(
            "{}\\steamapps\\workshop\\content\\294100",
            steam_download_dir(base, Platform::Windows)
        );
        assert_eq!(steam_content_path(base, Platform::Windows), expected);
    }
}

#[test]
fn installed_check() {
    assert!(is_installed(true, true, false));
    assert!(!is_installed(true, false, true));
    assert!(is_installed(false, false, true));
    assert!(!is_installed(false, true, false));
}

#[test]
fn path_candidates() {
    let dirs = vec!["/usr/bin".to_string(), "/opt/bin/".to_string()];
    assert_eq!(
        search_path_candidates(&dirs, "steamcmd"),
        vec!["/usr/bin/steamcmd".to_string(), "/opt/bin/steamcmd".to_string()]
    );
}

#[test]
fn choosing_steamcmd() {
    assert_eq!(
        choose_steamcmd(true, Some("/run/bin/steamcmd".to_string()), "/b", Platform::Linux),
        Ok(("/run/bin/steamcmd".to_string(), true))
    );
    assert_eq!(
        choose_steamcmd(true, None, "/b", Platform::Linux),
        Err("NixOS: steamcmd не найден в PATH.\nУстановите через nixpkgs: nix-shell -p steamcmd".to_string())
    );
    assert_eq!(
        choose_steamcmd(false, Some("/ignored".to_string()), "/b", Platform::Linux),
        Ok(("/b/steamcmd/steamcmd.sh".to_string(), false))
    );
}

#[test]
fn launch_plans() {
    assert_eq!(
        plan_launch("/b/steamcmd.sh", Some("/bin/steam-run".to_string())),
        LaunchPlan {
            program: "/bin/steam-run".to_string(),
            leading_args: vec!["/b/steamcmd.sh".to_string()],
            wrapped: true
        }
    );
    assert_eq!(
        plan_launch("/b/steamcmd.sh", None),
        LaunchPlan { program: "/b/steamcmd.sh".to_string(), leading_args: vec![], wrapped: false }
    );
    assert_eq!(
        plan_launch("/run/current-system/sw/bin/steamcmd", Some("/bin/steam-run".to_string())),
        LaunchPlan {
            program: "/bin/steam-run".to_string(),
            leading_args: vec!["/run/current-system/sw/bin/steamcmd".to_string()],
            wrapped: true
        }
    );
}

#[test]
fn download_command_line() {
    let args = download_args("C:\\data\\steam", &vec![11, 2200], true);
    let want: Vec<String> = [
        "+force_install_dir", "C:/data/steam", "+login", "anonymous",
        "+workshop_download_item", "294100", "11", "validate",
        "+workshop_download_item", "294100", "2200", "validate", "+quit",
    ]
    .iter()
    .map(|s| s.to_string())
    .collect();
    assert_eq!(args, want);
    let args = download_args("/d/steam", &vec![5], false);
    let want: Vec<String> = [
        "+force_install_dir", "/d/steam", "+login", "anonymous",
        "+workshop_download_item", "294100", "5", "+quit",
    ]
    .iter()
    .map(|s| s.to_string())
    .collect();
    assert_eq!(args, want);
    assert_eq!(download_args("/d", &vec![], false).len(), 5);
}

#[test]
fn ansi_codes_are_stripped() {
    assert_eq!(strip_ansi_codes("\x1b[32mOK\x1b[0m done"), "OK done");
    assert_eq!(strip_ansi_codes("a\x1bb"), "ab");
    assert_eq!(strip_ansi_codes("x\x1b[12;3"), "x");
    assert_eq!(strip_ansi_codes("plain"), "plain");
    let once = strip_ansi_codes("\x1b[1;31mred\x1b[0m\x1b");
    assert_eq!(strip_ansi_codes(&once), once);
    assert!(!once.contains('\x1b'));
}

#[test]
fn console_lines_are_split() {
    assert_eq!(
        split_ansi_lines(" a \r\x1b[0m b\r\r  "),
        vec!["a".to_string(), "b".to_string()]
    );
    assert!(split_ansi_lines("   ").is_empty());
    assert!(split_ansi_lines("").is_empty());
    for part in split_ansi_lines("x\ry \r \x1b[2Kz\x1b") {
        assert!(!part.is_empty());
        assert_eq!(part.trim(), part);
        assert!(!part.contains('\r') && !part.contains('\x1b'));
    }
}

#[test]
fn ids_are_read_from_progress_lines() {
    assert_eq!(parse_downloading_id("Downloading item 123456 ..."), Some(123456));
    assert_eq!(
        parse_success_id("Success. Downloaded item 818773962 to \"/x\" (1 bytes)"),
        Some(818773962)
    );
    assert_eq!(parse_error_id("ERROR! Download item 42 failed (Failure)."), Some(42));
    assert_eq!(parse_downloading_id("Downloading item x"), None);
    assert_eq!(parse_downloading_id("nothing here"), None);
    assert_eq!(parse_id_after("id: 99999999999999999999", "id: "), None);
    assert_eq!(parse_id_after("a=1 a=2", "a="), Some(1));
    assert_eq!(parse_id_after("007z", ""), Some(7));
}

#[test]
fn echoed_ids_read_back() {
    for id in [0u64, 1, 818773962, u64::MAX] {
        let line = format!("Success. Downloaded item {} to \"/tmp\"", u64_to_string(id));
        assert_eq!(parse_success_id(&line), Some(id));
    }
}

#[test]
fn tracker_reports_progress() {
    let mut t = DownloadTracker::new();
    let ev = t.observe_line("Downloading item 5\x1b[0m\rSuccess. Downloaded item 5 to x");
    assert_eq!(
        ev,
        vec![
            DownloadEvent::Log("Downloading item 5".to_string()),
            DownloadEvent::ItemStarted(5),
            DownloadEvent::Log("Success. Downloaded item 5 to x".to_string()),
            DownloadEvent::ItemDone(5),
        ]
    );
    let ev = t.observe_line("ERROR! Download item 7 failed");
    assert_eq!(
        ev,
        vec![
            DownloadEvent::Log("ERROR! Download item 7 failed".to_string()),
            DownloadEvent::ItemFailed(7),
        ]
    );
    t.observe_line("ERROR! Download item 7 failed again");
    assert_eq!(t.failed(), vec![7]);
    assert_eq!(t.finish(false, Some(8), &vec![5, 7]), vec![DownloadEvent::Finished { failed: vec![7] }]);
}

#[test]
fn tracker_finish_after_bad_exit() {
    let t = DownloadTracker::new();
    assert_eq!(
        t.finish(false, Some(3), &vec![1, 2]),
        vec![
            DownloadEvent::Log("✕ SteamCMD завершился с ошибкой (код 3)".to_string()),
            DownloadEvent::Finished { failed: vec![1, 2] },
        ]
    );
    assert_eq!(
        t.finish(false, None, &vec![1]),
        vec![
            DownloadEvent::Log("✕ SteamCMD завершился с ошибкой (код -1)".to_string()),
            DownloadEvent::Finished { failed: vec![1] },
        ]
    );
    assert_eq!(t.finish(true, Some(0), &vec![1]), vec![DownloadEvent::Finished { failed: vec![] }]);
}

#[test]
fn download_messages() {
    assert_eq!(
        download_intro_events("/sys/steamcmd", true, 3),
        vec![
            DownloadEvent::Log("SteamCMD: /sys/steamcmd (системный)".to_string()),
            DownloadEvent::Log("Скачиваем 3 мод(ов)...".to_string()),
        ]
    );
    assert_eq!(
        download_intro_events("/b/steamcmd.sh", false, 0)[0],
        DownloadEvent::Log("SteamCMD: /b/steamcmd.sh ".to_string())
    );
    assert_eq!(
        wrapped_notice(),
        DownloadEvent::Log("(обёрнут в steam-run для FHS-совместимости)".to_string())
    );
    assert_eq!(
        critical_error_events("boom", &vec![4]),
        vec![
            DownloadEvent::Log("Критическая ошибка: boom".to_string()),
            DownloadEvent::Finished { failed: vec![4] },
        ]
    );
    assert_eq!(
        error_line_events("warn\r\x1b[31mbad\x1b[0m\r "),
        vec![DownloadEvent::Log("warn".to_string()), DownloadEvent::Log("bad".to_string())]
    );
}

#[test]
fn installer_choices() {
    assert_eq!(
        installer_url(Platform::Windows),
        "https://steamcdn-a.akamaihd.net/client/installer/steamcmd.zip"
    );
    assert_eq!(
        installer_url(Platform::MacOs),
        "https://steamcdn-a.akamaihd.net/client/installer/steamcmd_osx.tar.gz"
    );
    assert_eq!(
        installer_url(Platform::Linux),
        "https://steamcdn-a.akamaihd.net/client/installer/steamcmd_linux.tar.gz"
    );
    assert_eq!(installer_archive(Platform::Windows), (ArchiveKind::Zip, false));
    assert_eq!(installer_archive(Platform::Linux), (ArchiveKind::TarGz, true));
}

#[test]
fn install_messages() {
    assert_eq!(install_download_event("u"), InstallEvent::Log("Загрузка: u".to_string()));
    assert_eq!(
        install_unpack_event(3 * 1_048_576 + 5),
        InstallEvent::Log("Распаковка (3 МБ)...".to_string())
    );
    assert_eq!(
        install_outcome(true),
        Ok(vec![InstallEvent::Log("SteamCMD успешно установлен.".to_string()), InstallEvent::Done])
    );
    assert_eq!(
        install_outcome(false),
        Err("Исполняемый файл не найден после распаковки".to_string())
    );
}

fn is_subsequence(a: &str, s: &str) -> bool {
    let mut it = s.chars();
    a.chars().all(|c| it.any(|d| d == c))
}

#[test]
fn stripping_keeps_a_subsequence() {
    for s in ["\x1b[0mUpdate\x1b[1m state", "plain", "\x1b\x1b[", "a\x1b[12;3Hb\x1bc", ""] {
        let r = strip_ansi_codes(s);
        assert!(is_subsequence(&r, s));
        assert!(!r.contains('\x1b'));
        assert_eq!(strip_ansi_codes(&r), r);
    }
}
