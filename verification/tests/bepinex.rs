use gametweaks::bepinex::{BepInExArchitecture, BepInExAvailability, BepInExReason, BepInExRuntime};
use gametweaks::detection::{
    installation_status, installed_bepinex_version, pe_architecture, pe_header_offset, single_candidate,
    unity_candidates, DataDirectoryFacts, InstallMarker, InstallationFiles,
};
use gametweaks::packages::{
    il2cpp_package_at, select_il2cpp_package, select_mono_package, stable_download, valid_bleeding_edge_name,
    GitHubAsset, GitHubRelease, WebUrl,
};
use gametweaks::archives::{check_package_entries, ArchiveEntry};
use gametweaks::paths::validate_archive_path;
use std::io::{Cursor, Read, Write};
use zip::write::SimpleFileOptions;
use zip::{ZipArchive, ZipWriter};

fn write_zip(entries: &[(&str, &[u8])]) -> Vec<u8> {
    let mut writer = ZipWriter::new(Cursor::new(Vec::new()));
    for (name, contents) in entries {
        writer.start_file(*name, SimpleFileOptions::default()).unwrap();
        writer.write_all(contents).unwrap();
    }
    writer.finish().unwrap().into_inner()
}

fn archive_entries(archive: &mut ZipArchive<Cursor<Vec<u8>>>) -> Vec<ArchiveEntry> {
    (0..archive.len())
        .map(|index| {
            let entry = archive.by_index(index).unwrap();
            ArchiveEntry {
                encrypted: entry.encrypted(),
                unix_mode: entry.unix_mode(),
                path: entry.enclosed_name().map(|path| path.to_string_lossy().into_owned()),
                size: entry.size(),
                is_dir: entry.is_dir(),
            }
        })
        .collect()
}

fn pe_image(machine: u16) -> Vec<u8> {
    let mut raw = vec![0_u8; 0x86];
    raw[0] = b'M';
    raw[1] = b'Z';
    raw[0x3c..0x40].copy_from_slice(&0x80_u32.to_le_bytes());
    raw[0x80..0x84].copy_from_slice(b"PE\0\0");
    raw[0x84..0x86].copy_from_slice(&machine.to_le_bytes());
    raw
}

fn architecture_of(raw: &[u8]) -> Result<BepInExArchitecture, BepInExReason> {
    let offset = pe_header_offset(&raw[..64.min(raw.len())])? as usize;
    let end = (offset + 6).min(raw.len());
    pe_architecture(&raw[offset.min(raw.len())..end])
}

fn mono_directory() -> DataDirectoryFacts {
    DataDirectoryFacts { executable: true, managed: true, game_assembly: false, metadata: false }
}

#[test]
fn detects_mono_x64_installation() {
    let candidates = unity_candidates(&vec![mono_directory()]).unwrap();
    let (_, runtime) = single_candidate(&candidates).unwrap();
    let architecture = architecture_of(&pe_image(0x8664)).unwrap();
    let status = installation_status(runtime, architecture, None, None, false).unwrap();
    assert_eq!(status.status, BepInExAvailability::Installable);
    assert_eq!(runtime, BepInExRuntime::Mono);
    assert_eq!(architecture, BepInExArchitecture::X64);
}

#[test]
fn detects_il2cpp_x86_installation() {
    let facts = DataDirectoryFacts { executable: true, managed: false, game_assembly: true, metadata: true };
    let candidates = unity_candidates(&vec![facts]).unwrap();
    let (_, runtime) = single_candidate(&candidates).unwrap();
    let architecture = architecture_of(&pe_image(0x014c)).unwrap();
    let status = installation_status(runtime, architecture, None, None, false).unwrap();
    assert_eq!(status.status, BepInExAvailability::Installable);
    assert_eq!(runtime, BepInExRuntime::Il2Cpp);
    assert_eq!(architecture, BepInExArchitecture::X86);
}

#[test]
fn blocks_anti_cheat_installation() {
    let status =
        installation_status(BepInExRuntime::Mono, BepInExArchitecture::X64, None, None, true).unwrap_err();
    assert_eq!(status.reason, Some(BepInExReason::AntiCheatDetected));
}

#[test]
fn rejects_multiple_unity_executables() {
    let candidates = unity_candidates(&vec![mono_directory(), mono_directory()]).unwrap();
    let status = single_candidate(&candidates).unwrap_err();
    assert_eq!(status.reason, Some(BepInExReason::AmbiguousExecutable));
}

#[test]
fn parses_bleeding_edge_asset_names() {
    assert!(valid_bleeding_edge_name("BepInEx-Unity.IL2CPP-win-x64-6.0.0-be.785+6abdba4.zip", "785"));
    assert!(!valid_bleeding_edge_name("BepInEx-Unity.IL2CPP-win-x64-6.0.0-be.784+6abdba4.zip", "785"));
}

#[test]
fn selects_latest_stable_mono_asset_with_digest() {
    let digest = format!("sha256:{}", "a".repeat(64));
    let releases = vec![
        GitHubRelease { draft: false, prerelease: false, tag_name: "v5.4.22.0".into(), assets: Vec::new() },
        GitHubRelease {
            draft: false,
            prerelease: false,
            tag_name: "v5.4.23.5".into(),
            assets: vec![GitHubAsset {
                name: "BepInEx_win_x64_5.4.23.5.zip".into(),
                browser_download_url: "https://github.com/BepInEx/BepInEx/releases/download/v5.4.23.5/BepInEx_win_x64_5.4.23.5.zip".into(),
                digest: Some(digest),
            }],
        },
    ];

    let package = select_mono_package(releases, BepInExArchitecture::X64).unwrap();
    assert_eq!(package.version, "5.4.23.5");
    assert!(package.expected_digest.is_some());
}

#[test]
fn rejects_stable_mono_asset_without_digest() {
    let releases = vec![GitHubRelease {
        draft: false,
        prerelease: false,
        tag_name: "v5.4.23.5".into(),
        assets: vec![GitHubAsset {
            name: "BepInEx_win_x64_5.4.23.5.zip".into(),
            browser_download_url: "https://github.com/BepInEx/BepInEx/releases/download/v5.4.23.5/BepInEx_win_x64_5.4.23.5.zip".into(),
            digest: None,
        }],
    }];

    assert!(select_mono_package(releases, BepInExArchitecture::X64).is_err());
}

#[test]
fn selects_first_matching_official_il2cpp_asset() {
    let html = r#"
            <a href="https://example.com/projects/bepinex_be/999/BepInEx-Unity.IL2CPP-win-x64-6.0.0-be.999%2Babcdef0.zip">bad</a>
            <a href="/projects/bepinex_be/785/BepInEx-Unity.IL2CPP-win-x64-6.0.0-be.785%2B6abdba4.zip">current</a>
            <a href="/projects/bepinex_be/784/BepInEx-Unity.IL2CPP-win-x64-6.0.0-be.784%2B0523d6f.zip">older</a>
        "#;

    let package = select_il2cpp_package(html, BepInExArchitecture::X64).unwrap();
    assert_eq!(package.version, "6.0.0-be.785+6abdba4");
    let url = url::Url::parse(&package.download_url).unwrap();
    assert_eq!(url.host_str(), Some("builds.bepinex.dev"));
}

#[test]
fn detects_an_existing_installation_marker() {
    let files = InstallationFiles {
        bepinex_exists: true,
        bepinex_is_dir: true,
        doorstop_exists: true,
        doorstop_is_file: true,
        winhttp_exists: true,
        winhttp_is_file: true,
        v5_core_is_file: true,
        v6_core_is_file: false,
    };
    let marker = InstallMarker {
        schema_version: 1,
        app_id: 10,
        version: "5.4.23.5".into(),
        runtime: "mono".into(),
        architecture: "x64".into(),
        source: "github-stable".into(),
        asset_name: "package.zip".into(),
        sha256: "a".repeat(64),
        files: vec!["BepInEx/core/BepInEx.dll".into(), "doorstop_config.ini".into(), "winhttp.dll".into()],
    };

    assert_eq!(
        installed_bepinex_version(files, Some(marker), None, None).unwrap(),
        Some(Some("5.4.23.5".into()))
    );
}

#[test]
fn rejects_archive_traversal_paths() {
    assert!(validate_archive_path("../winhttp.dll").is_err());
    assert!(validate_archive_path("game.exe").is_err());
    assert!(validate_archive_path("BepInEx/core/BepInEx.dll").is_ok());
}

#[test]
fn validates_and_extracts_a_mono_package() {
    let raw = write_zip(&[
        ("BepInEx/core/BepInEx.dll", b"core"),
        ("doorstop_config.ini", b"config"),
        ("winhttp.dll", b"doorstop"),
    ]);
    let mut archive = ZipArchive::new(Cursor::new(raw)).unwrap();
    let files = check_package_entries(&archive_entries(&mut archive), BepInExRuntime::Mono).unwrap();
    assert!(files.contains(&"BepInEx/core/BepInEx.dll".into()));
    let mut contents = Vec::new();
    archive.by_name("BepInEx/core/BepInEx.dll").unwrap().read_to_end(&mut contents).unwrap();
    assert_eq!(contents, b"core");
}

#[test]
fn rejects_a_package_for_the_wrong_runtime() {
    let raw = write_zip(&[
        ("BepInEx/core/BepInEx.dll", b"core"),
        ("doorstop_config.ini", b"config"),
        ("winhttp.dll", b"doorstop"),
    ]);
    let mut archive = ZipArchive::new(Cursor::new(raw)).unwrap();
    assert!(check_package_entries(&archive_entries(&mut archive), BepInExRuntime::Il2Cpp).is_err());
}

fn web_url(text: &str, scheme: &str, host: Option<&str>, segments: &[&str]) -> WebUrl {
    WebUrl {
        text: text.to_string(),
        scheme: scheme.to_string(),
        host: host.map(|h| h.to_string()),
        segments: segments.iter().map(|s| s.to_string()).collect(),
    }
}

#[test]
fn stable_packages_download_only_from_github_over_https() {
    let good = web_url("https://github.com/BepInEx/a.zip", "https", Some("github.com"), &["BepInEx", "a.zip"]);
    assert_eq!(stable_download(&good).unwrap(), "https://github.com/BepInEx/a.zip");
    let plain = web_url("http://github.com/BepInEx/a.zip", "http", Some("github.com"), &["BepInEx", "a.zip"]);
    assert_eq!(stable_download(&plain).unwrap_err().code, "bepinex_integrity_error");
    let other = web_url("https://example.com/a.zip", "https", Some("example.com"), &["a.zip"]);
    assert_eq!(stable_download(&other).unwrap_err().code, "bepinex_integrity_error");
}

#[test]
fn resolved_build_links_offer_their_package() {
    let name = "BepInEx-Unity.IL2CPP-win-x64-6.0.0-be.738+af0cba7.zip";
    let text = "https://builds.bepinex.dev/projects/bepinex_be/738/BepInEx-Unity.IL2CPP-win-x64-6.0.0-be.738%2Baf0cba7.zip";
    let url = web_url(
        text,
        "https",
        Some("builds.bepinex.dev"),
        &["projects", "bepinex_be", "738", "BepInEx-Unity.IL2CPP-win-x64-6.0.0-be.738%2Baf0cba7.zip"],
    );
    let package = il2cpp_package_at(&url, BepInExArchitecture::X64).unwrap().unwrap();
    assert_eq!(package.asset_name, name);
    assert_eq!(package.version, "6.0.0-be.738+af0cba7");
    assert_eq!(package.download_url, text);
    assert!(package.expected_digest.is_none());
    assert!(il2cpp_package_at(&url, BepInExArchitecture::X86).is_none());
    let elsewhere = web_url(text, "https", Some("example.com"), &["projects", "bepinex_be", "738", name]);
    assert!(il2cpp_package_at(&elsewhere, BepInExArchitecture::X64).is_none());
}
