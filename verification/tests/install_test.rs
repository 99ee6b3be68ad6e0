use flap::install::{
    choose_download, choose_init_download, download_too_small, is_binary_asset, path_export_line,
    path_with_dir, pick_binary_asset, text_contains, text_ends_with, Asset,
};

fn assets(names: &[&str]) -> Vec<Asset> {
    names
        .iter()
        .map(|n| Asset { name: n.to_string(), url: format!("https://example.invalid/{}", n) })
        .collect()
}

#[test]
fn binary_asset_names() {
    let target = "x86_64-unknown-linux-gnu";
    assert!(is_binary_asset("flap-x86_64-unknown-linux-gnu", target));
    assert!(is_binary_asset("flap-x86_64-unknown-linux-gnu.exe", target));
    assert!(!is_binary_asset("flap-x86_64-unknown-linux-gnu.tar.gz", target));
    assert!(!is_binary_asset("flap_installer-x86_64-unknown-linux-gnu", target));
    assert!(!is_binary_asset("flap-x86_64-apple-darwin", target));
}

#[test]
fn first_binary_asset_wins() {
    let names = assets(&[
        "flap-x86_64-pc-windows-msvc.zip",
        "flap_installer-x86_64-pc-windows-msvc.exe",
        "flap-x86_64-pc-windows-msvc.exe",
        "flap2-x86_64-pc-windows-msvc.exe",
    ]);
    assert_eq!(pick_binary_asset(&names, "x86_64-pc-windows-msvc"), Some(2));
    assert_eq!(pick_binary_asset(&names, "aarch64-apple-darwin"), None);
    assert_eq!(pick_binary_asset(&vec![], "x"), None);
}

#[test]
fn download_size_check() {
    assert!(download_too_small(0));
    assert!(download_too_small(10239));
    assert!(!download_too_small(10240));
}

#[test]
fn path_updates() {
    assert_eq!(path_with_dir("", "C:\\flap\\bin"), Some("C:\\flap\\bin".to_string()));
    assert_eq!(path_with_dir("C:\\a", "C:\\flap\\bin"), Some("C:\\a;C:\\flap\\bin".to_string()));
    assert_eq!(path_with_dir("C:\\a;C:\\flap\\bin", "C:\\flap\\bin"), None);
    assert_eq!(path_export_line("/home/u/.flap/bin"), "export PATH=\"/home/u/.flap/bin:$PATH\"");
}

#[test]
fn text_search() {
    assert!(text_contains("hello", "ll"));
    assert!(text_contains("hello", ""));
    assert!(!text_contains("hello", "lo!"));
    assert!(!text_contains("", "a"));
    assert!(text_ends_with("a.exe", ".exe"));
    assert!(!text_ends_with("exe", ".exe"));
    assert!(text_contains("héllo", "él"));
}

#[test]
fn download_prefers_bare_binary() {
    let list = assets(&[
        "flap-x86_64-unknown-linux-gnu.tar.gz",
        "flap-x86_64-unknown-linux-gnu",
    ]);
    let (a, archive) = choose_download(&list, "x86_64-unknown-linux-gnu", ".tar.gz").unwrap();
    assert_eq!(a.name, "flap-x86_64-unknown-linux-gnu");
    assert_eq!(a.url, "https://example.invalid/flap-x86_64-unknown-linux-gnu");
    assert!(!archive);
}

#[test]
fn download_falls_back_to_archive() {
    let list = assets(&[
        "flap-x86_64-pc-windows-msvc.zip",
        "flap-x86_64-unknown-linux-gnu.zip",
        "flap-x86_64-unknown-linux-gnu.tar.gz",
        "flap-x86_64-unknown-linux-gnu.tar.gz.sha256",
    ]);
    let (a, archive) = choose_download(&list, "x86_64-unknown-linux-gnu", ".tar.gz").unwrap();
    assert_eq!(a.name, "flap-x86_64-unknown-linux-gnu.tar.gz");
    assert_eq!(a.url, "https://example.invalid/flap-x86_64-unknown-linux-gnu.tar.gz");
    assert!(archive);
}

#[test]
fn download_needs_the_extension() {
    let list = assets(&["flap-x86_64-unknown-linux-gnu.zip", "notes.txt"]);
    assert!(choose_download(&list, "x86_64-unknown-linux-gnu", ".tar.gz").is_none());
    assert!(choose_download(&vec![], "x86_64-unknown-linux-gnu", ".tar.gz").is_none());
}

#[test]
fn init_download_takes_first_target_asset() {
    let list = assets(&[
        "flap-x86_64-apple-darwin.tar.gz",
        "flap-x86_64-pc-windows-msvc.zip",
        "flap-x86_64-pc-windows-msvc.exe",
    ]);
    let a = choose_init_download(&list, "x86_64-pc-windows-msvc").unwrap();
    assert_eq!(a.name, "flap-x86_64-pc-windows-msvc.zip");
    assert_eq!(a.url, "https://example.invalid/flap-x86_64-pc-windows-msvc.zip");
}
