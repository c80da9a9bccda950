use cdr_outline::digest::{hex, sha256};
use cdr_outline::updater::{
    check_latest, check_package, current_version, find_checksum, is_newer, proxy_from_environment,
    proxy_from_registry, ps_quote, update_script, Asset, Release, UpdateError,
};

#[test]
fn compares_versions() {
    assert!(is_newer("0.1.25", "0.1.24"));
    assert!(!is_newer("0.1.24", "0.1.25"));
}

#[test]
fn versions_are_compared_by_their_numbers() {
    assert!(is_newer("0.10.0", "0.9.9"));
    assert!(!is_newer("0.1.26", "0.1.26"));
    assert!(is_newer("1", "0.99.99"));
    assert!(!is_newer("x.y.z", "0.0.0"));
}

fn release(tag: &str, names: &[&str]) -> Release {
    Release {
        tag_name: tag.to_owned(),
        assets: names
            .iter()
            .map(|name| Asset {
                name: name.to_string(),
                browser_download_url: format!("https://host/{name}"),
            })
            .collect(),
    }
}

#[test]
fn a_newer_release_is_offered() {
    let names = ["notes.txt", "CDR-ImageOutline-0.1.27-Windows-x64.zip", "SHA256SUMS.txt"];
    let latest = check_latest(&release("v0.1.27", &names)).unwrap().unwrap();
    assert_eq!(latest.version, "0.1.27");
    assert_eq!(latest.zip_name, "CDR-ImageOutline-0.1.27-Windows-x64.zip");
    assert_eq!(latest.zip_url, "https://host/CDR-ImageOutline-0.1.27-Windows-x64.zip");
    assert_eq!(latest.checksum_url, "https://host/SHA256SUMS.txt");
    assert!(check_latest(&release("v0.1.26", &names)).unwrap().is_none());
    assert_eq!(current_version(), "0.1.26");
}

#[test]
fn an_incomplete_release_is_refused() {
    let error = check_latest(&release("v9", &["SHA256SUMS.txt"])).err().unwrap();
    assert_eq!(error.message(), "最新版本没有 Windows x64 更新包");
    let error = check_latest(&release("v9", &["a-Windows-x64.zip"])).err().unwrap();
    assert_eq!(error.message(), "最新版本没有 SHA-256 校验文件");
}

const ABC: &str = "ba7816bf8f01cfea414140de5dae2223b00361a396177a9cb410ff61f20015ad";

#[test]
fn checksums_are_found() {
    let sums = format!("{}  other.zip\r\n{ABC}  a.zip\r\n", "0".repeat(64));
    assert_eq!(find_checksum(&sums, "a.zip").unwrap(), ABC);
    assert_eq!(find_checksum(&sums, "b.zip").unwrap_err(), UpdateError::NoChecksum);
    assert_eq!(find_checksum("abc a.zip", "a.zip").unwrap_err(), UpdateError::NoChecksum);
}

#[test]
fn packages_are_checked() {
    assert_eq!(sha256(b"abc"), ABC);
    assert_eq!(
        sha256(b""),
        "e3b0c44298fc1c149afbf4c8996fb92427ae41e4649b934ca495991b7852b855"
    );
    assert_eq!(hex(&[0, 9, 10, 255]), "00090aff");
    assert!(check_package(b"abc", &ABC.to_uppercase()).is_ok());
    let error = check_package(b"abd", ABC).unwrap_err();
    assert_eq!(error.message(), "更新包 SHA-256 校验失败，已停止更新。");
}

#[test]
fn scripts_are_quoted() {
    assert_eq!(ps_quote("it's"), "it''s");
    let script = update_script(7, "C:\\t'\\u.zip", "C:\\b", "C:\\b\\e.exe", "C:\\s.ps1");
    assert!(script.starts_with("$ErrorActionPreference = 'Stop'\n$pidToWait = 7\n"));
    assert!(script.contains("Expand-Archive -LiteralPath 'C:\\t''\\u.zip' -DestinationPath"));
    assert!(script.ends_with("Remove-Item -LiteralPath 'C:\\s.ps1' -Force\n"));
}

#[test]
fn proxies_are_found() {
    let values = vec![None, Some("  ".to_owned()), Some("http://p:1".to_owned())];
    assert_eq!(proxy_from_environment(&values).unwrap(), "http://p:1");
    assert!(proxy_from_environment(&vec![None]).is_none());
    let output = "HKEY\r\n    ProxyServer    REG_SZ    ftp=f:1;https=h:2\r\n";
    assert_eq!(proxy_from_registry(output).unwrap(), "http://h:2");
    let output = "    ProxyServer    REG_SZ    https://h:2\r\n";
    assert_eq!(proxy_from_registry(output).unwrap(), "https://h:2");
    assert!(proxy_from_registry("nothing").is_none());
}
