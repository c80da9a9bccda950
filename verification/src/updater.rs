//! Updates: which release is newer, what it has to hold, and whether what was
//! downloaded is what was announced.

use vstd::prelude::*;
use vstd::utf8::encode_utf8;

use crate::digest::{checksum_of, sha256};
use crate::text::{
    after_prefix, chars_of, contains_part, copy_range, decimal, ends_with, find_first_word,
    find_last_word, first_word, holds_part, is_blank, is_digit, is_white_space, is_word,
    last_word, law_decimal_reads_back, law_lines_follow_each_other,
    law_parts_stand_in_their_whole, law_replacing_works_one_by_one, law_splitting_loses_nothing,
    law_words_stand_between_white_space, lemma_decimal, lines, lines_from, lower, parts_of,
    push_decimal, read_unsigned, replace_char, replaced, same_text, split, split_from, stands_at,
    string_of, strip_prefix, text_stands_at, trim, trimmed, unsigned_number,
};

verus! {

/// A release that can be installed.
#[derive(Debug, Clone)]
pub struct UpdateInfo {
    pub version: String,
    pub zip_url: String,
    pub checksum: String,
}

/// A release as it is announced.
pub struct Release {
    pub tag_name: String,
    pub assets: Vec<Asset>,
}

/// A file of a release.
pub struct Asset {
    pub name: String,
    pub browser_download_url: String,
}

/// Why a release cannot be installed.
#[derive(Debug, Clone, Copy, PartialEq, Eq, Structural)]
pub enum UpdateError {
    /// It has no package.
    NoPackage,
    /// It has no file of checksums.
    NoChecksumFile,
    /// The checksum of its package is not among them.
    NoChecksum,
    /// The package is not the announced one.
    ChecksumMismatch,
}

impl UpdateError {
    /// The text shown for the error.
    pub open spec fn spec_message(self) -> Seq<char> {
        match self {
            UpdateError::NoPackage => "最新版本没有 Windows x64 更新包"@,
            UpdateError::NoChecksumFile => "最新版本没有 SHA-256 校验文件"@,
            UpdateError::NoChecksum => "校验文件中没有更新包的 SHA-256"@,
            UpdateError::ChecksumMismatch => "更新包 SHA-256 校验失败，已停止更新。"@,
        }
    }

    /// The text shown for the error.
    pub fn message(self) -> (res: String)
        ensures
            res@ == self.spec_message(),
    {
        match self {
            UpdateError::NoPackage => "最新版本没有 Windows x64 更新包".to_owned(),
            UpdateError::NoChecksumFile => "最新版本没有 SHA-256 校验文件".to_owned(),
            UpdateError::NoChecksum => "校验文件中没有更新包的 SHA-256".to_owned(),
            UpdateError::ChecksumMismatch => "更新包 SHA-256 校验失败，已停止更新。".to_owned(),
        }
    }
}

/// The version of this program.
pub fn current_version() -> (res: &'static str)
    ensures
        res@ == "0.1.26"@,
{
    "0.1.26"
}

// ---------------------------------------------------------------------------
// Versions
// ---------------------------------------------------------------------------

/// A part of a version; what is no number counts as zero.
pub open spec fn version_part(parts: Seq<Seq<char>>, index: int) -> nat {
    if index < parts.len() {
        match unsigned_number(parts[index], u64::MAX as nat) {
            Some(number) => number,
            None => 0,
        }
    } else {
        0
    }
}

/// The three numbers of a version; missing ones are zero, and further ones are left
/// out.
pub open spec fn version_numbers(version: Seq<char>) -> (nat, nat, nat) {
    let parts = split_from(version, '.', 0);
    (version_part(parts, 0), version_part(parts, 1), version_part(parts, 2))
}

/// Whether version `a` is newer than version `b`: the first number in which they
/// differ is the larger one.
pub open spec fn newer(a: (nat, nat, nat), b: (nat, nat, nat)) -> bool {
    a.0 > b.0 || (a.0 == b.0 && (a.1 > b.1 || (a.1 == b.1 && a.2 > b.2)))
}

/// No version is newer than itself, of two versions at most one is newer, and what is
/// newer than a newer version is newer.
pub proof fn law_newer_is_an_order(a: Seq<char>, b: Seq<char>, c: Seq<char>)
    ensures
        !newer(version_numbers(a), version_numbers(a)),
        newer(version_numbers(a), version_numbers(b)) ==> !newer(
            version_numbers(b),
            version_numbers(a),
        ),
        newer(version_numbers(a), version_numbers(b)) && newer(
            version_numbers(b),
            version_numbers(c),
        ) ==> newer(version_numbers(a), version_numbers(c)),
{
}

fn read_part(parts: &Vec<Vec<char>>, index: usize) -> (res: u64)
    ensures
        res == version_part(parts_of(parts@), index as int),
{
    if index < parts.len() {
        assert(parts_of(parts@)[index as int] == parts@[index as int]@);
        match read_unsigned(parts[index].as_slice(), u64::MAX) {
            Some(number) => number,
            None => 0,
        }
    } else {
        0
    }
}

/// Whether version `candidate` is newer than version `current`.
pub fn is_newer(candidate: &str, current: &str) -> (res: bool)
    ensures
        res == newer(version_numbers(candidate@), version_numbers(current@)),
{
    let left = split(chars_of(candidate).as_slice(), '.');
    let right = split(chars_of(current).as_slice(), '.');
    let left_0 = read_part(&left, 0);
    let left_1 = read_part(&left, 1);
    let left_2 = read_part(&left, 2);
    let right_0 = read_part(&right, 0);
    let right_1 = read_part(&right, 1);
    let right_2 = read_part(&right, 2);
    left_0 > right_0 || (left_0 == right_0 && (left_1 > right_1 || (left_1 == right_1 && left_2
        > right_2)))
}

// ---------------------------------------------------------------------------
// Releases
// ---------------------------------------------------------------------------

/// A version tag without the letters `v` in front.
pub open spec fn without_v(tag: Seq<char>) -> Seq<char>
    decreases tag.len(),
{
    if tag.len() > 0 && tag[0] == 'v' {
        without_v(tag.skip(1))
    } else {
        tag
    }
}

pub open spec fn is_package(name: Seq<char>) -> bool {
    let suffix = "-Windows-x64.zip"@;
    suffix.len() <= name.len() && stands_at(name, suffix, name.len() - suffix.len())
}

pub open spec fn is_checksum_file(name: Seq<char>) -> bool {
    name == "SHA256SUMS.txt"@
}

/// The first asset that satisfies `wanted`, at or after `from`.
pub open spec fn first_asset(
    assets: Seq<Asset>,
    wanted: spec_fn(Seq<char>) -> bool,
    from: int,
) -> Option<int>
    decreases assets.len() - from,
{
    if from >= assets.len() {
        None
    } else if wanted(assets[from].name@) {
        Some(from)
    } else {
        first_asset(assets, wanted, from + 1)
    }
}

/// The files of a release that have to be downloaded.
pub struct LatestRelease {
    pub version: String,
    pub zip_name: String,
    pub zip_url: String,
    pub checksum_url: String,
}

fn strip_v(tag: &str) -> (res: String)
    ensures
        res@ == without_v(tag@),
{
    let chars = chars_of(tag);
    let mut from: usize = 0;
    assert(chars@.skip(0) =~= chars@);
    while from < chars.len() && chars[from] == 'v'
        invariant
            from <= chars@.len(),
            chars@ == tag@,
            without_v(tag@) == without_v(chars@.skip(from as int)),
        decreases chars@.len() - from,
    {
        assert(chars@.skip(from as int).skip(1) =~= chars@.skip(from + 1));
        from = from + 1;
    }
    let rest = copy_range(chars.as_slice(), from, chars.len());
    assert(rest@ =~= chars@.skip(from as int));
    string_of(rest.as_slice())
}

/// What the latest release offers: nothing, unless it is newer than this program and
/// has a package with a checksum.
pub fn check_latest(release: &Release) -> (res: Result<Option<LatestRelease>, UpdateError>)
    ensures
        ({
            let version = without_v(release.tag_name@);
            let zip = first_asset(release.assets@, |name: Seq<char>| is_package(name), 0);
            let sums = first_asset(release.assets@, |name: Seq<char>| is_checksum_file(name), 0);
            match res {
                Ok(None) => !newer(version_numbers(version), version_numbers("0.1.26"@)),
                Ok(Some(latest)) => {
                    &&& newer(version_numbers(version), version_numbers("0.1.26"@))
                    &&& latest.version@ == version
                    &&& zip matches Some(i) && latest.zip_name@ == release.assets@[i].name@
                        && latest.zip_url@ == release.assets@[i].browser_download_url@
                    &&& sums matches Some(i) && latest.checksum_url@
                        == release.assets@[i].browser_download_url@
                },
                Err(error) => {
                    &&& newer(version_numbers(version), version_numbers("0.1.26"@))
                    &&& error == if zip is None {
                        UpdateError::NoPackage
                    } else {
                        UpdateError::NoChecksumFile
                    }
                    &&& zip is None || sums is None
                },
            }
        }),
{
    let version = strip_v(release.tag_name.as_str());
    if !is_newer(version.as_str(), current_version()) {
        return Ok(None);
    }
    let ghost package = |name: Seq<char>| is_package(name);
    let ghost sums = |name: Seq<char>| is_checksum_file(name);
    let count: usize = release.assets.len();
    let mut zip: usize = 0;
    while zip < count && !ends_with(
        chars_of(release.assets[zip].name.as_str()).as_slice(),
        "-Windows-x64.zip",
    )
        invariant
            zip <= count,
            count == release.assets@.len(),
            package == (|name: Seq<char>| is_package(name)),
            first_asset(release.assets@, package, 0) == first_asset(
                release.assets@,
                package,
                zip as int,
            ),
        decreases count - zip,
    {
        zip = zip + 1;
    }
    if zip == count {
        return Err(UpdateError::NoPackage);
    }
    assert(first_asset(release.assets@, package, 0) == Some(zip as int));
    let mut file: usize = 0;
    while file < count && !same_text(release.assets[file].name.as_str(), "SHA256SUMS.txt")
        invariant
            file <= count,
            count == release.assets@.len(),
            sums == (|name: Seq<char>| is_checksum_file(name)),
            first_asset(release.assets@, sums, 0) == first_asset(
                release.assets@,
                sums,
                file as int,
            ),
        decreases count - file,
    {
        file = file + 1;
    }
    if file == count {
        return Err(UpdateError::NoChecksumFile);
    }
    assert(first_asset(release.assets@, sums, 0) == Some(file as int));
    Ok(
        Some(
            LatestRelease {
                version,
                zip_name: release.assets[zip].name.clone(),
                zip_url: release.assets[zip].browser_download_url.clone(),
                checksum_url: release.assets[file].browser_download_url.clone(),
            },
        ),
    )
}

/// The first of `lines` that holds `name`, at or after `from`.
pub open spec fn line_with(lines: Seq<Seq<char>>, name: Seq<char>, from: int) -> Option<Seq<char>>
    decreases lines.len() - from,
{
    if from < 0 || from >= lines.len() {
        None
    } else if holds_part(lines[from], name) {
        Some(lines[from])
    } else {
        line_with(lines, name, from + 1)
    }
}

/// The checksum of a file: the first word of the first line that names it, if it has
/// the length of one.
pub open spec fn spec_find_checksum(checksums: Seq<char>, name: Seq<char>) -> Option<Seq<char>> {
    match line_with(lines_from(checksums, 0), name, 0) {
        Some(line) => match first_word(line) {
            Some(word) => if encode_utf8(word).len() == 64 {
                Some(word)
            } else {
                None
            },
            None => None,
        },
        None => None,
    }
}

fn find_line(all: &Vec<Vec<char>>, name: &[char]) -> (res: Option<Vec<char>>)
    ensures
        match res {
            Some(line) => line_with(parts_of(all@), name@, 0) == Some(line@),
            None => line_with(parts_of(all@), name@, 0) is None,
        },
{
    let ghost parts = parts_of(all@);
    let mut at: usize = 0;
    while at < all.len()
        invariant
            at <= all@.len(),
            parts == parts_of(all@),
            line_with(parts, name@, 0) == line_with(parts, name@, at as int),
        decreases all@.len() - at,
    {
        assert(parts[at as int] == all@[at as int]@);
        if contains_part(all[at].as_slice(), name) {
            let line = copy_range(all[at].as_slice(), 0, all[at].len());
            assert(line@ =~= all@[at as int]@);
            return Some(line);
        }
        at = at + 1;
    }
    None
}

/// The checksum of the file `name` in a file of checksums.
pub fn find_checksum(checksums: &str, name: &str) -> (res: Result<String, UpdateError>)
    ensures
        match res {
            Ok(checksum) => spec_find_checksum(checksums@, name@) == Some(checksum@),
            Err(error) => spec_find_checksum(checksums@, name@) is None && error
                == UpdateError::NoChecksum,
        },
{
    let all = lines(chars_of(checksums).as_slice());
    match find_line(&all, chars_of(name).as_slice()) {
        Some(line) => match find_first_word(line.as_slice()) {
            Some(word) => {
                let text = string_of(word.as_slice());
                if text.as_str().as_bytes().len() == 64 {
                    Ok(text)
                } else {
                    Err(UpdateError::NoChecksum)
                }
            },
            None => Err(UpdateError::NoChecksum),
        },
        None => Err(UpdateError::NoChecksum),
    }
}

/// Whether a package is the announced one: its checksum is the announced one, but for
/// the case of letters in the latter.
pub fn check_package(package: &[u8], checksum: &str) -> (res: Result<(), UpdateError>)
    ensures
        res == (if checksum_of(package@) == checksum@.map_values(|c: char| lower(c)) {
            Ok(())
        } else {
            Err::<(), _>(UpdateError::ChecksumMismatch)
        }),
{
    let actual = sha256(package);
    let announced = crate::text::lower_text(checksum);
    if actual == announced {
        Ok(())
    } else {
        Err(UpdateError::ChecksumMismatch)
    }
}

// ---------------------------------------------------------------------------
// The script that applies an update
// ---------------------------------------------------------------------------

/// A text as it stands between single quotes of a script: quotes in it are doubled.
pub open spec fn quoted(text: Seq<char>) -> Seq<char> {
    replaced(text, '\'', "''"@, text.len() as int)
}

/// A text as it stands between single quotes of a script.
pub fn ps_quote(text: &str) -> (res: String)
    ensures
        res@ == quoted(text@),
{
    replace_char(text, '\'', "''")
}

/// The script that waits for process `pid`, unpacks the package over the program, and
/// starts the program again.
pub open spec fn spec_update_script(
    pid: nat,
    zip: Seq<char>,
    bundle: Seq<char>,
    exe: Seq<char>,
    script: Seq<char>,
) -> Seq<char> {
    "$ErrorActionPreference = 'Stop'\n$pidToWait = "@ + decimal(pid)
        + "\nWait-Process -Id $pidToWait\n$stage = Join-Path $env:TEMP 'cdr-update-stage-"@
        + decimal(pid)
        + "'\nRemove-Item -LiteralPath $stage -Recurse -Force -ErrorAction SilentlyContinue\nExpand-Archive -LiteralPath '"@
        + quoted(zip)
        + "' -DestinationPath $stage -Force\nGet-ChildItem -LiteralPath $stage -File -Recurse | ForEach-Object {\n  $relative = $_.FullName.Substring($stage.Length).TrimStart('\\')\n  $destination = Join-Path '"@
        + quoted(bundle)
        + "' $relative\n  New-Item -ItemType Directory -Path (Split-Path $destination) -Force | Out-Null\n  Copy-Item -LiteralPath $_.FullName -Destination $destination -Force\n}\nRemove-Item -LiteralPath $stage -Recurse -Force\nStart-Process -FilePath '"@
        + quoted(exe) + "'\nRemove-Item -LiteralPath '"@ + quoted(script) + "' -Force\n"@
}

/// The script that applies an update.
pub fn update_script(pid: u32, zip: &str, bundle: &str, exe: &str, script: &str) -> (res: String)
    ensures
        res@ == spec_update_script(pid as nat, zip@, bundle@, exe@, script@),
{
    let mut res = "$ErrorActionPreference = 'Stop'\n$pidToWait = ".to_owned();
    push_decimal(&mut res, pid as u64);
    res.push_str("\nWait-Process -Id $pidToWait\n$stage = Join-Path $env:TEMP 'cdr-update-stage-");
    push_decimal(&mut res, pid as u64);
    res.push_str(
        "'\nRemove-Item -LiteralPath $stage -Recurse -Force -ErrorAction SilentlyContinue\nExpand-Archive -LiteralPath '",
    );
    res.push_str(ps_quote(zip).as_str());
    res.push_str(
        "' -DestinationPath $stage -Force\nGet-ChildItem -LiteralPath $stage -File -Recurse | ForEach-Object {\n  $relative = $_.FullName.Substring($stage.Length).TrimStart('\\')\n  $destination = Join-Path '",
    );
    res.push_str(ps_quote(bundle).as_str());
    res.push_str(
        "' $relative\n  New-Item -ItemType Directory -Path (Split-Path $destination) -Force | Out-Null\n  Copy-Item -LiteralPath $_.FullName -Destination $destination -Force\n}\nRemove-Item -LiteralPath $stage -Recurse -Force\nStart-Process -FilePath '",
    );
    res.push_str(ps_quote(exe).as_str());
    res.push_str("'\nRemove-Item -LiteralPath '");
    res.push_str(ps_quote(script).as_str());
    res.push_str("' -Force\n");
    res
}

// ---------------------------------------------------------------------------
// Proxies
// ---------------------------------------------------------------------------

/// The first of `values` from `from` on that is not blank.
pub open spec fn first_not_blank(values: Seq<Option<String>>, from: int) -> Option<Seq<char>>
    decreases values.len() - from,
{
    if from >= values.len() {
        None
    } else {
        match values[from] {
            Some(value) => if trimmed(value@).len() > 0 {
                Some(value@)
            } else {
                first_not_blank(values, from + 1)
            },
            None => first_not_blank(values, from + 1),
        }
    }
}

/// The proxy that the environment names: the first variable that is set and not blank.
pub fn proxy_from_environment(values: &Vec<Option<String>>) -> (res: Option<String>)
    ensures
        match res {
            Some(proxy) => first_not_blank(values@, 0) == Some(proxy@),
            None => first_not_blank(values@, 0) is None,
        },
{
    let mut at: usize = 0;
    while at < values.len()
        invariant
            at <= values@.len(),
            first_not_blank(values@, 0) == first_not_blank(values@, at as int),
        decreases values@.len() - at,
    {
        match &values[at] {
            Some(value) => {
                if trim(chars_of(value.as_str()).as_slice()).len() > 0 {
                    return Some(value.clone());
                }
            },
            None => {},
        }
        at = at + 1;
    }
    None
}

/// What follows `https=`, or else `http=`, in a part of a proxy list.
pub open spec fn named_proxy(part: Seq<char>) -> Option<Seq<char>> {
    match after_prefix(part, "https="@) {
        Some(rest) => Some(rest),
        None => after_prefix(part, "http="@),
    }
}

/// The first proxy of a list, at or after `from`, that is given for web pages.
pub open spec fn listed_proxy(parts: Seq<Seq<char>>, from: int) -> Option<Seq<char>>
    decreases parts.len() - from,
{
    if from >= parts.len() {
        None
    } else if named_proxy(parts[from]) is Some {
        named_proxy(parts[from])
    } else {
        listed_proxy(parts, from + 1)
    }
}

/// A proxy with its scheme.
pub open spec fn with_scheme(proxy: Seq<char>) -> Seq<char> {
    if stands_at(proxy, "http://"@, 0) || stands_at(proxy, "https://"@, 0) {
        proxy
    } else {
        "http://"@ + proxy
    }
}

/// The proxy in the output of a registry query: the last word of the line that names
/// it, or the proxy for web pages where that word is a list.
pub open spec fn registry_proxy(output: Seq<char>) -> Option<Seq<char>> {
    match line_with(lines_from(output, 0), "ProxyServer"@, 0) {
        Some(line) => match last_word(line) {
            Some(word) => Some(
                with_scheme(
                    match listed_proxy(split_from(word, ';', 0), 0) {
                        Some(listed) => listed,
                        None => word,
                    },
                ),
            ),
            None => None,
        },
        None => None,
    }
}

fn find_named_proxy(part: &[char]) -> (res: Option<Vec<char>>)
    ensures
        match res {
            Some(rest) => named_proxy(part@) == Some(rest@),
            None => named_proxy(part@) is None,
        },
{
    match strip_prefix(part, "https=") {
        Some(rest) => Some(rest),
        None => strip_prefix(part, "http="),
    }
}

/// The proxy in the output of a registry query.
pub fn proxy_from_registry(output: &str) -> (res: Option<String>)
    ensures
        match res {
            Some(proxy) => registry_proxy(output@) == Some(proxy@),
            None => registry_proxy(output@) is None,
        },
{
    let all = lines(chars_of(output).as_slice());
    let line = match find_line(&all, chars_of("ProxyServer").as_slice()) {
        Some(line) => line,
        None => return None,
    };
    let word = match find_last_word(line.as_slice()) {
        Some(word) => word,
        None => return None,
    };
    let parts = split(word.as_slice(), ';');
    let ghost all_parts = parts_of(parts@);
    let mut value = copy_range(word.as_slice(), 0, word.len());
    assert(value@ =~= word@);
    let mut at: usize = 0;
    let mut found = false;
    while at < parts.len() && !found
        invariant
            at <= parts@.len(),
            all_parts == parts_of(parts@),
            !found ==> value@ == word@ && listed_proxy(all_parts, 0) == listed_proxy(
                all_parts,
                at as int,
            ),
            found ==> listed_proxy(all_parts, 0) == Some(value@),
        decreases parts@.len() - at,
    {
        assert(all_parts[at as int] == parts@[at as int]@);
        match find_named_proxy(parts[at].as_slice()) {
            Some(rest) => {
                value = rest;
                found = true;
            },
            None => {},
        }
        at = at + 1;
    }
    let text = string_of(value.as_slice());
    if text_stands_at(value.as_slice(), chars_of("http://").as_slice(), 0) || text_stands_at(
        value.as_slice(),
        chars_of("https://").as_slice(),
        0,
    ) {
        return Some(text);
    }
    let mut res = "http://".to_owned();
    res.push_str(text.as_str());
    Some(res)
}

// ---------------------------------------------------------------------------
// What an update is
// ---------------------------------------------------------------------------

/// A version is its three numbers, and a version with a higher number is newer, whatever
/// follows that number. Of two versions one is newer, or their numbers are the same.
pub proof fn law_higher_numbers_are_newer(
    a: nat,
    b: nat,
    c: nat,
    d: nat,
    e: nat,
    f: nat,
)
    requires
        a <= u64::MAX,
        b <= u64::MAX,
        c <= u64::MAX,
    ensures
        version_numbers(decimal(a) + seq!['.'] + decimal(b) + seq!['.'] + decimal(c)) == (a, b, c),
        a > d ==> newer((a, b, c), (d, e, f)),
        b > e ==> newer((a, b, c), (a, e, f)),
        c > f ==> newer((a, b, c), (a, b, f)),
        newer((a, b, c), (d, e, f)) || newer((d, e, f), (a, b, c)) || (a == d && b == e && c == f),
        newer((a, b, c), (d, e, f)) ==> a >= d,
        newer((a, b, c), (a, e, f)) ==> b >= e,
        !newer((a, b, c), (a, b, c)),
{
    let last = decimal(c);
    let middle = decimal(b) + seq!['.'] + last;
    let version = decimal(a) + seq!['.'] + decimal(b) + seq!['.'] + decimal(c);
    assert(version =~= decimal(a) + seq!['.'] + middle);
    lemma_no_point(a);
    lemma_no_point(b);
    lemma_no_point(c);
    law_splitting_loses_nothing(decimal(a), '.', middle);
    law_splitting_loses_nothing(decimal(b), '.', last);
    law_splitting_loses_nothing(decimal(c), '.', Seq::empty());
    let parts = split_from(version, '.', 0);
    assert(parts =~= seq![decimal(a), decimal(b), decimal(c)]);
    law_decimal_reads_back(a, u64::MAX as nat);
    law_decimal_reads_back(b, u64::MAX as nat);
    law_decimal_reads_back(c, u64::MAX as nat);
}

proof fn lemma_no_point(n: nat)
    ensures
        forall|i: int| 0 <= i < decimal(n).len() ==> decimal(n)[i] != '.',
{
    lemma_decimal(n);
    assert forall|i: int| 0 <= i < decimal(n).len() implies decimal(n)[i] != '.' by {
        assert(is_digit(decimal(n)[i]));
    }
}

/// A tag is the version behind the letters in front of it.
pub proof fn law_tags_are_versions(version: Seq<char>)
    requires
        version.len() > 0 ==> version[0] != 'v',
    ensures
        without_v(version) == version,
        without_v(seq!['v'] + version) == version,
        without_v(seq!['v', 'v'] + version) == version,
{
    let once = seq!['v'] + version;
    let twice = seq!['v', 'v'] + version;
    assert(without_v(version) == version);
    assert(once[0] == 'v' && once.skip(1) =~= version);
    assert(without_v(once) == version);
    assert(twice[0] == 'v' && twice.skip(1) =~= once);
}

/// The first asset of a kind is one of that kind, and none before it is; there is none only if
/// no asset is.
pub proof fn law_the_first_asset_is_first(
    assets: Seq<Asset>,
    wanted: spec_fn(Seq<char>) -> bool,
    from: int,
)
    requires
        0 <= from,
    ensures
        match first_asset(assets, wanted, from) {
            Some(at) => from <= at < assets.len() && wanted(assets[at].name@) && forall|i: int|
                from <= i < at ==> !wanted((#[trigger] assets[i]).name@),
            None => forall|i: int|
                from <= i < assets.len() ==> !wanted((#[trigger] assets[i]).name@),
        },
    decreases assets.len() - from,
{
    if from < assets.len() && !wanted(assets[from].name@) {
        law_the_first_asset_is_first(assets, wanted, from + 1);
    }
}

/// A package is what is called so in the end, and a file of checksums is called so and not
/// otherwise; no file is both.
pub proof fn law_packages_are_told_by_their_names(front: Seq<char>, name: Seq<char>)
    ensures
        is_package(front + "-Windows-x64.zip"@),
        is_package(name) ==> exists|start: Seq<char>| name == #[trigger] (start
            + "-Windows-x64.zip"@),
        is_checksum_file("SHA256SUMS.txt"@),
        is_checksum_file(name) ==> !is_package(name),
{
    reveal_strlit("-Windows-x64.zip");
    reveal_strlit("SHA256SUMS.txt");
    let suffix = "-Windows-x64.zip"@;
    let whole = front + suffix;
    assert(whole.subrange(whole.len() - suffix.len(), whole.len() as int) =~= suffix);
    if is_package(name) {
        let start = name.take(name.len() - suffix.len());
        assert(name =~= start + suffix);
        assert(suffix.len() == 16);
        assert("SHA256SUMS.txt"@.len() == 14);
    }
}

/// The first line with a name is a line with it, and no line before it has it.
pub proof fn law_the_first_line_with_a_name_is_first(
    lines: Seq<Seq<char>>,
    name: Seq<char>,
    from: int,
)
    requires
        0 <= from,
    ensures
        match line_with(lines, name, from) {
            Some(line) => exists|at: int|
                from <= at < lines.len() && line == #[trigger] lines[at] && holds_part(line, name)
                    && forall|i: int|
                    from <= i < at ==> !holds_part(#[trigger] lines[i], name),
            None => forall|i: int|
                from <= i < lines.len() ==> !holds_part(#[trigger] lines[i], name),
        },
    decreases lines.len() - from,
{
    if from < lines.len() {
        if holds_part(lines[from], name) {
            assert(line_with(lines, name, from) == Some(lines[from]));
        } else {
            law_the_first_line_with_a_name_is_first(lines, name, from + 1);
            if line_with(lines, name, from) is Some {
                let line = line_with(lines, name, from).unwrap();
                let at = choose|at: int|
                    from + 1 <= at < lines.len() && line == #[trigger] lines[at] && holds_part(
                        line,
                        name,
                    ) && forall|i: int|
                        from + 1 <= i < at ==> !holds_part(#[trigger] lines[i], name);
                assert(line == lines[at]);
            }
        }
    }
}

/// In a file of checksums, the checksum of a package stands in front of its name; lines about
/// other files, in front of that line, do not matter.
pub proof fn law_the_checksum_of_the_package_is_found(
    other: Seq<char>,
    sum: Seq<char>,
    gap: Seq<char>,
    name: Seq<char>,
    rest: Seq<char>,
)
    requires
        is_word(sum),
        encode_utf8(sum).len() == 64,
        is_blank(gap),
        gap.len() > 0,
        is_word(name),
        forall|i: int| 0 <= i < gap.len() ==> gap[i] != '\n',
        forall|i: int| 0 <= i < other.len() ==> other[i] != '\n',
        other.len() > 0 ==> other.last() != '\r',
        !holds_part(other, name),
    ensures
        spec_find_checksum(sum + gap + name + seq!['\n'] + rest, name) == Some(sum),
        spec_find_checksum(
            other + seq!['\n'] + (sum + gap + name + seq!['\n'] + rest),
            name,
        ) == Some(sum),
{
    let line = sum + gap + name;
    let file = line + seq!['\n'] + rest;
    assert forall|i: int| 0 <= i < line.len() implies line[i] != '\n' by {
        if i < sum.len() {
            assert(!is_white_space(sum[i]));
            assert(line[i] == sum[i]);
        } else if i < sum.len() + gap.len() {
            assert(line[i] == gap[i - sum.len()]);
        } else {
            assert(!is_white_space(name[i - sum.len() - gap.len()]));
            assert(line[i] == name[i - sum.len() - gap.len()]);
        }
    }
    assert(line.last() == name.last());
    assert(!is_white_space(name[name.len() - 1]));
    law_lines_follow_each_other(line, rest);
    law_lines_follow_each_other(other, file);
    let empty = Seq::<char>::empty();
    law_parts_stand_in_their_whole(sum + gap, name, empty);
    assert(sum + gap + name + empty =~= line);
    law_words_stand_between_white_space(empty, sum, gap, name, empty);
    assert(empty + sum + gap + name + empty =~= line);
    let lines = lines_from(file, 0);
    assert(lines[0] == line);
    assert(line_with(lines, name, 0) == Some(line));
    let whole = other + seq!['\n'] + file;
    let all = lines_from(whole, 0);
    assert(all[0] == other);
    assert(all[1] == lines[0]);
    assert(line_with(all, name, 1) == Some(line));
    assert(line_with(all, name, 0) == line_with(all, name, 1));
}

/// A text between single quotes keeps everything in it, and its own quotes are doubled: what is
/// quoted is quoted character by character.
pub proof fn law_quoting_doubles_quotes(text: Seq<char>, c: char)
    ensures
        quoted(text.push(c)) == quoted(text) + if c == '\'' {
            seq!['\'', '\'']
        } else {
            seq![c]
        },
        quoted(Seq::empty()) == Seq::<char>::empty(),
{
    reveal_strlit("''");
    assert("''"@ =~= seq!['\'', '\'']);
    law_replacing_works_one_by_one(text, '\'', "''"@, c);
}

/// The script waits for the program, unpacks the package, copies it into the directory of the
/// program, starts the program again, and removes itself: each with the path that is meant.
pub proof fn law_the_script_names_what_is_meant(
    pid: nat,
    zip: Seq<char>,
    bundle: Seq<char>,
    exe: Seq<char>,
    script: Seq<char>,
)
    ensures
        ({
            let text = spec_update_script(pid, zip, bundle, exe, script);
            &&& holds_part(text, decimal(pid) + "\nWait-Process -Id $pidToWait\n$stage = Join-Path $env:TEMP 'cdr-update-stage-"@)
            &&& holds_part(text, quoted(zip) + "' -DestinationPath $stage -Force\nGet-ChildItem -LiteralPath $stage -File -Recurse | ForEach-Object {\n  $relative = $_.FullName.Substring($stage.Length).TrimStart('\\')\n  $destination = Join-Path '"@)
            &&& holds_part(text, quoted(bundle) + "' $relative\n  New-Item -ItemType Directory -Path (Split-Path $destination) -Force | Out-Null\n  Copy-Item -LiteralPath $_.FullName -Destination $destination -Force\n}\nRemove-Item -LiteralPath $stage -Recurse -Force\nStart-Process -FilePath '"@)
            &&& holds_part(text, quoted(exe) + "'\nRemove-Item -LiteralPath '"@)
            &&& holds_part(text, quoted(script) + "' -Force\n"@)
        }),
{
    let text = spec_update_script(pid, zip, bundle, exe, script);
    let s1 = "$ErrorActionPreference = 'Stop'\n$pidToWait = "@;
    let s2 = "\nWait-Process -Id $pidToWait\n$stage = Join-Path $env:TEMP 'cdr-update-stage-"@;
    let s3 = "'\nRemove-Item -LiteralPath $stage -Recurse -Force -ErrorAction SilentlyContinue\nExpand-Archive -LiteralPath '"@;
    let s4 = "' -DestinationPath $stage -Force\nGet-ChildItem -LiteralPath $stage -File -Recurse | ForEach-Object {\n  $relative = $_.FullName.Substring($stage.Length).TrimStart('\\')\n  $destination = Join-Path '"@;
    let s5 = "' $relative\n  New-Item -ItemType Directory -Path (Split-Path $destination) -Force | Out-Null\n  Copy-Item -LiteralPath $_.FullName -Destination $destination -Force\n}\nRemove-Item -LiteralPath $stage -Recurse -Force\nStart-Process -FilePath '"@;
    let s6 = "'\nRemove-Item -LiteralPath '"@;
    let s7 = "' -Force\n"@;
    let number = decimal(pid);
    let t2 = s1 + number + s2;
    let t3 = t2 + number + s3;
    let t4 = t3 + quoted(zip) + s4;
    let t5 = t4 + quoted(bundle) + s5;
    let t6 = t5 + quoted(exe) + s6;
    let t7 = t6 + quoted(script) + s7;
    assert(text == t7);
    lemma_holds_end(s1, number, s2);
    lemma_holds_end(t3, quoted(zip), s4);
    lemma_holds_end(t4, quoted(bundle), s5);
    lemma_holds_end(t5, quoted(exe), s6);
    lemma_holds_end(t6, quoted(script), s7);
    lemma_holds_more(t2, number, s3, number + s2);
    lemma_holds_more(t3, quoted(zip), s4, number + s2);
    lemma_holds_more(t4, quoted(bundle), s5, number + s2);
    lemma_holds_more(t5, quoted(exe), s6, number + s2);
    lemma_holds_more(t6, quoted(script), s7, number + s2);
    lemma_holds_more(t4, quoted(bundle), s5, quoted(zip) + s4);
    lemma_holds_more(t5, quoted(exe), s6, quoted(zip) + s4);
    lemma_holds_more(t6, quoted(script), s7, quoted(zip) + s4);
    lemma_holds_more(t5, quoted(exe), s6, quoted(bundle) + s5);
    lemma_holds_more(t6, quoted(script), s7, quoted(bundle) + s5);
    lemma_holds_more(t6, quoted(script), s7, quoted(exe) + s6);
}

proof fn lemma_holds_end(front: Seq<char>, a: Seq<char>, b: Seq<char>)
    ensures
        holds_part(front + a + b, a + b),
{
    let whole = front + a + b;
    let part = a + b;
    let at = front.len() as int;
    assert(whole.len() == at + part.len());
    assert(whole.subrange(at, at + part.len()) =~= part);
    assert(stands_at(whole, part, at));
}

proof fn lemma_holds_more(front: Seq<char>, a: Seq<char>, b: Seq<char>, part: Seq<char>)
    requires
        holds_part(front, part),
    ensures
        holds_part(front + a + b, part),
{
    let i = choose|i: int| 0 <= i <= front.len() && #[trigger] stands_at(front, part, i);
    let whole = front + a + b;
    assert(whole.subrange(i, i + part.len()) =~= front.subrange(i, i + part.len()));
    assert(stands_at(whole, part, i));
}

/// The proxy of the environment is the first one that is set and not blank.
pub proof fn law_the_first_proxy_that_is_set_counts(values: Seq<Option<String>>, from: int)
    requires
        0 <= from,
    ensures
        match first_not_blank(values, from) {
            Some(proxy) => trimmed(proxy).len() > 0 && exists|at: int|
                from <= at < values.len() && (#[trigger] values[at]) is Some
                    && values[at].unwrap()@ == proxy && forall|i: int|
                    from <= i < at ==> ((#[trigger] values[i]) matches Some(text) ==> trimmed(
                        text@,
                    ).len() == 0),
            None => forall|i: int|
                from <= i < values.len() ==> ((#[trigger] values[i]) matches Some(text) ==> trimmed(
                    text@,
                ).len() == 0),
        },
    decreases values.len() - from,
{
    if from < values.len() {
        if values[from] matches Some(text) && trimmed(text@).len() > 0 {
            assert(values[from] is Some);
        } else {
            law_the_first_proxy_that_is_set_counts(values, from + 1);
            if first_not_blank(values, from) is Some {
                let proxy = first_not_blank(values, from).unwrap();
                let at = choose|at: int|
                    from + 1 <= at < values.len() && (#[trigger] values[at]) is Some
                        && values[at].unwrap()@ == proxy && forall|i: int|
                        from + 1 <= i < at ==> ((#[trigger] values[i]) matches Some(text)
                            ==> trimmed(text@).len() == 0);
                assert(values[at] is Some);
            }
        }
    }
}

/// A proxy of the registry has a scheme, and is what stands there, with one in front if it had
/// none.
pub proof fn law_proxies_have_a_scheme(proxy: Seq<char>)
    ensures
        stands_at(with_scheme(proxy), "http://"@, 0) || stands_at(
            with_scheme(proxy),
            "https://"@,
            0,
        ),
        with_scheme(proxy) == proxy || with_scheme(proxy) == "http://"@ + proxy,
        with_scheme(with_scheme(proxy)) == with_scheme(proxy),
{
    let whole = "http://"@ + proxy;
    assert(whole.subrange(0, "http://"@.len() as int) =~= "http://"@);
}

/// In a list of proxies the first one for web pages counts; a proxy that is no list stands for
/// itself.
pub proof fn law_proxies_for_web_pages_are_listed(parts: Seq<Seq<char>>, from: int)
    requires
        0 <= from,
    ensures
        match listed_proxy(parts, from) {
            Some(proxy) => exists|at: int|
                from <= at < parts.len() && (#[trigger] parts[at] == "https="@ + proxy || parts[at]
                    == "http="@ + proxy) && forall|i: int|
                    from <= i < at ==> !stands_at(#[trigger] parts[i], "https="@, 0) && !stands_at(
                        parts[i],
                        "http="@,
                        0,
                    ),
            None => forall|i: int|
                from <= i < parts.len() ==> !stands_at(#[trigger] parts[i], "https="@, 0)
                    && !stands_at(parts[i], "http="@, 0),
        },
    decreases parts.len() - from,
{
    if from < parts.len() {
        let part = parts[from];
        if stands_at(part, "https="@, 0) {
            assert(part =~= "https="@ + part.skip("https="@.len() as int));
            assert(parts[from] == "https="@ + part.skip("https="@.len() as int));
        } else if stands_at(part, "http="@, 0) {
            assert(part =~= "http="@ + part.skip("http="@.len() as int));
            assert(parts[from] == "http="@ + part.skip("http="@.len() as int));
        } else {
            law_proxies_for_web_pages_are_listed(parts, from + 1);
            if listed_proxy(parts, from) is Some {
                let proxy = listed_proxy(parts, from).unwrap();
                let at = choose|at: int|
                    from + 1 <= at < parts.len() && (#[trigger] parts[at] == "https="@ + proxy
                        || parts[at] == "http="@ + proxy) && forall|i: int|
                        from + 1 <= i < at ==> !stands_at(#[trigger] parts[i], "https="@, 0)
                            && !stands_at(parts[i], "http="@, 0);
                assert(parts[at] == "https="@ + proxy || parts[at] == "http="@ + proxy);
            }
        }
    }
}

} // verus!
