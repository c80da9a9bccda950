//! Installing the plug-in: what a bundle has to hold, where CorelDRAW may be, and how
//! the plug-in is put in place without ever losing the one that was there.

use vstd::prelude::*;

use crate::text::{decimal, push_decimal, same_text};

verus! {

// ---------------------------------------------------------------------------
// Bundles
// ---------------------------------------------------------------------------

/// The name of the plug-in.
pub open spec fn plugin_name() -> Seq<char> {
    "CdrOutline.CorelExtension"@
}

/// The files of a complete bundle.
pub open spec fn spec_bundle_files() -> Seq<Seq<char>> {
    seq![
        "cdr-corel.exe"@,
        "opencv_world4140.dll"@,
        "concrt140.dll"@,
        "msvcp140.dll"@,
        "msvcp140_1.dll"@,
        "msvcp140_2.dll"@,
        "vcruntime140.dll"@,
        "vcruntime140_1.dll"@,
        "CdrOutline.CorelExtension"@,
    ]
}

pub open spec fn names_of(names: Seq<String>) -> Seq<Seq<char>> {
    names.map_values(|name: String| name@)
}

/// The files of a complete bundle.
pub fn bundle_files() -> (res: Vec<String>)
    ensures
        names_of(res@) == spec_bundle_files(),
{
    let names: [&str; 9] = [
        "cdr-corel.exe",
        "opencv_world4140.dll",
        "concrt140.dll",
        "msvcp140.dll",
        "msvcp140_1.dll",
        "msvcp140_2.dll",
        "vcruntime140.dll",
        "vcruntime140_1.dll",
        "CdrOutline.CorelExtension",
    ];
    let mut res: Vec<String> = Vec::new();
    for i in 0..9usize
        invariant
            names@.len() == 9,
            forall|k: int| 0 <= k < 9 ==> (#[trigger] names@[k])@ == spec_bundle_files()[k],
            names_of(res@) == spec_bundle_files().take(i as int),
    {
        let ghost before = names_of(res@);
        res.push(names[i].to_owned());
        assert(names_of(res@) =~= before.push(spec_bundle_files()[i as int]));
    }
    assert(spec_bundle_files().take(9) =~= spec_bundle_files());
    res
}

/// What a bundle lacks.
#[derive(Debug, Clone)]
pub struct BundleStatus {
    pub missing_files: Vec<String>,
}

impl BundleStatus {
    /// Whether the bundle is complete.
    pub fn is_ready(&self) -> (res: bool)
        ensures
            res == (self.missing_files@.len() == 0),
    {
        self.missing_files.len() == 0
    }

    /// Whether documents can be processed: at most the plug-in is missing.
    pub fn processing_ready(&self) -> (res: bool)
        ensures
            res == forall|i: int|
                0 <= i < self.missing_files@.len() ==> (#[trigger] self.missing_files@[i])@
                    == plugin_name(),
    {
        for i in 0..self.missing_files.len()
            invariant
                forall|k: int|
                    0 <= k < i ==> (#[trigger] self.missing_files@[k])@ == plugin_name(),
        {
            if !same_text(self.missing_files[i].as_str(), "CdrOutline.CorelExtension") {
                return false;
            }
        }
        true
    }
}

/// The first `end` of the `required` names that are not among `files`.
pub open spec fn missing_from(
    required: Seq<Seq<char>>,
    files: Seq<Seq<char>>,
    end: int,
) -> Seq<Seq<char>>
    decreases end,
{
    if end <= 0 {
        Seq::empty()
    } else if files.contains(required[end - 1]) {
        missing_from(required, files, end - 1)
    } else {
        missing_from(required, files, end - 1).push(required[end - 1])
    }
}

fn holds_name(files: &Vec<String>, name: &str) -> (res: bool)
    ensures
        res == names_of(files@).contains(name@),
{
    let ghost all = names_of(files@);
    for i in 0..files.len()
        invariant
            all == names_of(files@),
            forall|k: int| 0 <= k < i ==> all[k] != name@,
    {
        if same_text(files[i].as_str(), name) {
            assert(all[i as int] == name@);
            return true;
        }
    }
    false
}

/// What a bundle lacks that holds `files`.
pub fn inspect_bundle(files: &Vec<String>) -> (res: BundleStatus)
    ensures
        names_of(res.missing_files@) == missing_from(
            spec_bundle_files(),
            names_of(files@),
            spec_bundle_files().len() as int,
        ),
{
    let required = bundle_files();
    let mut missing_files: Vec<String> = Vec::new();
    assert(names_of(missing_files@) =~= Seq::<Seq<char>>::empty());
    for i in 0..required.len()
        invariant
            names_of(required@) == spec_bundle_files(),
            names_of(missing_files@) == missing_from(
                spec_bundle_files(),
                names_of(files@),
                i as int,
            ),
    {
        let ghost before = names_of(missing_files@);
        assert(names_of(required@)[i as int] == required@[i as int]@);
        if !holds_name(files, required[i].as_str()) {
            missing_files.push(required[i].as_str().to_owned());
            assert(names_of(missing_files@) =~= before.push(required@[i as int]@));
        }
    }
    BundleStatus { missing_files }
}

proof fn lemma_missing_from(required: Seq<Seq<char>>, files: Seq<Seq<char>>, end: int)
    requires
        0 <= end <= required.len(),
    ensures
        missing_from(required, files, end).len() == 0 <==> forall|i: int|
            0 <= i < end ==> files.contains(#[trigger] required[i]),
    decreases end,
{
    if end > 0 {
        lemma_missing_from(required, files, end - 1);
    }
}

/// A bundle is ready exactly if it holds every file.
pub proof fn law_ready_means_complete(files: Seq<Seq<char>>)
    ensures
        missing_from(spec_bundle_files(), files, spec_bundle_files().len() as int).len() == 0
            <==> forall|i: int|
            0 <= i < spec_bundle_files().len() ==> files.contains(
                #[trigger] spec_bundle_files()[i],
            ),
{
    lemma_missing_from(spec_bundle_files(), files, spec_bundle_files().len() as int);
}

// ---------------------------------------------------------------------------
// CorelDRAW
// ---------------------------------------------------------------------------

/// The file by which an installation of CorelDRAW is recognized.
pub fn corel_library() -> (res: &'static str)
    ensures
        res@ == r"Programs64\Assemblies\Corel.Interop.VGCore.dll"@,
{
    r"Programs64\Assemblies\Corel.Interop.VGCore.dll"
}

/// Where the plug-in is installed.
pub fn installed_extension() -> (res: &'static str)
    ensures
        res@ == r"Extensions\CdrOutline.CorelExtension"@,
{
    r"Extensions\CdrOutline.CorelExtension"
}

/// Whether a directory that holds `files` is an installation of CorelDRAW.
pub fn is_corel_installation(files: &Vec<String>) -> (res: bool)
    ensures
        res == names_of(files@).contains(r"Programs64\Assemblies\Corel.Interop.VGCore.dll"@),
{
    holds_name(files, corel_library())
}

/// Whether the plug-in is installed in a directory that holds `files`.
pub fn has_installed_extension(files: &Vec<String>) -> (res: bool)
    ensures
        res == names_of(files@).contains(r"Extensions\CdrOutline.CorelExtension"@),
{
    holds_name(files, installed_extension())
}

/// The first directory, at or after `from`, that is an installation.
pub open spec fn first_installation(valid: Seq<bool>, from: int) -> Option<int>
    decreases valid.len() - from,
{
    if from >= valid.len() {
        None
    } else if valid[from] {
        Some(from)
    } else {
        first_installation(valid, from + 1)
    }
}

/// Which directory is taken: the first that is an installation of CorelDRAW.
pub fn discover_corel_installation(valid: &[bool]) -> (res: Option<usize>)
    ensures
        match res {
            Some(i) => first_installation(valid@, 0) == Some(i as int) && i < valid@.len(),
            None => first_installation(valid@, 0) is None,
        },
{
    let mut at: usize = 0;
    while at < valid.len()
        invariant
            at <= valid@.len(),
            first_installation(valid@, 0) == first_installation(valid@, at as int),
        decreases valid@.len() - at,
    {
        if valid[at] {
            return Some(at);
        }
        at = at + 1;
    }
    None
}

/// The directories that are always looked at.
pub open spec fn spec_fixed_candidates() -> Seq<Seq<char>> {
    seq![
        r"D:\apps\CorelDRAW Graphics Suite 2020"@,
        r"C:\Program Files\Corel\CorelDRAW Graphics Suite 2020"@,
        r"C:\Program Files (x86)\Corel\CorelDRAW Graphics Suite 2020"@,
    ]
}

/// The directories that are looked at below a directory of programs.
pub open spec fn spec_suite_folders() -> Seq<Seq<char>> {
    seq![
        r"Corel\CorelDRAW Graphics Suite 2020"@,
        r"Corel\CorelDRAW Graphics Suite 2021"@,
        r"Corel\CorelDRAW Graphics Suite 2022"@,
        r"Corel\CorelDRAW Graphics Suite 2023"@,
        r"Corel\CorelDRAW Graphics Suite 2024"@,
        r"Corel\CorelDRAW Graphics Suite 2025"@,
    ]
}

/// The directories that are always looked at.
pub fn fixed_candidates() -> (res: Vec<String>)
    ensures
        names_of(res@) == spec_fixed_candidates(),
{
    let mut res: Vec<String> = Vec::new();
    res.push(r"D:\apps\CorelDRAW Graphics Suite 2020".to_owned());
    res.push(r"C:\Program Files\Corel\CorelDRAW Graphics Suite 2020".to_owned());
    res.push(r"C:\Program Files (x86)\Corel\CorelDRAW Graphics Suite 2020".to_owned());
    assert(names_of(res@) =~= spec_fixed_candidates());
    res
}

/// The directories that are looked at below a directory of programs.
pub fn suite_folders() -> (res: Vec<String>)
    ensures
        names_of(res@) == spec_suite_folders(),
{
    let mut res: Vec<String> = Vec::new();
    res.push(r"Corel\CorelDRAW Graphics Suite 2020".to_owned());
    res.push(r"Corel\CorelDRAW Graphics Suite 2021".to_owned());
    res.push(r"Corel\CorelDRAW Graphics Suite 2022".to_owned());
    res.push(r"Corel\CorelDRAW Graphics Suite 2023".to_owned());
    res.push(r"Corel\CorelDRAW Graphics Suite 2024".to_owned());
    res.push(r"Corel\CorelDRAW Graphics Suite 2025".to_owned());
    assert(names_of(res@) =~= spec_suite_folders());
    res
}

/// A moment as it stands in the name of a backup.
pub fn timestamp(seconds: u64, nanoseconds: u32) -> (res: String)
    ensures
        res@ == decimal(seconds as nat) + "-"@ + decimal(nanoseconds as nat),
{
    let mut res: String = String::new();
    push_decimal(&mut res, seconds);
    res.push_str("-");
    push_decimal(&mut res, nanoseconds as u64);
    assert(res@ =~= decimal(seconds as nat) + "-"@ + decimal(nanoseconds as nat));
    res
}

// ---------------------------------------------------------------------------
// Installing and removing
// ---------------------------------------------------------------------------

/// Why the plug-in could not be installed or removed.
#[derive(Debug, Clone, Copy, PartialEq, Eq, Structural)]
pub enum DeployError {
    NotCorel,
    NoSource,
    CreateExtensions,
    DirectoryInTheWay,
    Copy,
    CreateBackup,
    MoveToBackup,
    Place,
    NotInstalled,
    CreateRestorable,
    Remove,
}

impl DeployError {
    /// The text shown for the error; what it is about follows it.
    pub open spec fn spec_message(self) -> Seq<char> {
        match self {
            DeployError::NotCorel =>
                "此目录不像 CorelDRAW 安装目录（缺少 Programs64\\Assemblies\\Corel.Interop.VGCore.dll）："@,
            DeployError::NoSource => "安装包中找不到插件："@,
            DeployError::CreateExtensions => "无法创建 Corel 扩展目录："@,
            DeployError::DirectoryInTheWay => "目标位置存在同名目录，未做覆盖："@,
            DeployError::Copy => "复制插件失败："@,
            DeployError::CreateBackup => "无法创建插件备份目录："@,
            DeployError::MoveToBackup => "无法备份已安装插件；原文件未覆盖："@,
            DeployError::Place => "无法将插件放入 Corel 扩展目录："@,
            DeployError::NotInstalled => "没有找到已安装的插件文件："@,
            DeployError::CreateRestorable => "无法创建可恢复备份目录："@,
            DeployError::Remove => "卸载插件失败："@,
        }
    }

    /// The text shown for the error, about a path or a cause.
    pub fn message(self, detail: &str) -> (res: String)
        ensures
            res@ == self.spec_message() + detail@,
    {
        let mut res = match self {
            DeployError::NotCorel =>
                "此目录不像 CorelDRAW 安装目录（缺少 Programs64\\Assemblies\\Corel.Interop.VGCore.dll）：".to_owned(),
            DeployError::NoSource => "安装包中找不到插件：".to_owned(),
            DeployError::CreateExtensions => "无法创建 Corel 扩展目录：".to_owned(),
            DeployError::DirectoryInTheWay => "目标位置存在同名目录，未做覆盖：".to_owned(),
            DeployError::Copy => "复制插件失败：".to_owned(),
            DeployError::CreateBackup => "无法创建插件备份目录：".to_owned(),
            DeployError::MoveToBackup => "无法备份已安装插件；原文件未覆盖：".to_owned(),
            DeployError::Place => "无法将插件放入 Corel 扩展目录：".to_owned(),
            DeployError::NotInstalled => "没有找到已安装的插件文件：".to_owned(),
            DeployError::CreateRestorable => "无法创建可恢复备份目录：".to_owned(),
            DeployError::Remove => "卸载插件失败：".to_owned(),
        };
        res.push_str(detail);
        res
    }
}

/// What an installation does next.
#[derive(Debug, Clone, Copy, PartialEq, Eq, Structural)]
pub enum InstallAction {
    /// Look whether the directory is an installation of CorelDRAW.
    LookForCorel,
    /// Look whether the bundle holds the plug-in.
    LookForSource,
    /// Create the directory of extensions.
    CreateExtensions,
    /// Look whether a directory stands where the plug-in goes.
    LookForDirectory,
    /// Copy the plug-in beside the place where it goes.
    Stage,
    /// Look whether a plug-in is installed.
    LookForInstalled,
    /// Create a directory for a backup.
    CreateBackup,
    /// Move the installed plug-in to the backup.
    MoveToBackup,
    /// Move the copy to where the plug-in goes.
    Place,
    /// Move the backup to where the plug-in goes.
    RestoreBackup,
    /// Remove the copy.
    RemoveStaged,
    /// The plug-in is installed; whether there is a backup of the one before.
    Installed { backed_up: bool },
    /// The plug-in is not installed.
    Failed(DeployError),
}

/// An installation in progress.
#[derive(Debug, Clone, Copy, PartialEq, Eq, Structural)]
pub struct Install {
    pub action: InstallAction,
    /// Whether the plug-in that was there is in the backup.
    pub backed_up: bool,
    /// What went wrong, while it is being undone.
    pub error: DeployError,
}

impl Install {
    /// An installation that has not started.
    pub open spec fn spec_start() -> Install {
        Install {
            action: InstallAction::LookForCorel,
            backed_up: false,
            error: DeployError::NotCorel,
        }
    }

    pub fn start() -> (res: Install)
        ensures
            res == Install::spec_start(),
    {
        Install {
            action: InstallAction::LookForCorel,
            backed_up: false,
            error: DeployError::NotCorel,
        }
    }

    pub open spec fn then_do(self, action: InstallAction) -> Install {
        Install { action, ..self }
    }

    /// Undoes what was done: the copy is removed before the error is given.
    pub open spec fn undo(self, action: InstallAction, error: DeployError) -> Install {
        Install { action, error, backed_up: self.backed_up }
    }

    /// What comes after the current action; `reply` says whether it succeeded, or
    /// whether what was looked for is there.
    pub open spec fn spec_next(self, reply: bool) -> Install {
        match self.action {
            InstallAction::LookForCorel => if reply {
                self.then_do(InstallAction::LookForSource)
            } else {
                self.then_do(InstallAction::Failed(DeployError::NotCorel))
            },
            InstallAction::LookForSource => if reply {
                self.then_do(InstallAction::CreateExtensions)
            } else {
                self.then_do(InstallAction::Failed(DeployError::NoSource))
            },
            InstallAction::CreateExtensions => if reply {
                self.then_do(InstallAction::LookForDirectory)
            } else {
                self.then_do(InstallAction::Failed(DeployError::CreateExtensions))
            },
            InstallAction::LookForDirectory => if reply {
                self.then_do(InstallAction::Failed(DeployError::DirectoryInTheWay))
            } else {
                self.then_do(InstallAction::Stage)
            },
            InstallAction::Stage => if reply {
                self.then_do(InstallAction::LookForInstalled)
            } else {
                self.undo(InstallAction::RemoveStaged, DeployError::Copy)
            },
            InstallAction::LookForInstalled => if reply {
                self.then_do(InstallAction::CreateBackup)
            } else {
                self.then_do(InstallAction::Place)
            },
            InstallAction::CreateBackup => if reply {
                self.then_do(InstallAction::MoveToBackup)
            } else {
                self.undo(InstallAction::RemoveStaged, DeployError::CreateBackup)
            },
            InstallAction::MoveToBackup => if reply {
                Install { action: InstallAction::Place, backed_up: true, error: self.error }
            } else {
                self.undo(InstallAction::RemoveStaged, DeployError::MoveToBackup)
            },
            InstallAction::Place => if reply {
                self.then_do(InstallAction::Installed { backed_up: self.backed_up })
            } else if self.backed_up {
                self.undo(InstallAction::RestoreBackup, DeployError::Place)
            } else {
                self.undo(InstallAction::RemoveStaged, DeployError::Place)
            },
            InstallAction::RestoreBackup => self.then_do(InstallAction::RemoveStaged),
            InstallAction::RemoveStaged => self.then_do(InstallAction::Failed(self.error)),
            InstallAction::Installed { .. } => self,
            InstallAction::Failed(_) => self,
        }
    }

    /// What comes after the current action.
    pub fn next(self, reply: bool) -> (res: Install)
        ensures
            res == self.spec_next(reply),
    {
        let action = match self.action {
            InstallAction::LookForCorel => if reply {
                InstallAction::LookForSource
            } else {
                InstallAction::Failed(DeployError::NotCorel)
            },
            InstallAction::LookForSource => if reply {
                InstallAction::CreateExtensions
            } else {
                InstallAction::Failed(DeployError::NoSource)
            },
            InstallAction::CreateExtensions => if reply {
                InstallAction::LookForDirectory
            } else {
                InstallAction::Failed(DeployError::CreateExtensions)
            },
            InstallAction::LookForDirectory => if reply {
                InstallAction::Failed(DeployError::DirectoryInTheWay)
            } else {
                InstallAction::Stage
            },
            InstallAction::Stage => {
                if !reply {
                    return Install {
                        action: InstallAction::RemoveStaged,
                        error: DeployError::Copy,
                        backed_up: self.backed_up,
                    };
                }
                InstallAction::LookForInstalled
            },
            InstallAction::LookForInstalled => if reply {
                InstallAction::CreateBackup
            } else {
                InstallAction::Place
            },
            InstallAction::CreateBackup => {
                if !reply {
                    return Install {
                        action: InstallAction::RemoveStaged,
                        error: DeployError::CreateBackup,
                        backed_up: self.backed_up,
                    };
                }
                InstallAction::MoveToBackup
            },
            InstallAction::MoveToBackup => {
                if !reply {
                    return Install {
                        action: InstallAction::RemoveStaged,
                        error: DeployError::MoveToBackup,
                        backed_up: self.backed_up,
                    };
                }
                return Install {
                    action: InstallAction::Place,
                    backed_up: true,
                    error: self.error,
                };
            },
            InstallAction::Place => {
                if !reply {
                    return Install {
                        action: if self.backed_up {
                            InstallAction::RestoreBackup
                        } else {
                            InstallAction::RemoveStaged
                        },
                        error: DeployError::Place,
                        backed_up: self.backed_up,
                    };
                }
                InstallAction::Installed { backed_up: self.backed_up }
            },
            InstallAction::RestoreBackup => InstallAction::RemoveStaged,
            InstallAction::RemoveStaged => InstallAction::Failed(self.error),
            InstallAction::Installed { backed_up } => InstallAction::Installed { backed_up },
            InstallAction::Failed(error) => InstallAction::Failed(error),
        };
        Install { action, backed_up: self.backed_up, error: self.error }
    }
}

/// A plug-in on the disk.
pub enum Plugin {
    /// The one that was installed before.
    Old,
    /// The one of the bundle.
    New,
}

/// Where plug-ins are on the disk.
pub struct Disk {
    pub installed: Option<Plugin>,
    pub staged: Option<Plugin>,
    pub backup: Option<Plugin>,
}

/// What an action does to the disk. An action that fails changes nothing, but a copy
/// that fails may leave a part of the file behind; what was looked for is there
/// exactly if the reply says so.
pub open spec fn effect(action: InstallAction, reply: bool, before: Disk, after: Disk) -> bool {
    match action {
        InstallAction::LookForInstalled => after == before && reply == before.installed is Some,
        InstallAction::Stage => if reply {
            after == Disk { staged: Some(Plugin::New), ..before }
        } else {
            after.installed == before.installed && after.backup == before.backup
        },
        InstallAction::MoveToBackup => if reply {
            after == Disk { installed: None, backup: before.installed, ..before }
        } else {
            after == before
        },
        InstallAction::Place => if reply {
            after == Disk { installed: before.staged, staged: None, ..before }
        } else {
            after == before
        },
        InstallAction::RestoreBackup => if reply {
            after == Disk { installed: before.backup, backup: None, ..before }
        } else {
            after == before
        },
        InstallAction::RemoveStaged => if reply {
            after == Disk { staged: None, ..before }
        } else {
            after == before
        },
        _ => after == before,
    }
}

/// Whether `states` and `disks` are the course of an installation in which the actions
/// were answered by `replies`.
pub open spec fn is_course(
    states: Seq<Install>,
    disks: Seq<Disk>,
    replies: Seq<bool>,
) -> bool {
    &&& states.len() == replies.len() + 1
    &&& disks.len() == replies.len() + 1
    &&& states[0] == Install::spec_start()
    &&& disks[0].staged is None
    &&& disks[0].backup is None
    &&& disks[0].installed is None || disks[0].installed == Some(Plugin::Old)
    &&& forall|k: int|
        0 <= k < replies.len() ==> #[trigger] is_step(states, disks, replies, k)
}

/// Whether action `k` was answered, and did to the disk what it does.
pub open spec fn is_step(
    states: Seq<Install>,
    disks: Seq<Disk>,
    replies: Seq<bool>,
    k: int,
) -> bool {
    &&& states[k + 1] == states[k].spec_next(replies[k])
    &&& effect(states[k].action, replies[k], disks[k], disks[k + 1])
}

/// What holds in the course of an installation on a disk that held `initial`.
spec fn install_holds(state: Install, disk: Disk, initial: Option<Plugin>) -> bool {
    match state.action {
        InstallAction::LookForCorel
        | InstallAction::LookForSource
        | InstallAction::CreateExtensions
        | InstallAction::LookForDirectory
        | InstallAction::Stage => disk.installed == initial && disk.backup is None
            && !state.backed_up,
        InstallAction::LookForInstalled => disk.installed == initial && disk.backup is None
            && !state.backed_up && disk.staged == Some(Plugin::New),
        InstallAction::CreateBackup | InstallAction::MoveToBackup => disk.installed == initial
            && initial is Some && disk.backup is None && !state.backed_up && disk.staged == Some(
            Plugin::New,
        ),
        InstallAction::Place => disk.staged == Some(Plugin::New) && if state.backed_up {
            disk.installed is None && disk.backup == initial && initial is Some
        } else {
            disk.installed is None && initial is None && disk.backup is None
        },
        InstallAction::RestoreBackup => state.backed_up && disk.installed is None && disk.backup
            == initial && initial is Some,
        InstallAction::RemoveStaged | InstallAction::Failed(_) => disk.installed == initial || (
        state.backed_up && disk.installed is None && disk.backup == initial),
        InstallAction::Installed { backed_up } => disk.installed == Some(Plugin::New)
            && disk.backup == initial && disk.staged is None && backed_up == (initial is Some),
    }
}

proof fn lemma_course(states: Seq<Install>, disks: Seq<Disk>, replies: Seq<bool>, k: int)
    requires
        is_course(states, disks, replies),
        0 <= k <= replies.len(),
    ensures
        install_holds(states[k], disks[k], disks[0].installed),
    decreases k,
{
    if k > 0 {
        lemma_course(states, disks, replies, k - 1);
        assert(is_step(states, disks, replies, k - 1));
    }
}

/// Whatever fails, the plug-in that was installed is never lost: at every moment it is
/// where it was or in the backup.
pub proof fn law_the_old_plugin_is_never_lost(
    states: Seq<Install>,
    disks: Seq<Disk>,
    replies: Seq<bool>,
    k: int,
)
    requires
        is_course(states, disks, replies),
        0 <= k <= replies.len(),
    ensures
        disks[k].installed == disks[0].installed || disks[k].backup == disks[0].installed,
{
    lemma_course(states, disks, replies, k);
}

/// A failed installation leaves what was installed in place, unless moving the backup
/// back failed too.
pub proof fn law_a_failed_installation_changes_nothing(
    states: Seq<Install>,
    disks: Seq<Disk>,
    replies: Seq<bool>,
    k: int,
)
    requires
        is_course(states, disks, replies),
        0 <= k <= replies.len(),
        states[k].action is Failed,
        forall|i: int|
            0 <= i < k && (#[trigger] states[i]).action is RestoreBackup ==> replies[i],
    ensures
        disks[k].installed == disks[0].installed,
{
    lemma_failed_course(states, disks, replies, k);
}

proof fn lemma_failed_course(states: Seq<Install>, disks: Seq<Disk>, replies: Seq<bool>, k: int)
    requires
        is_course(states, disks, replies),
        0 <= k <= replies.len(),
        states[k].action is Failed || states[k].action is RemoveStaged,
        forall|i: int|
            0 <= i < k && (#[trigger] states[i]).action is RestoreBackup ==> replies[i],
    ensures
        disks[k].installed == disks[0].installed,
    decreases k,
{
    assert(k > 0);
    lemma_course(states, disks, replies, k - 1);
    let state = states[k - 1];
    assert(is_step(states, disks, replies, k - 1));
    if state.action is RemoveStaged || state.action is Failed {
        lemma_failed_course(states, disks, replies, k - 1);
    } else if state.action is RestoreBackup {
        assert(replies[k - 1]);
    }
}

/// After an installation the plug-in of the bundle is in place, nothing is left of the
/// copy, and the plug-in that was there is in the backup.
pub proof fn law_installing_installs(
    states: Seq<Install>,
    disks: Seq<Disk>,
    replies: Seq<bool>,
    k: int,
)
    requires
        is_course(states, disks, replies),
        0 <= k <= replies.len(),
        states[k].action is Installed,
    ensures
        disks[k].installed == Some(Plugin::New),
        disks[k].staged is None,
        disks[k].backup == disks[0].installed,
        states[k].action == (InstallAction::Installed {
            backed_up: disks[0].installed is Some,
        }),
{
    lemma_course(states, disks, replies, k);
}

/// How many actions an installation can still take.
pub open spec fn actions_left(action: InstallAction) -> nat {
    match action {
        InstallAction::LookForCorel => 11,
        InstallAction::LookForSource => 10,
        InstallAction::CreateExtensions => 9,
        InstallAction::LookForDirectory => 8,
        InstallAction::Stage => 7,
        InstallAction::LookForInstalled => 6,
        InstallAction::CreateBackup => 5,
        InstallAction::MoveToBackup => 4,
        InstallAction::Place => 3,
        InstallAction::RestoreBackup => 2,
        InstallAction::RemoveStaged => 1,
        InstallAction::Installed { .. } => 0,
        InstallAction::Failed(_) => 0,
    }
}

/// Every action brings an installation closer to its end.
pub proof fn law_an_installation_ends(state: Install, reply: bool)
    ensures
        actions_left(state.action) > 0 ==> actions_left(state.spec_next(reply).action)
            < actions_left(state.action),
{
}

/// What a removal does next.
#[derive(Debug, Clone, Copy, PartialEq, Eq, Structural)]
pub enum RemoveAction {
    LookForCorel,
    LookForInstalled,
    CreateBackup,
    MoveToBackup,
    Removed,
    Failed(DeployError),
}

/// What comes after an action of a removal.
pub open spec fn spec_next_removal(action: RemoveAction, reply: bool) -> RemoveAction {
    match action {
        RemoveAction::LookForCorel => if reply {
            RemoveAction::LookForInstalled
        } else {
            RemoveAction::Failed(DeployError::NotCorel)
        },
        RemoveAction::LookForInstalled => if reply {
            RemoveAction::CreateBackup
        } else {
            RemoveAction::Failed(DeployError::NotInstalled)
        },
        RemoveAction::CreateBackup => if reply {
            RemoveAction::MoveToBackup
        } else {
            RemoveAction::Failed(DeployError::CreateRestorable)
        },
        RemoveAction::MoveToBackup => if reply {
            RemoveAction::Removed
        } else {
            RemoveAction::Failed(DeployError::Remove)
        },
        RemoveAction::Removed => action,
        RemoveAction::Failed(_) => action,
    }
}

/// What comes after an action of a removal; `reply` says whether it succeeded, or
/// whether what was looked for is there.
pub fn next_removal(action: RemoveAction, reply: bool) -> (res: RemoveAction)
    ensures
        res == spec_next_removal(action, reply),
{
    match action {
        RemoveAction::LookForCorel => if reply {
            RemoveAction::LookForInstalled
        } else {
            RemoveAction::Failed(DeployError::NotCorel)
        },
        RemoveAction::LookForInstalled => if reply {
            RemoveAction::CreateBackup
        } else {
            RemoveAction::Failed(DeployError::NotInstalled)
        },
        RemoveAction::CreateBackup => if reply {
            RemoveAction::MoveToBackup
        } else {
            RemoveAction::Failed(DeployError::CreateRestorable)
        },
        RemoveAction::MoveToBackup => if reply {
            RemoveAction::Removed
        } else {
            RemoveAction::Failed(DeployError::Remove)
        },
        RemoveAction::Removed => RemoveAction::Removed,
        RemoveAction::Failed(error) => RemoveAction::Failed(error),
    }
}

/// What an action of a removal does to the disk. An action that fails changes nothing;
/// what was looked for is there exactly if the reply says so.
pub open spec fn removal_effect(
    action: RemoveAction,
    reply: bool,
    before: Disk,
    after: Disk,
) -> bool {
    match action {
        RemoveAction::LookForInstalled => after == before && reply == before.installed is Some,
        RemoveAction::MoveToBackup => if reply {
            after == Disk { installed: None, backup: before.installed, ..before }
        } else {
            after == before
        },
        _ => after == before,
    }
}

/// Whether action `k` of a removal was answered, and did to the disk what it does.
pub open spec fn is_removal_step(
    actions: Seq<RemoveAction>,
    disks: Seq<Disk>,
    replies: Seq<bool>,
    k: int,
) -> bool {
    &&& actions[k + 1] == spec_next_removal(actions[k], replies[k])
    &&& removal_effect(actions[k], replies[k], disks[k], disks[k + 1])
}

/// Whether `actions` and `disks` are the course of a removal in which the actions were
/// answered by `replies`. Every removal has a backup of its own, which is empty at first.
pub open spec fn is_removal_course(
    actions: Seq<RemoveAction>,
    disks: Seq<Disk>,
    replies: Seq<bool>,
) -> bool {
    &&& actions.len() == replies.len() + 1
    &&& disks.len() == replies.len() + 1
    &&& actions[0] == RemoveAction::LookForCorel
    &&& disks[0].backup is None
    &&& forall|k: int|
        0 <= k < replies.len() ==> #[trigger] is_removal_step(actions, disks, replies, k)
}

/// What holds in the course of a removal on a disk that was `initial`.
spec fn removal_holds(action: RemoveAction, disk: Disk, initial: Disk) -> bool {
    match action {
        RemoveAction::LookForCorel | RemoveAction::LookForInstalled => disk == initial,
        RemoveAction::CreateBackup | RemoveAction::MoveToBackup => disk == initial
            && initial.installed is Some,
        RemoveAction::Removed => {
            &&& initial.installed is Some
            &&& disk == Disk { installed: None, backup: initial.installed, ..initial }
        },
        RemoveAction::Failed(error) => {
            &&& disk == initial
            &&& error == DeployError::NotInstalled ==> initial.installed is None
            &&& error == DeployError::CreateRestorable || error == DeployError::Remove
                ==> initial.installed is Some
            &&& error == DeployError::NotCorel || error == DeployError::NotInstalled || error
                == DeployError::CreateRestorable || error == DeployError::Remove
        },
    }
}

proof fn lemma_removal_course(
    actions: Seq<RemoveAction>,
    disks: Seq<Disk>,
    replies: Seq<bool>,
    k: int,
)
    requires
        is_removal_course(actions, disks, replies),
        0 <= k <= replies.len(),
    ensures
        removal_holds(actions[k], disks[k], disks[0]),
    decreases k,
{
    if k > 0 {
        lemma_removal_course(actions, disks, replies, k - 1);
        assert(is_removal_step(actions, disks, replies, k - 1));
    }
}

/// After a removal no plug-in is installed, and the one that was is in the backup.
pub proof fn law_removing_removes(
    actions: Seq<RemoveAction>,
    disks: Seq<Disk>,
    replies: Seq<bool>,
    k: int,
)
    requires
        is_removal_course(actions, disks, replies),
        0 <= k <= replies.len(),
        actions[k] is Removed,
    ensures
        disks[0].installed is Some,
        disks[k].installed is None,
        disks[k].backup == disks[0].installed,
{
    lemma_removal_course(actions, disks, replies, k);
}

/// A removal that fails changes nothing.
pub proof fn law_a_failed_removal_changes_nothing(
    actions: Seq<RemoveAction>,
    disks: Seq<Disk>,
    replies: Seq<bool>,
    k: int,
)
    requires
        is_removal_course(actions, disks, replies),
        0 <= k <= replies.len(),
        actions[k] is Failed,
    ensures
        disks[k] == disks[0],
{
    lemma_removal_course(actions, disks, replies, k);
}

/// What is removed cannot be removed again: a further removal finds no plug-in, says so,
/// and changes nothing.
pub proof fn law_a_further_removal_fails(
    actions: Seq<RemoveAction>,
    disks: Seq<Disk>,
    replies: Seq<bool>,
    k: int,
    further_actions: Seq<RemoveAction>,
    further_disks: Seq<Disk>,
    further_replies: Seq<bool>,
    m: int,
)
    requires
        is_removal_course(actions, disks, replies),
        0 <= k <= replies.len(),
        actions[k] is Removed,
        is_removal_course(further_actions, further_disks, further_replies),
        further_disks[0].installed == disks[k].installed,
        0 <= m <= further_replies.len(),
    ensures
        further_disks[m] == further_disks[0],
        m >= 2 ==> further_actions[m] == RemoveAction::Failed(
            if further_replies[0] {
                DeployError::NotInstalled
            } else {
                DeployError::NotCorel
            },
        ),
    decreases m,
{
    lemma_removal_course(actions, disks, replies, k);
    lemma_removal_course(further_actions, further_disks, further_replies, m);
    if m > 0 {
        assert(is_removal_step(further_actions, further_disks, further_replies, m - 1));
    }
    if m == 2 {
        assert(is_removal_step(further_actions, further_disks, further_replies, 0));
    }
    if m > 2 {
        law_a_further_removal_fails(
            actions,
            disks,
            replies,
            k,
            further_actions,
            further_disks,
            further_replies,
            m - 1,
        );
    }
}

/// What was installed can be removed: the plug-in is found, and when the directory for
/// the backup can be made and the file be moved, it is in the backup and no plug-in is
/// installed.
pub proof fn law_an_installed_plugin_can_be_removed(
    states: Seq<Install>,
    disks: Seq<Disk>,
    replies: Seq<bool>,
    k: int,
    removal_actions: Seq<RemoveAction>,
    removal_disks: Seq<Disk>,
    removal_replies: Seq<bool>,
    m: int,
)
    requires
        is_course(states, disks, replies),
        0 <= k <= replies.len(),
        states[k].action is Installed,
        is_removal_course(removal_actions, removal_disks, removal_replies),
        removal_disks[0].installed == disks[k].installed,
        0 <= m <= removal_replies.len(),
    ensures
        removal_actions[m] != RemoveAction::Failed(DeployError::NotInstalled),
        removal_actions[m] is Removed ==> removal_disks[m].installed is None
            && removal_disks[m].backup == Some(Plugin::New),
        m == 4 && removal_replies[0] && removal_replies[2] && removal_replies[3]
            ==> removal_actions[m] is Removed,
{
    lemma_course(states, disks, replies, k);
    lemma_removal_course(removal_actions, removal_disks, removal_replies, m);
    if m == 4 {
        assert(is_removal_step(removal_actions, removal_disks, removal_replies, 0));
        assert(is_removal_step(removal_actions, removal_disks, removal_replies, 1));
        assert(is_removal_step(removal_actions, removal_disks, removal_replies, 2));
        assert(is_removal_step(removal_actions, removal_disks, removal_replies, 3));
    }
}

/// How many actions a removal can still take.
pub open spec fn removal_actions_left(action: RemoveAction) -> nat {
    match action {
        RemoveAction::LookForCorel => 4,
        RemoveAction::LookForInstalled => 3,
        RemoveAction::CreateBackup => 2,
        RemoveAction::MoveToBackup => 1,
        RemoveAction::Removed => 0,
        RemoveAction::Failed(_) => 0,
    }
}

/// Every action brings a removal closer to its end.
pub proof fn law_a_removal_ends(action: RemoveAction, reply: bool)
    ensures
        removal_actions_left(action) > 0 ==> removal_actions_left(
            spec_next_removal(action, reply),
        ) < removal_actions_left(action),
{
}

/// What is told after an installation.
pub open spec fn spec_installed_message(
    destination: Seq<char>,
    backup: Option<Seq<char>>,
) -> Seq<char> {
    "插件已安装到 "@ + destination + "。请重启 CorelDRAW 后使用。"@ + match backup {
        Some(path) => "旧版本已备份到 "@ + path + "。"@,
        None => Seq::empty(),
    }
}

/// What is told after an installation.
pub fn installed_message(destination: &str, backup: Option<&str>) -> (res: String)
    ensures
        res@ == spec_installed_message(
            destination@,
            match backup {
                Some(path) => Some(path@),
                None => None,
            },
        ),
{
    let mut res = "插件已安装到 ".to_owned();
    res.push_str(destination);
    res.push_str("。请重启 CorelDRAW 后使用。");
    match backup {
        Some(path) => {
            let ghost before = res@;
            res.push_str("旧版本已备份到 ");
            res.push_str(path);
            res.push_str("。");
            assert(res@ =~= before + ("旧版本已备份到 "@ + path@ + "。"@));
        },
        None => {
            assert(res@ =~= res@ + Seq::<char>::empty());
        },
    }
    res
}

/// What is shown after a removal.
pub fn removed_message(backup: &str) -> (res: String)
    ensures
        res@ == "插件已从 Corel 扩展目录移出，并保存在 "@ + backup@ + "。请重启 CorelDRAW。"@,
{
    let mut res = "插件已从 Corel 扩展目录移出，并保存在 ".to_owned();
    res.push_str(backup);
    res.push_str("。请重启 CorelDRAW。");
    res
}

// ---------------------------------------------------------------------------
// What is told and what is done
// ---------------------------------------------------------------------------

/// The files that a bundle lacks are those that it has to hold and does not, in their order.
pub proof fn law_missing_files_are_missing(
    required: Seq<Seq<char>>,
    files: Seq<Seq<char>>,
    end: int,
)
    requires
        0 <= end <= required.len(),
    ensures
        forall|name: Seq<char>| #[trigger]
            missing_from(required, files, end).contains(name) <==> !files.contains(name)
                && required.take(end).contains(name),
        missing_from(required, files, end).len() <= end,
    decreases end,
{
    if end > 0 {
        law_missing_files_are_missing(required, files, end - 1);
        let before = missing_from(required, files, end - 1);
        let all = missing_from(required, files, end);
        let last = required[end - 1];
        assert forall|name: Seq<char>| #[trigger] all.contains(name) <==> !files.contains(name)
            && required.take(end).contains(name) by {
            if all.contains(name) {
                let k = choose|k: int| 0 <= k < all.len() && all[k] == name;
                if k < before.len() {
                    assert(before[k] == name);
                    assert(before.contains(name));
                    let m = choose|m: int|
                        0 <= m < end - 1 && #[trigger] required.take(end - 1)[m] == name;
                    assert(required.take(end)[m] == name);
                } else {
                    assert(required.take(end)[end - 1] == name);
                }
            }
            if !files.contains(name) && required.take(end).contains(name) {
                let m = choose|m: int| 0 <= m < end && #[trigger] required.take(end)[m] == name;
                if m < end - 1 {
                    assert(required.take(end - 1)[m] == name);
                    assert(before.contains(name));
                    let k = choose|k: int| 0 <= k < before.len() && before[k] == name;
                    assert(all[k] == name);
                } else {
                    assert(all[before.len() as int] == name);
                }
            }
        }
    } else {
        assert(required.take(0) =~= Seq::<Seq<char>>::empty());
    }
}

/// The directory that is taken is the first that is an installation; none is taken only if none
/// is one.
pub proof fn law_the_first_installation_is_taken(valid: Seq<bool>, from: int)
    requires
        0 <= from,
    ensures
        match first_installation(valid, from) {
            Some(at) => from <= at < valid.len() && valid[at] && forall|i: int|
                from <= i < at ==> !#[trigger] valid[i],
            None => forall|i: int| from <= i < valid.len() ==> !#[trigger] valid[i],
        },
    decreases valid.len() - from,
{
    if from < valid.len() && !valid[from] {
        law_the_first_installation_is_taken(valid, from + 1);
    }
}

/// An installation in which everything works ends with the plug-in installed: with a backup if
/// one was installed before, and without one if not.
pub proof fn law_an_installation_that_works_installs(installed_before: bool)
    ensures
        ({
            let staged = Install::spec_start().spec_next(true).spec_next(true).spec_next(
                true,
            ).spec_next(false).spec_next(true);
            let end = if installed_before {
                staged.spec_next(true).spec_next(true).spec_next(true).spec_next(true)
            } else {
                staged.spec_next(false).spec_next(true)
            };
            end.action == (InstallAction::Installed { backed_up: installed_before })
        }),
{
}

/// What is told of an action that failed.
pub open spec fn failure_of(action: InstallAction) -> Option<DeployError> {
    match action {
        InstallAction::LookForCorel => Some(DeployError::NotCorel),
        InstallAction::LookForSource => Some(DeployError::NoSource),
        InstallAction::CreateExtensions => Some(DeployError::CreateExtensions),
        InstallAction::LookForDirectory => Some(DeployError::DirectoryInTheWay),
        InstallAction::Stage => Some(DeployError::Copy),
        InstallAction::CreateBackup => Some(DeployError::CreateBackup),
        InstallAction::MoveToBackup => Some(DeployError::MoveToBackup),
        InstallAction::Place => Some(DeployError::Place),
        _ => None,
    }
}

/// An installation that failed tells what failed: the error is that of an action that did not
/// go well. Nothing that was staged is left, if it could be removed.
pub proof fn law_a_failed_installation_tells_why(
    states: Seq<Install>,
    disks: Seq<Disk>,
    replies: Seq<bool>,
    k: int,
)
    requires
        is_course(states, disks, replies),
        0 <= k <= replies.len(),
    ensures
        states[k].action matches InstallAction::Failed(error) ==> {
            &&& exists|i: int|
                0 <= i < k && failure_of((#[trigger] states[i]).action) == Some(error)
                    && replies[i] == (states[i].action is LookForDirectory)
            &&& (forall|i: int|
                0 <= i < k && (#[trigger] states[i]).action is RemoveStaged ==> replies[i])
                ==> disks[k].staged is None
        },
    decreases k,
{
    lemma_why(states, disks, replies, k);
}

proof fn lemma_why(states: Seq<Install>, disks: Seq<Disk>, replies: Seq<bool>, k: int)
    requires
        is_course(states, disks, replies),
        0 <= k <= replies.len(),
    ensures
        (states[k].action is Failed || states[k].action is RemoveStaged
            || states[k].action is RestoreBackup) ==> exists|i: int|
            0 <= i < k && failure_of((#[trigger] states[i]).action) == Some(
                if states[k].action is Failed {
                    states[k].action->Failed_0
                } else {
                    states[k].error
                },
            ) && replies[i] == (states[i].action is LookForDirectory),
        states[k].action is LookForCorel || states[k].action is LookForSource
            || states[k].action is CreateExtensions || states[k].action is LookForDirectory
            || states[k].action is Stage ==> disks[k].staged is None,
        states[k].action is Failed && (forall|i: int|
            0 <= i < k && (#[trigger] states[i]).action is RemoveStaged ==> replies[i])
            ==> disks[k].staged is None,
    decreases k,
{
    if k > 0 {
        lemma_why(states, disks, replies, k - 1);
        assert(is_step(states, disks, replies, k - 1));
        let before = states[k - 1];
        if before.action is Failed || before.action is RemoveStaged
            || before.action is RestoreBackup {
            let error = if before.action is Failed {
                before.action->Failed_0
            } else {
                before.error
            };
            let i = choose|i: int|
                0 <= i < k - 1 && failure_of((#[trigger] states[i]).action) == Some(error)
                    && replies[i] == (states[i].action is LookForDirectory);
            assert(failure_of(states[i].action) == Some(error));
        } else {
            assert(failure_of(states[k - 1].action) == failure_of(before.action));
        }
    }
}

} // verus!
