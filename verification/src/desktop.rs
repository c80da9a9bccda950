//! What the desktop program shows, and what can be done with it when.

use vstd::prelude::*;

use crate::deployment::{
    law_missing_files_are_missing, missing_from, names_of, spec_bundle_files, spec_installed_message,
    BundleStatus,
};
use crate::printflow::{focused_summary, upload_and_focus_printflow};
use crate::text::{
    after_prefix, chars_of, contains_part, holds_part, stands_at, strip_prefix,
};
use crate::updater::UpdateInfo;

verus! {

// ---------------------------------------------------------------------------
// Processing
// ---------------------------------------------------------------------------

/// How the last job went.
#[derive(Debug, Clone)]
pub enum RunState {
    Idle,
    Running,
    Success(String),
    Error(String),
}

/// What a job tells. Progress is the bit pattern of a binary32 number.
#[derive(Debug, Clone)]
pub enum WorkerMessage {
    Progress { value: u32, stage: String },
    Success(String),
    PrintFlowUploadSuccess(String),
    Error(String),
}

/// One, as a binary32 number.
pub const WHOLE: u32 = 0x3f80_0000;

/// The sign of a binary32 number.
pub const NEGATIVE: u32 = 0x8000_0000;

/// The infinite binary32 number; what lies above it is no number.
pub const UNBOUNDED: u32 = 0x7f80_0000;

/// A number between nothing and one: a smaller one is nothing, a larger one is one. What
/// is no number stays as it is, and so does a negative zero.
pub open spec fn clamped(value: u32) -> u32 {
    if value > NEGATIVE && value - NEGATIVE <= UNBOUNDED {
        0
    } else if WHOLE < value <= UNBOUNDED {
        WHOLE
    } else {
        value
    }
}

/// A number between nothing and one.
pub fn clamp_progress(value: u32) -> (res: u32)
    ensures
        res == clamped(value),
{
    if value > NEGATIVE && value - NEGATIVE <= UNBOUNDED {
        0
    } else if WHOLE < value && value <= UNBOUNDED {
        WHOLE
    } else {
        value
    }
}

/// A job, as it is shown.
#[derive(Debug, Clone)]
pub struct Job {
    pub progress: u32,
    pub stage: String,
    pub state: RunState,
    /// Whether messages of a job are awaited.
    pub awaited: bool,
}

/// A job by its value.
pub struct SpecJob {
    pub progress: u32,
    pub stage: Seq<char>,
    pub state: SpecRunState,
    pub awaited: bool,
}

/// How a job went, by its value.
pub enum SpecRunState {
    Idle,
    Running,
    Success(Seq<char>),
    Error(Seq<char>),
}

impl RunState {
    pub open spec fn view(&self) -> SpecRunState {
        match self {
            RunState::Idle => SpecRunState::Idle,
            RunState::Running => SpecRunState::Running,
            RunState::Success(summary) => SpecRunState::Success(summary@),
            RunState::Error(error) => SpecRunState::Error(error@),
        }
    }
}

impl SpecJob {
    /// The job after a message; `focused` tells whether PrintFlow's window came to the
    /// front.
    pub open spec fn after(self, message: WorkerMessage, focused: bool) -> SpecJob {
        match message {
            WorkerMessage::Progress { value, stage } => SpecJob {
                progress: clamped(value),
                stage: stage@,
                ..self
            },
            WorkerMessage::Success(summary) => SpecJob {
                progress: WHOLE,
                stage: "处理完成"@,
                state: SpecRunState::Success(summary@),
                awaited: false,
            },
            WorkerMessage::PrintFlowUploadSuccess(summary) => SpecJob {
                progress: WHOLE,
                stage: "处理完成，正在切换到 PrintFlow"@,
                state: SpecRunState::Success(focused_summary(summary@, focused)),
                awaited: false,
            },
            WorkerMessage::Error(error) => SpecJob {
                state: SpecRunState::Error(error@),
                awaited: false,
                ..self
            },
        }
    }

    /// A job runs as long as its messages are awaited.
    pub open spec fn is_consistent(self) -> bool {
        self.awaited == (self.state is Running)
    }
}

/// What a job is called when it starts.
pub open spec fn start_stage(export: bool, uploads: bool) -> Seq<char> {
    if !export {
        "开始处理"@
    } else if uploads {
        "导出 SVG，随后上传 PrintFlow"@
    } else {
        "正在导出 SVG"@
    }
}

impl Job {
    pub open spec fn view(&self) -> SpecJob {
        SpecJob {
            progress: self.progress,
            stage: self.stage@,
            state: self.state.view(),
            awaited: self.awaited,
        }
    }

    /// No job yet.
    pub fn new() -> (res: Job)
        ensures
            res.view() == (SpecJob {
                progress: 0,
                stage: "等待处理"@,
                state: SpecRunState::Idle,
                awaited: false,
            }),
    {
        Job {
            progress: 0,
            stage: "等待处理".to_owned(),
            state: RunState::Idle,
            awaited: false,
        }
    }

    /// Starts a job: an export, which may be uploaded, or else a processing.
    pub fn start(&mut self, export: bool, uploads: bool)
        ensures
            final(self).view() == (SpecJob {
                progress: 0,
                stage: start_stage(export, uploads),
                state: SpecRunState::Running,
                awaited: true,
            }),
    {
        self.progress = 0;
        self.stage = if !export {
            "开始处理".to_owned()
        } else if uploads {
            "导出 SVG，随后上传 PrintFlow".to_owned()
        } else {
            "正在导出 SVG".to_owned()
        };
        self.state = RunState::Running;
        self.awaited = true;
    }

    /// Takes a message of the job. Where a file was handed over, `focus` brings PrintFlow's
    /// window to the front and tells whether it could.
    pub fn receive<F>(&mut self, message: WorkerMessage, focus: F) where F: FnOnce() -> bool
        requires
            focus.requires(()),
        ensures
            message is PrintFlowUploadSuccess ==> exists|focused: bool|
                focus.ensures((), focused) && final(self).view() == #[trigger] old(
                    self,
                ).view().after(message, focused),
            !(message is PrintFlowUploadSuccess) ==> forall|focused: bool|
                final(self).view() == #[trigger] old(self).view().after(message, focused),
    {
        match message {
            WorkerMessage::Progress { value, stage } => {
                self.progress = clamp_progress(value);
                self.stage = stage;
            },
            WorkerMessage::Success(summary) => {
                self.progress = WHOLE;
                self.stage = "处理完成".to_owned();
                self.state = RunState::Success(summary);
                self.awaited = false;
            },
            WorkerMessage::PrintFlowUploadSuccess(summary) => {
                self.progress = WHOLE;
                self.stage = "处理完成，正在切换到 PrintFlow".to_owned();
                let ghost given = summary@;
                let handed_over = || -> (res: Result<String, String>)
                    ensures
                        res matches Ok(text) && text@ == given,
                    { Ok(summary) };
                self.awaited = false;
                if let Ok(text) = upload_and_focus_printflow(handed_over, focus) {
                    self.state = RunState::Success(text);
                    proof {
                        let focused = choose|focused: bool|
                            focus.ensures((), focused) && text@ == #[trigger] focused_summary(
                                given,
                                focused,
                            );
                        assert(self.view() == old(self).view().after(message, focused));
                    }
                }
            },
            WorkerMessage::Error(error) => {
                self.state = RunState::Error(error);
                self.awaited = false;
            },
        }
    }

    /// Whether a job runs.
    pub fn is_running(&self) -> (res: bool)
        ensures
            res == (self.view().state is Running),
    {
        match self.state {
            RunState::Running => true,
            _ => false,
        }
    }

    /// Whether a new job can be started.
    pub fn can_start(&self, bundle: &BundleStatus) -> (res: bool)
        ensures
            res == (!(self.view().state is Running) && can_process(bundle)),
    {
        !self.is_running() && bundle.processing_ready()
    }

    /// Whether the plug-in can be installed, while `deploying` tells that it is being
    /// installed or removed.
    pub fn can_install(&self, deploying: bool, bundle: &BundleStatus) -> (res: bool)
        ensures
            res == (!(self.view().state is Running) && !deploying && bundle.missing_files@.len()
                == 0),
    {
        !self.is_running() && !deploying && bundle.is_ready()
    }

    /// Whether the plug-in can be removed, or its directory be chosen.
    pub fn can_remove(&self, deploying: bool) -> (res: bool)
        ensures
            res == (!(self.view().state is Running) && !deploying),
    {
        !self.is_running() && !deploying
    }
}

/// Whether documents can be processed with a bundle.
pub open spec fn can_process(bundle: &BundleStatus) -> bool {
    forall|i: int|
        0 <= i < bundle.missing_files@.len() ==> (#[trigger] bundle.missing_files@[i])@
            == crate::deployment::plugin_name()
}

/// Whatever a job tells, it runs as long as its messages are awaited.
pub proof fn law_a_job_runs_while_it_is_awaited(
    job: SpecJob,
    message: WorkerMessage,
    focused: bool,
)
    requires
        job.is_consistent(),
        message is Progress ==> job.awaited,
    ensures
        job.after(message, focused).is_consistent(),
        job.after(message, focused).awaited == (message is Progress),
{
}

/// The progress that is shown is never more than the whole, and never negative, for any
/// number that a job tells.
pub proof fn law_progress_stays_in_bounds(value: u32)
    requires
        value <= UNBOUNDED || NEGATIVE < value <= NEGATIVE + UNBOUNDED,
    ensures
        clamped(value) <= WHOLE,
{
}

/// What a job tells that exports a file: `exported` is what the processor came to, and
/// `uploaded` is what became of the file's upload, if there was one.
pub fn export_message(
    exported: Result<String, String>,
    uploaded: Option<Result<String, String>>,
) -> (res: WorkerMessage)
    ensures
        match (exported, uploaded) {
            (Err(error), _) => res == WorkerMessage::Error(error),
            (Ok(summary), None) => res == WorkerMessage::Success(summary),
            (Ok(_), Some(Err(error))) => res == WorkerMessage::Error(error),
            (Ok(summary), Some(Ok(message))) => res is PrintFlowUploadSuccess
                && res->PrintFlowUploadSuccess_0@ == summary@ + "\n"@ + message@,
        },
{
    match exported {
        Err(error) => WorkerMessage::Error(error),
        Ok(summary) => match uploaded {
            None => WorkerMessage::Success(summary),
            Some(Err(error)) => WorkerMessage::Error(error),
            Some(Ok(message)) => {
                let mut text = summary;
                text.push_str("\n");
                text.push_str(message.as_str());
                WorkerMessage::PrintFlowUploadSuccess(text)
            },
        },
    }
}

/// What is told when an export does not tell where its file is.
pub fn missing_path_message() -> (res: &'static str)
    ensures
        res@ == "导出成功但未找到输出 SVG 路径"@,
{
    "导出成功但未找到输出 SVG 路径"
}

// ---------------------------------------------------------------------------
// The plug-in
// ---------------------------------------------------------------------------

/// What is told while the plug-in is installed or removed.
pub open spec fn spec_deployment_start(install: bool) -> Seq<char> {
    if install {
        "正在安装插件；不会关闭 CorelDRAW。"@
    } else {
        "正在移出插件并保留可恢复备份。"@
    }
}

/// What is told while the plug-in is installed or removed.
pub fn deployment_start(install: bool) -> (res: &'static str)
    ensures
        res@ == spec_deployment_start(install),
{
    if install {
        "正在安装插件；不会关闭 CorelDRAW。"
    } else {
        "正在移出插件并保留可恢复备份。"
    }
}

/// What is told when the plug-in was installed or removed.
pub fn deployment_end(result: Result<String, String>) -> (res: String)
    ensures
        res@ == (match result {
            Ok(message) => message@,
            Err(error) => "操作失败："@ + error@,
        }),
{
    match result {
        Ok(message) => message,
        Err(error) => {
            let mut res = "操作失败：".to_owned();
            res.push_str(error.as_str());
            res
        },
    }
}

/// A status without the paths of an installation.
pub open spec fn spec_display_text(status: Seq<char>) -> Seq<char> {
    if after_prefix(status, "插件已安装到 "@) is Some {
        if holds_part(status, "旧版本已备份到 "@) {
            "插件安装完成；旧版本已自动备份。请重启 CorelDRAW 后使用。"@
        } else {
            "插件安装完成。请重启 CorelDRAW 后使用。"@
        }
    } else {
        status
    }
}

/// A status without the paths of an installation.
pub fn deployment_status_display_text(status: &str) -> (res: String)
    ensures
        res@ == spec_display_text(status@),
{
    let chars = chars_of(status);
    if strip_prefix(chars.as_slice(), "插件已安装到 ").is_some() {
        let backup = chars_of("旧版本已备份到 ");
        if contains_part(chars.as_slice(), backup.as_slice()) {
            "插件安装完成；旧版本已自动备份。请重启 CorelDRAW 后使用。".to_owned()
        } else {
            "插件安装完成。请重启 CorelDRAW 后使用。".to_owned()
        }
    } else {
        status.to_owned()
    }
}

/// An installation is shown without its paths, and with whether there is a backup. A
/// directory is not called like the words that tell of a backup.
pub proof fn law_an_installation_is_shown_without_its_paths(
    destination: Seq<char>,
    backup: Option<Seq<char>>,
)
    requires
        backup is None ==> !holds_part(
            spec_installed_message(destination, backup),
            "旧版本已备份到 "@,
        ),
    ensures
        spec_display_text(spec_installed_message(destination, backup)) == match backup {
            Some(_) => "插件安装完成；旧版本已自动备份。请重启 CorelDRAW 后使用。"@,
            None => "插件安装完成。请重启 CorelDRAW 后使用。"@,
        },
{
    let status = spec_installed_message(destination, backup);
    let start = "插件已安装到 "@;
    assert(status.subrange(0, start.len() as int) =~= start);
    if let Some(path) = backup {
        let words = "旧版本已备份到 "@;
        let from = (start + destination + "。请重启 CorelDRAW 后使用。"@).len() as int;
        assert(status.subrange(from, from + words.len()) =~= words);
        assert(stands_at(status, words, from));
    }
}

/// What is told of a bundle.
pub open spec fn spec_bundle_text(bundle: &BundleStatus) -> Seq<char> {
    if bundle.missing_files@.len() == 0 {
        "运行包完整：处理器、OpenCV、VC 运行库和插件包均已就绪。"@
    } else if can_process(bundle) {
        "图像处理依赖已就绪；插件包状态如下："@
    } else {
        "运行包不完整，处理功能暂不可用："@
    }
}

/// What is told of a bundle.
pub fn bundle_text(bundle: &BundleStatus) -> (res: &'static str)
    ensures
        res@ == spec_bundle_text(bundle),
{
    if bundle.is_ready() {
        "运行包完整：处理器、OpenCV、VC 运行库和插件包均已就绪。"
    } else if bundle.processing_ready() {
        "图像处理依赖已就绪；插件包状态如下："
    } else {
        "运行包不完整，处理功能暂不可用："
    }
}

/// The first `end` names, with a mark between them.
pub open spec fn joined(names: Seq<Seq<char>>, end: int) -> Seq<char>
    decreases end,
{
    if end <= 0 {
        Seq::empty()
    } else if end == 1 {
        names[0]
    } else {
        joined(names, end - 1) + "、"@ + names[end - 1]
    }
}

/// The files that a bundle lacks, in one line.
pub fn missing_text(bundle: &BundleStatus) -> (res: String)
    ensures
        res@ == joined(names_of(bundle.missing_files@), bundle.missing_files@.len() as int),
{
    let mut res: String = String::new();
    let ghost names = names_of(bundle.missing_files@);
    for i in 0..bundle.missing_files.len()
        invariant
            names == names_of(bundle.missing_files@),
            res@ == joined(names, i as int),
    {
        assert(names[i as int] == bundle.missing_files@[i as int]@);
        let ghost before = res@;
        if i > 0 {
            res.push_str("、");
        }
        res.push_str(bundle.missing_files[i].as_str());
        if i == 0 {
            assert(res@ =~= names[0]);
        }
        assert(res@ == joined(names, i + 1));
    }
    res
}

/// What is told of an installation of CorelDRAW.
pub open spec fn spec_installation_text(has_plugin: bool) -> Seq<char> {
    if has_plugin {
        "此目录已存在插件；更新会先备份旧版本。"@
    } else {
        "此目录尚未安装本插件。"@
    }
}

/// What is told of an installation of CorelDRAW.
pub fn installation_text(has_plugin: bool) -> (res: &'static str)
    ensures
        res@ == spec_installation_text(has_plugin),
{
    if has_plugin {
        "此目录已存在插件；更新会先备份旧版本。"
    } else {
        "此目录尚未安装本插件。"
    }
}

// ---------------------------------------------------------------------------
// Updates
// ---------------------------------------------------------------------------

/// What an update waits for.
#[derive(Debug, Clone, Copy, PartialEq, Eq, Structural)]
pub enum Awaited {
    Nothing,
    /// Whether there is a newer release.
    Check,
    /// That a release is downloaded and its installation prepared.
    Installation,
}

/// An update of the program, as it is shown.
#[derive(Debug, Clone)]
pub struct Updating {
    pub status: String,
    /// The release that can be installed.
    pub offer: Option<UpdateInfo>,
    pub awaited: Awaited,
    /// Whether a check was ever started.
    pub started: bool,
}

impl Updating {
    /// No check was started yet.
    pub fn new() -> (res: Updating)
        ensures
            res.status@ == "当前版本 v"@ + "0.1.26"@ + "，正在检查更新…"@,
            res.offer is None,
            res.awaited == Awaited::Nothing,
            !res.started,
    {
        let mut status = "当前版本 v".to_owned();
        status.push_str(crate::updater::current_version());
        status.push_str("，正在检查更新…");
        Updating { status, offer: None, awaited: Awaited::Nothing, started: false }
    }

    /// Whether an answer is awaited.
    pub fn is_awaiting(&self) -> (res: bool)
        ensures
            res == (self.awaited != Awaited::Nothing),
    {
        self.awaited != Awaited::Nothing
    }

    /// Starts a check.
    pub fn start_check(&mut self)
        ensures
            final(self).status == old(self).status,
            final(self).offer == old(self).offer,
            final(self).awaited == Awaited::Check,
            final(self).started,
    {
        self.awaited = Awaited::Check;
        self.started = true;
    }

    /// Starts the installation of a release.
    pub fn start_install(&mut self, version: &str)
        ensures
            final(self).status@ == "正在下载 v"@ + version@ + "…"@,
            final(self).offer is None,
            final(self).awaited == Awaited::Installation,
            final(self).started == old(self).started,
    {
        let mut status = "正在下载 v".to_owned();
        status.push_str(version);
        status.push_str("…");
        self.status = status;
        self.offer = None;
        self.awaited = Awaited::Installation;
    }

    /// Takes an answer: a release that can be installed, that there is none or that it is
    /// being installed, or an error. Tells whether the program has to end, which it does
    /// for an installation only.
    pub fn receive(&mut self, answer: Result<Option<UpdateInfo>, String>) -> (res: bool)
        ensures
            final(self).awaited == Awaited::Nothing,
            final(self).started == old(self).started,
            res == (answer matches Ok(None) && old(self).awaited == Awaited::Installation),
            match answer {
                Ok(Some(info)) => final(self).offer == Some(info) && final(self).status@
                    == "发现新版本 v"@ + info.version@,
                Ok(None) => final(self).offer == old(self).offer && final(self).status@ == (if old(
                    self,
                ).awaited == Awaited::Installation {
                    "更新包已下载，程序将关闭并自动完成更新。"@
                } else {
                    "当前版本 v"@ + "0.1.26"@ + "，已是最新版本。"@
                }),
                Err(error) => final(self).offer == old(self).offer && final(self).status == error,
            },
    {
        let awaited = self.awaited;
        self.awaited = Awaited::Nothing;
        match answer {
            Ok(Some(info)) => {
                let mut status = "发现新版本 v".to_owned();
                status.push_str(info.version.as_str());
                self.status = status;
                self.offer = Some(info);
                false
            },
            Ok(None) => {
                if awaited == Awaited::Installation {
                    self.status = "更新包已下载，程序将关闭并自动完成更新。".to_owned();
                    return true;
                }
                let mut status = "当前版本 v".to_owned();
                status.push_str(crate::updater::current_version());
                status.push_str("，已是最新版本。");
                self.status = status;
                false
            },
            Err(error) => {
                self.status = error;
                false
            },
        }
    }
}

// ---------------------------------------------------------------------------
// What is shown
// ---------------------------------------------------------------------------

/// Progress between nothing and the whole is shown as it is told; more than the whole is the
/// whole, and less than nothing is nothing.
pub proof fn law_progress_is_shown_as_it_is_told(value: u32)
    ensures
        value <= 0x3f80_0000 ==> clamped(value) == value,
        0x3f80_0000 < value <= 0x7f80_0000 ==> clamped(value) == 0x3f80_0000,
        0x8000_0000 < value <= 0xff80_0000 ==> clamped(value) == 0,
        clamped(clamped(value)) == clamped(value),
{
}

/// A job that has ended shows what it came to, and progress does not change how a job stands.
pub proof fn law_a_job_shows_what_it_came_to(job: SpecJob, message: WorkerMessage, focused: bool)
    ensures
        ({
            let after = job.after(message, focused);
            match message {
                WorkerMessage::Progress { value, stage } => after.state == job.state
                    && after.awaited == job.awaited && after.stage == stage@ && after.progress
                    == clamped(value),
                WorkerMessage::Success(summary) => after.state == SpecRunState::Success(summary@)
                    && !after.awaited && after.progress == 0x3f80_0000,
                WorkerMessage::PrintFlowUploadSuccess(summary) => !after.awaited && after.progress
                    == 0x3f80_0000 && exists|told: Seq<char>|
                    after.state == SpecRunState::Success(#[trigger] (summary@ + "\n"@ + told))
                        && told.len() > 0,
                WorkerMessage::Error(error) => after.state == SpecRunState::Error(error@)
                    && !after.awaited && after.progress == job.progress,
            }
        }),
{
    if let WorkerMessage::PrintFlowUploadSuccess(summary) = message {
        reveal_strlit("PrintFlow 窗口已置前。");
        reveal_strlit("已提交 PrintFlow，但未能自动切换窗口；请手动切换到 PrintFlow。");
        let told = crate::printflow::focus_status(focused);
        assert(focused_summary(summary@, focused) == summary@ + "\n"@ + told);
    }
}

/// What is lacking is told name by name, with a mark between two names.
pub proof fn law_names_are_told_one_by_one(names: Seq<Seq<char>>, more: Seq<char>)
    ensures
        joined(seq![more], 1) == more,
        names.len() > 0 ==> joined(names.push(more), (names.len() + 1) as int) == joined(
            names,
            names.len() as int,
        ) + "、"@ + more,
{
    if names.len() > 0 {
        lemma_joined_prefix(names, names.push(more), names.len() as int);
    }
}

proof fn lemma_joined_prefix(a: Seq<Seq<char>>, b: Seq<Seq<char>>, end: int)
    requires
        0 <= end <= a.len(),
        end <= b.len(),
        forall|i: int| 0 <= i < end ==> a[i] == b[i],
    ensures
        joined(a, end) == joined(b, end),
    decreases end,
{
    if end > 1 {
        lemma_joined_prefix(a, b, end - 1);
    }
}

/// Documents can be processed with a bundle exactly if it holds every file but perhaps the
/// plug-in.
pub proof fn law_processing_does_not_need_the_plugin(files: Seq<Seq<char>>, bundle: &BundleStatus)
    requires
        names_of(bundle.missing_files@) == missing_from(
            spec_bundle_files(),
            files,
            spec_bundle_files().len() as int,
        ),
    ensures
        can_process(bundle) <==> forall|i: int|
            0 <= i < spec_bundle_files().len() && spec_bundle_files()[i]
                != "CdrOutline.CorelExtension"@ ==> files.contains(
                #[trigger] spec_bundle_files()[i],
            ),
{
    let all = spec_bundle_files();
    let missing = bundle.missing_files@;
    law_missing_files_are_missing(all, files, all.len() as int);
    assert(all.take(all.len() as int) =~= all);
    assert(forall|k: int| 0 <= k < missing.len() ==> names_of(missing)[k] == (#[trigger] missing[k])@);
    if can_process(bundle) {
        assert forall|i: int|
            0 <= i < all.len() && all[i] != "CdrOutline.CorelExtension"@ implies files.contains(
            #[trigger] all[i],
        ) by {
            if !files.contains(all[i]) {
                assert(all.contains(all[i]));
                assert(names_of(missing).len() == missing.len());
                assert(missing_from(all, files, all.len() as int).contains(all[i]));
                let k = choose|k: int| 0 <= k < missing.len() && names_of(missing)[k] == all[i];
                assert(missing[k]@ == all[i]);
            }
        }
    }
    if forall|i: int|
        0 <= i < all.len() && all[i] != "CdrOutline.CorelExtension"@ ==> files.contains(
            #[trigger] all[i],
        ) {
        assert forall|k: int| 0 <= k < missing.len() implies (#[trigger] missing[k])@
            == crate::deployment::plugin_name() by {
            assert(names_of(missing)[k] == missing[k]@);
            assert(names_of(missing).contains(missing[k]@));
            let i = choose|i: int| 0 <= i < all.len() && all[i] == missing[k]@;
            assert(all[i] == missing[k]@);
        }
    }
}

} // verus!
