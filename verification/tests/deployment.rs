use cdr_outline::deployment::{
    bundle_files, corel_library, discover_corel_installation, fixed_candidates,
    has_installed_extension, inspect_bundle, installed_extension, installed_message,
    is_corel_installation, next_removal, removed_message, suite_folders, timestamp, DeployError,
    Install, InstallAction, RemoveAction,
};

#[test]
fn a_bundle_is_inspected() {
    let mut files = bundle_files();
    assert!(inspect_bundle(&files).is_ready());
    let count = files.len();
    files.retain(|name| name != "CdrOutline.CorelExtension");
    assert_eq!(files.len(), count - 1);
    let status = inspect_bundle(&files);
    assert!(!status.is_ready() && status.processing_ready());
    assert_eq!(status.missing_files, vec!["CdrOutline.CorelExtension".to_owned()]);
    files.retain(|name| name != "cdr-corel.exe");
    assert!(!inspect_bundle(&files).processing_ready());
}

#[test]
fn installations_are_found() {
    assert!(is_corel_installation(&vec![corel_library().to_owned()]));
    assert!(!is_corel_installation(&vec![installed_extension().to_owned()]));
    assert!(has_installed_extension(&vec![installed_extension().to_owned()]));
    assert!(!has_installed_extension(&Vec::new()));
    assert_eq!(discover_corel_installation(&[false, true, true]), Some(1));
    assert_eq!(discover_corel_installation(&[false]), None);
    assert_eq!(fixed_candidates()[0], "D:\\apps\\CorelDRAW Graphics Suite 2020");
    assert_eq!(suite_folders().len(), 6);
    assert_eq!(timestamp(12, 5), "12-5");
}

fn install(no: &[InstallAction]) -> (Vec<InstallAction>, InstallAction) {
    let mut state = Install::start();
    let mut done = Vec::new();
    loop {
        match state.action {
            InstallAction::Installed { .. } | InstallAction::Failed(_) => {
                return (done, state.action)
            }
            action => {
                done.push(action);
                state = state.next(!no.contains(&action));
            }
        }
    }
}

#[test]
fn a_plugin_is_installed() {
    let (_, end) = install(&[InstallAction::LookForDirectory]);
    assert_eq!(end, InstallAction::Installed { backed_up: true });
    let (done, end) =
        install(&[InstallAction::LookForDirectory, InstallAction::LookForInstalled]);
    assert_eq!(end, InstallAction::Installed { backed_up: false });
    assert!(!done.contains(&InstallAction::CreateBackup));
}

#[test]
fn a_failed_installation_is_undone() {
    let free = InstallAction::LookForDirectory;
    let cases = [
        (vec![InstallAction::LookForCorel], DeployError::NotCorel),
        (vec![InstallAction::LookForSource], DeployError::NoSource),
        (vec![InstallAction::CreateExtensions], DeployError::CreateExtensions),
        (vec![], DeployError::DirectoryInTheWay),
        (vec![free, InstallAction::Stage], DeployError::Copy),
        (vec![free, InstallAction::CreateBackup], DeployError::CreateBackup),
        (vec![free, InstallAction::MoveToBackup], DeployError::MoveToBackup),
        (vec![free, InstallAction::Place], DeployError::Place),
    ];
    for (no, error) in cases {
        let (done, end) = install(&no);
        assert_eq!(end, InstallAction::Failed(error));
        assert_eq!(
            done.contains(&InstallAction::RestoreBackup),
            error == DeployError::Place
        );
        assert_eq!(
            done.contains(&InstallAction::RemoveStaged),
            no.len() == 2
        );
    }
    assert_eq!(DeployError::Copy.message("x"), "复制插件失败：x");
}

#[test]
fn a_plugin_is_removed() {
    let mut action = RemoveAction::LookForCorel;
    let mut steps = 0;
    while action != RemoveAction::Removed {
        action = next_removal(action, true);
        steps += 1;
    }
    assert_eq!(steps, 4);
    for (action, error) in [
        (RemoveAction::LookForCorel, DeployError::NotCorel),
        (RemoveAction::LookForInstalled, DeployError::NotInstalled),
        (RemoveAction::CreateBackup, DeployError::CreateRestorable),
        (RemoveAction::MoveToBackup, DeployError::Remove),
    ] {
        assert_eq!(next_removal(action, false), RemoveAction::Failed(error));
    }
}

#[test]
fn what_is_removed_is_in_the_backup() {
    let mut installed = Some("new");
    let mut backups = Vec::new();
    let mut remove = || {
        let mut action = RemoveAction::LookForCorel;
        loop {
            let reply = match action {
                RemoveAction::LookForInstalled => installed.is_some(),
                RemoveAction::MoveToBackup => {
                    backups.extend(installed.take());
                    true
                }
                RemoveAction::Removed | RemoveAction::Failed(_) => return action,
                _ => true,
            };
            action = next_removal(action, reply);
        }
    };
    assert_eq!(remove(), RemoveAction::Removed);
    assert_eq!(remove(), RemoveAction::Failed(DeployError::NotInstalled));
    assert_eq!(installed, None);
    assert_eq!(backups, vec!["new"]);
}

#[test]
fn outcomes_are_told() {
    assert_eq!(
        installed_message("D", Some("B")),
        "插件已安装到 D。请重启 CorelDRAW 后使用。旧版本已备份到 B。"
    );
    assert_eq!(
        removed_message("B"),
        "插件已从 Corel 扩展目录移出，并保存在 B。请重启 CorelDRAW。"
    );
}
