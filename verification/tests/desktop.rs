use cdr_outline::deployment::{inspect_bundle, installed_message, BundleStatus};
use cdr_outline::desktop::{
    bundle_text, clamp_progress, deployment_end, deployment_start,
    deployment_status_display_text, export_message, installation_text, missing_path_message,
    missing_text, Awaited, Job, RunState, Updating, WorkerMessage,
};
use cdr_outline::printflow::{
    check_upload, discover_printflow_endpoint, endpoint_candidates, import_body, json_escape,
    json_number_field, json_string_field, parse_http_response, parse_printflow_endpoint,
    request_head, upload_and_focus_printflow, upload_to_printflow, Discovery, HttpResponse,
    PrintFlowError,
};
use cdr_outline::updater::UpdateInfo;

#[test]
fn successful_printflow_upload_requests_window_focus() {
    let mut focus_requested = false;

    let result = upload_and_focus_printflow(
        || Ok("已提交 PrintFlow".to_owned()),
        || {
            focus_requested = true;
            true
        },
    )
    .expect("a successful upload should remain successful");

    assert!(
        focus_requested,
        "PrintFlow should be brought to the foreground"
    );
    assert!(result.contains("PrintFlow 窗口已置前"));
}

#[test]
fn summarizes_install_status_without_inline_paths() {
    let status = "插件已安装到 D:\\apps\\CorelDRAW Graphics Suite 2020\\Extensions\\CdrOutline.CorelExtension。请重启 CorelDRAW 后使用。旧版本已备份到 D:\\apps\\CorelDRAW Graphics Suite 2020\\Extensions\\_CdrOutlineBackups\\backup-id\\CdrOutline.CorelExtension。";
    let display = deployment_status_display_text(status);

    assert!(!display.contains("D:\\apps"));
    assert!(display.contains("插件安装完成"));
    assert!(display.contains("旧版本已自动备份"));
}

#[test]
fn a_failed_upload_requests_no_focus() {
    let mut focus_requested = false;
    let result = upload_and_focus_printflow(
        || Err("refused".to_owned()),
        || {
            focus_requested = true;
            true
        },
    );
    assert_eq!(result.unwrap_err(), "refused");
    assert!(!focus_requested);
}

#[test]
fn a_window_that_stays_behind_is_told() {
    let result = upload_and_focus_printflow(|| Ok("sent".to_owned()), || false).unwrap();
    assert_eq!(
        result,
        "sent\n已提交 PrintFlow，但未能自动切换窗口；请手动切换到 PrintFlow。"
    );
}

#[test]
fn an_installation_without_a_backup_is_shown() {
    let status = installed_message("D:\\Corel", None);
    assert_eq!(
        deployment_status_display_text(&status),
        "插件安装完成。请重启 CorelDRAW 后使用。"
    );
    let status = installed_message("D:\\Corel", Some("D:\\old"));
    assert_eq!(
        deployment_status_display_text(&status),
        "插件安装完成；旧版本已自动备份。请重启 CorelDRAW 后使用。"
    );
    assert_eq!(deployment_status_display_text("操作失败：x"), "操作失败：x");
}

#[test]
fn json_fields_are_read() {
    let json = "{ \"host\" : \"127.0.0.1\", \"port\":47825, \"big\": 70000, \"open\": \"x";
    assert_eq!(json_string_field(json, "host").unwrap(), "127.0.0.1");
    assert_eq!(json_number_field(json, "port"), Some(47825));
    assert_eq!(json_number_field(json, "big"), None);
    assert_eq!(json_number_field(json, "host"), None);
    assert!(json_string_field(json, "port").is_none());
    assert!(json_string_field(json, "open").is_none());
    assert!(json_string_field(json, "missing").is_none());
    let endpoint = parse_printflow_endpoint(json).unwrap();
    assert_eq!((endpoint.host.as_str(), endpoint.port), ("127.0.0.1", 47825));
    assert!(parse_printflow_endpoint("{}").is_none());
}

#[test]
fn texts_are_escaped_for_json() {
    assert_eq!(
        json_escape("C:\\a \"b\"\n\r\t图"),
        "C:\\\\a \\\"b\\\"\\n\\r\\t图"
    );
    assert_eq!(import_body("C:\\a.svg"), "{\"path\":\"C:\\\\a.svg\"}");
}

#[test]
fn only_local_endpoints_are_candidates() {
    let all = endpoint_candidates(None);
    assert_eq!(all.len(), 20);
    assert_eq!(all[0].port, 47821);
    assert_eq!(all[19].port, 47840);
    let all = endpoint_candidates(Some("{\"host\":\"localhost\",\"port\":5000}"));
    assert_eq!(all.len(), 21);
    assert_eq!((all[0].host.as_str(), all[0].port), ("localhost", 5000));
    let all = endpoint_candidates(Some("{\"host\":\"example.org\",\"port\":5000}"));
    assert_eq!(all.len(), 20);
    assert!(all.iter().all(|endpoint| endpoint.host == "127.0.0.1"));
}

#[test]
fn the_first_healthy_endpoint_is_taken() {
    assert_eq!(discover_printflow_endpoint(2, &[]), Discovery::Ask(0));
    assert_eq!(discover_printflow_endpoint(2, &[None]), Discovery::Ask(1));
    assert_eq!(discover_printflow_endpoint(2, &[None, Some(200)]), Discovery::Found(1));
    assert_eq!(discover_printflow_endpoint(2, &[Some(404), None]), Discovery::Missing);
    assert!(PrintFlowError::NoService.message().contains("未找到 PrintFlow"));
}

#[test]
fn requests_are_framed() {
    assert_eq!(
        request_head("GET", "/api/health", "127.0.0.1", 47821, None),
        "GET /api/health HTTP/1.1\r\nHost: 127.0.0.1:47821\r\nConnection: close\r\nContent-Length: 0\r\n\r\n"
    );
    assert_eq!(
        request_head("POST", "/api/import-svg", "localhost", 80, Some(12)),
        "POST /api/import-svg HTTP/1.1\r\nHost: localhost:80\r\nConnection: close\r\nContent-Type: application/json\r\nContent-Length: 12\r\n\r\n"
    );
}

#[test]
fn responses_are_read() {
    let response =
        parse_http_response("HTTP/1.1 201 Created\r\nA: b\r\n\r\nbody\r\n\r\nmore").unwrap();
    assert_eq!(response.status, 201);
    assert_eq!(response.body, "body\r\n\r\nmore");
    let response = parse_http_response("HTTP/1.1 200").unwrap();
    assert_eq!(response.status, 200);
    assert_eq!(response.body, "");
    for invalid in ["", "HTTP/1.1", "HTTP/1.1 abc\r\n\r\n", "HTTP/1.1 70000"] {
        let error = parse_http_response(invalid).unwrap_err();
        assert_eq!(error.message(), "PrintFlow 返回了无效 HTTP 响应");
    }
}

#[test]
fn uploads_are_checked() {
    assert!(check_upload("C:\\a.SVG", true, true, Some("SVG")).is_ok());
    let error = check_upload("a.svg", false, true, Some("svg")).unwrap_err();
    assert_eq!(error.message(), "SVG 文件不存在：a.svg");
    let error = check_upload("C:\\a.svg", true, false, Some("svg")).unwrap_err();
    assert_eq!(error.message(), "SVG 文件不存在：C:\\a.svg");
    let error = check_upload("C:\\a.png", true, true, Some("png")).unwrap_err();
    assert_eq!(error.message(), "PrintFlow 只接受 .svg 文件");
    assert!(check_upload("C:\\a", true, true, None).is_err());
    let response = HttpResponse { status: 204, body: String::new() };
    assert_eq!(
        upload_to_printflow("C:\\a.svg", response).unwrap(),
        "已提交 PrintFlow：C:\\a.svg"
    );
    let response = HttpResponse { status: 500, body: "no".to_owned() };
    let error = upload_to_printflow("C:\\a.svg", response).unwrap_err();
    assert_eq!(error.message(), "PrintFlow 上传失败（HTTP 500）：no");
}

fn bundle(missing: &[&str]) -> BundleStatus {
    BundleStatus { missing_files: missing.iter().map(|name| name.to_string()).collect() }
}

#[test]
fn a_job_is_followed() {
    let mut job = Job::new();
    let ready = bundle(&[]);
    assert_eq!(job.stage, "等待处理");
    assert!(job.can_start(&ready));
    assert!(job.can_install(false, &ready));
    assert!(!job.can_install(true, &ready));
    job.start(false, false);
    assert_eq!(job.stage, "开始处理");
    assert!(job.is_running() && job.awaited);
    assert!(!job.can_start(&ready) && !job.can_install(false, &ready) && !job.can_remove(false));
    job.receive(
        WorkerMessage::Progress { value: 2.5f32.to_bits(), stage: "halfway".to_owned() },
        || false,
    );
    assert_eq!(f32::from_bits(job.progress), 1.0);
    assert_eq!(job.stage, "halfway");
    assert!(job.awaited);
    let no_focus = || -> bool { panic!("no window is asked for") };
    job.receive(WorkerMessage::Success("done".to_owned()), no_focus);
    assert!(matches!(&job.state, RunState::Success(summary) if summary == "done"));
    assert!(!job.awaited && job.can_remove(false));
    job.start(true, true);
    assert_eq!(job.stage, "导出 SVG，随后上传 PrintFlow");
    job.receive(WorkerMessage::PrintFlowUploadSuccess("sent".to_owned()), || true);
    assert!(
        matches!(&job.state, RunState::Success(summary) if summary == "sent\nPrintFlow 窗口已置前。")
    );
    job.start(true, false);
    assert_eq!(job.stage, "正在导出 SVG");
    job.receive(WorkerMessage::Error("broken".to_owned()), no_focus);
    assert!(matches!(&job.state, RunState::Error(error) if error == "broken"));
    assert!(!job.is_running());
}

#[test]
fn progress_is_clamped_like_a_number() {
    for value in [0.0f32, -0.0, 0.5, 1.0, 1.5, -3.0, f32::INFINITY, f32::NEG_INFINITY, f32::NAN] {
        let clamped = value.clamp(0.0, 1.0);
        let result = f32::from_bits(clamp_progress(value.to_bits()));
        assert!(result == clamped || (result.is_nan() && clamped.is_nan()));
    }
}

#[test]
fn an_export_tells_its_outcome() {
    let message = export_message(Err("no".to_owned()), None);
    assert!(matches!(message, WorkerMessage::Error(error) if error == "no"));
    let message = export_message(Ok("file".to_owned()), None);
    assert!(matches!(message, WorkerMessage::Success(summary) if summary == "file"));
    let message = export_message(Ok("file".to_owned()), Some(Err("refused".to_owned())));
    assert!(matches!(message, WorkerMessage::Error(error) if error == "refused"));
    let message = export_message(Ok("file".to_owned()), Some(Ok("sent".to_owned())));
    assert!(
        matches!(message, WorkerMessage::PrintFlowUploadSuccess(text) if text == "file\nsent")
    );
    assert_eq!(missing_path_message(), "导出成功但未找到输出 SVG 路径");
}

#[test]
fn a_bundle_is_described() {
    let empty = inspect_bundle(&Vec::new());
    assert!(!empty.processing_ready());
    assert_eq!(bundle_text(&empty), "运行包不完整，处理功能暂不可用：");
    let plugin = bundle(&["CdrOutline.CorelExtension"]);
    assert_eq!(bundle_text(&plugin), "图像处理依赖已就绪；插件包状态如下：");
    assert!(Job::new().can_start(&plugin));
    assert!(!Job::new().can_install(false, &plugin));
    assert_eq!(
        bundle_text(&bundle(&[])),
        "运行包完整：处理器、OpenCV、VC 运行库和插件包均已就绪。"
    );
    assert_eq!(missing_text(&bundle(&["a", "b", "c"])), "a、b、c");
    assert_eq!(missing_text(&bundle(&[])), "");
    assert_eq!(installation_text(true), "此目录已存在插件；更新会先备份旧版本。");
    assert_eq!(installation_text(false), "此目录尚未安装本插件。");
    assert_eq!(deployment_start(true), "正在安装插件；不会关闭 CorelDRAW。");
    assert_eq!(deployment_start(false), "正在移出插件并保留可恢复备份。");
    assert_eq!(deployment_end(Err("x".to_owned())), "操作失败：x");
    assert_eq!(deployment_end(Ok("y".to_owned())), "y");
}

#[test]
fn an_update_is_followed() {
    let mut updating = Updating::new();
    assert_eq!(updating.status, "当前版本 v0.1.26，正在检查更新…");
    assert!(!updating.started);
    updating.start_check();
    assert!(updating.started && updating.is_awaiting());
    assert_eq!(updating.awaited, Awaited::Check);
    let info = UpdateInfo {
        version: "0.2.0".to_owned(),
        zip_url: "u".to_owned(),
        checksum: "c".to_owned(),
    };
    assert!(!updating.receive(Ok(Some(info))));
    assert_eq!(updating.status, "发现新版本 v0.2.0");
    assert!(updating.offer.is_some() && !updating.is_awaiting());
    updating.start_install("0.2.0");
    assert_eq!(updating.status, "正在下载 v0.2.0…");
    assert!(updating.offer.is_none());
    assert_eq!(updating.awaited, Awaited::Installation);
    assert!(!updating.receive(Err("broken".to_owned())));
    assert_eq!(updating.status, "broken");
    updating.start_check();
    assert!(!updating.receive(Ok(None)));
    assert_eq!(updating.status, "当前版本 v0.1.26，已是最新版本。");
    assert!(updating.offer.is_none());
    assert!(!updating.receive(Ok(None)));
    updating.start_install("0.2.0");
    assert!(updating.receive(Ok(None)));
    assert_eq!(updating.status, "更新包已下载，程序将关闭并自动完成更新。");
}
