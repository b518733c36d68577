use memristor::content::{ContentArea, Message, RenderRequest};
use memristor::error::TypstError;
use memristor::typst::{
    compile_result, fresh_prefix, select_pages, sort_by_name, ProcessOutcome, RenderResult,
    ScratchEntry, TypstContext, RENDER_INTERVAL,
};

fn entry(name: &str, modified: Option<u64>) -> ScratchEntry {
    ScratchEntry {
        path: format!("/tmp/scratch/{}", name),
        name: name.to_string(),
        is_file: true,
        modified,
    }
}

fn ctx() -> TypstContext {
    TypstContext::new("/tmp/scratch", 0)
}

fn paths(names: &[&str]) -> Vec<String> {
    names.iter().map(|n| format!("/tmp/scratch/{}", n)).collect()
}

#[test]
fn pages_come_in_page_order() {
    let entries = vec![
        entry("preview10.svg", Some(7)),
        entry("preview01.svg", Some(7)),
        entry("preview02.svg", Some(7)),
    ];
    assert_eq!(
        ctx().get_preview_files(entries),
        Some(paths(&["preview01.svg", "preview02.svg", "preview10.svg"]))
    );
}

#[test]
fn stale_pages_are_dropped() {
    let entries = vec![
        entry("page3.svg", Some(5)),
        entry("page1.svg", Some(10)),
        entry("page2.svg", Some(10)),
    ];
    assert_eq!(ctx().get_preview_files(entries), Some(paths(&["page1.svg", "page2.svg"])));
}

#[test]
fn stale_page_named_after_the_fresh_ones_is_dropped() {
    let entries = vec![
        entry("page1.svg", Some(10)),
        entry("page2_old.svg", Some(5)),
        entry("page2.svg", Some(10)),
    ];
    assert_eq!(ctx().get_preview_files(entries), Some(paths(&["page1.svg", "page2.svg"])));
}

#[test]
fn empty_scratch_directory_gives_no_pages() {
    assert_eq!(ctx().get_preview_files(vec![]), Some(vec![]));
}

#[test]
fn only_svg_files_are_pages() {
    let mut sub = entry("dir.svg", Some(3));
    sub.is_file = false;
    let entries = vec![
        entry("a.txt", Some(3)),
        sub,
        entry(".svg", Some(3)),
        entry("b.svg", Some(3)),
        entry("c.SVG", Some(3)),
        entry("d.svgz", Some(3)),
    ];
    assert_eq!(ctx().get_preview_files(entries), Some(paths(&["b.svg"])));
    assert_eq!(select_pages(vec![entry("x.png", None)]).len(), 0);
}

#[test]
fn unknown_times_stop_the_pages() {
    let first_unknown = vec![entry("p1.svg", None), entry("p2.svg", Some(1))];
    assert_eq!(ctx().get_preview_files(first_unknown), None);
    let later_unknown = vec![entry("p1.svg", Some(1)), entry("p2.svg", None), entry("p3.svg", Some(1))];
    assert_eq!(ctx().get_preview_files(later_unknown), Some(paths(&["p1.svg"])));
}

#[test]
fn sort_orders_by_bytes() {
    let sorted = sort_by_name(vec![entry("b", None), entry("ab", None), entry("a", None), entry("B", None)]);
    let names: Vec<String> = sorted.into_iter().map(|e| e.name).collect();
    assert_eq!(names, vec!["B", "a", "ab", "b"]);
    let kept = fresh_prefix(&vec![entry("a", Some(4)), entry("b", Some(9)), entry("c", Some(3))]);
    assert_eq!(kept, Some(paths(&["a", "b"])));
}

#[test]
fn context_paths_and_debounce() {
    let mut t = TypstContext::new("/tmp/x", 100);
    assert_eq!(t.preview_path, "/tmp/x/preview{0p}.svg");
    assert!(!t.start_render(99));
    assert_eq!(t.next_render, 100);
    assert!(t.start_render(100));
    assert_eq!(t.next_render, 100 + RENDER_INTERVAL);
    assert!(!t.start_render(100 + RENDER_INTERVAL - 1));
    assert!(t.start_render(100 + RENDER_INTERVAL));
}

#[test]
fn finish_render_reports_errors_and_pages() {
    let t = ctx();
    match t.finish_render(Err(TypstError::TypstNotInstalled), Ok(vec![entry("a.svg", Some(1))])) {
        RenderResult::Error(e) => assert_eq!(e, TypstError::TypstNotInstalled),
        _ => panic!("expected an error"),
    }
    match t.finish_render(Ok(()), Err(TypstError::FilesystemError("NotFound".to_string()))) {
        RenderResult::Error(e) => assert_eq!(e, TypstError::FilesystemError("NotFound".to_string())),
        _ => panic!("expected an error"),
    }
    match t.finish_render(Ok(()), Ok(vec![entry("b.svg", Some(1)), entry("a.svg", Some(1))])) {
        RenderResult::Success(files) => assert_eq!(files, paths(&["a.svg", "b.svg"])),
        _ => panic!("expected pages"),
    }
}

#[test]
fn no_file_never_renders() {
    let mut area = ContentArea::new(0);
    for now in [0u64, 1, 5000, 100_000, 100_000] {
        assert_eq!(area.request_render(now), RenderRequest::NoOp);
        assert_eq!(area.next_render, 0);
    }
    assert_eq!(area.update(Message::Edit, &ctx(), 7), RenderRequest::NoOp);
    assert_eq!(area.update(Message::OpenPreview, &ctx(), 7), RenderRequest::NoOp);
    assert!(area.preview_open);
}

#[test]
fn debounced_requests_do_not_push_the_deadline() {
    let mut area = ContentArea::new(0);
    assert_eq!(area.update(Message::OpenFile("/p/typst/main.typ".to_string()), &ctx(), 0), RenderRequest::Start);
    assert!(area.editor_open);
    assert_eq!(area.next_render, RENDER_INTERVAL);
    let mut started = 1;
    let mut now = 0;
    while now < 12_000 {
        now += 1000;
        if area.update(Message::Edit, &ctx(), now) == RenderRequest::Start {
            started += 1;
        }
    }
    // Requests at 0, 1000, ..., 12000: cycles start at 0, 5000 and 10000.
    assert_eq!(started, 3);
    assert!(started <= (12_000 - 0 + RENDER_INTERVAL - 1) / RENDER_INTERVAL + 1);
    assert_eq!(area.next_render, 15_000);
    assert_eq!(area.request_render(14_999), RenderRequest::Debounced);
    assert_eq!(area.next_render, 15_000);
}

#[test]
fn finished_cycle_replaces_the_preview_and_failures_keep_it() {
    let mut area = ContentArea::new(0);
    let done = Message::RenderDone(Ok(vec![entry("p2.svg", Some(3)), entry("p1.svg", Some(3))]));
    assert_eq!(area.update(done, &ctx(), 1), RenderRequest::NoOp);
    assert_eq!(area.preview_files, paths(&["p1.svg", "p2.svg"]));
    let failed = Message::RenderDone(Err(TypstError::CompilationError { message: "bad".to_string() }));
    assert_eq!(area.update(failed, &ctx(), 2), RenderRequest::NoOp);
    assert_eq!(area.preview_files, paths(&["p1.svg", "p2.svg"]));
    let fresh = Message::RenderDone(Ok(vec![entry("p1.svg", Some(9)), entry("p2.svg", Some(3))]));
    area.update(fresh, &ctx(), 3);
    assert_eq!(area.preview_files, paths(&["p1.svg"]));
}

#[test]
fn unknown_first_page_time_keeps_the_preview() {
    let mut area = ContentArea::new(0);
    let done = Message::RenderDone(Ok(vec![entry("p1.svg", Some(3))]));
    area.update(done, &ctx(), 1);
    assert_eq!(area.preview_files, paths(&["p1.svg"]));
    let racing = Message::RenderDone(Ok(vec![entry("p2.svg", Some(4)), entry("p1.svg", None)]));
    assert_eq!(area.update(racing, &ctx(), 2), RenderRequest::NoOp);
    assert_eq!(area.preview_files, paths(&["p1.svg"]));
    match ctx().finish_render(Ok(()), Ok(vec![entry("p1.svg", None)])) {
        RenderResult::Error(TypstError::FilesystemError(m)) => {
            assert_eq!(m, "modification time of the first page is unknown")
        }
        _ => panic!("expected an error"),
    }
}

#[test]
fn compile_outcomes_are_classified() {
    assert_eq!(
        compile_result(ProcessOutcome::SpawnFailed { not_found: true, kind: "NotFound".to_string() }),
        Err(TypstError::TypstNotInstalled)
    );
    assert_eq!(
        compile_result(ProcessOutcome::SpawnFailed {
            not_found: false,
            kind: "PermissionDenied".to_string()
        }),
        Err(TypstError::FilesystemError("PermissionDenied".to_string()))
    );
    assert_eq!(
        compile_result(ProcessOutcome::IoFailed { kind: "BrokenPipe".to_string() }),
        Err(TypstError::FilesystemError("BrokenPipe".to_string()))
    );
    assert_eq!(
        compile_result(ProcessOutcome::Exited { success: true, stderr: String::new() }),
        Ok(())
    );
    assert_eq!(
        compile_result(ProcessOutcome::Exited { success: false, stderr: "error: x".to_string() }),
        Err(TypstError::CompilationError { message: "error: x".to_string() })
    );
}

#[test]
fn runs_of_requests_are_rate_limited() {
    let times: Vec<u64> = (0..=12).map(|k| k * 1000).collect();
    let mut area = ContentArea::new(0);
    assert_eq!(area.request_renders(&times), 0);
    assert_eq!(area.next_render, 0);
    area.open_file = Some("/p/typst/main.typ".to_string());
    assert_eq!(area.request_renders(&times), 3);
    assert_eq!(area.next_render, 15_000);
    let mut t = TypstContext::new("/tmp/x", 0);
    assert_eq!(t.start_renders(&times), 3);
    assert_eq!(t.start_renders(&vec![14_999, 15_000, 15_000, 19_999, 20_000]), 2);
}
