use bigfile_gui::path::PathParts;
use bigfile_gui::state::{Action, App, Modal, PreviewSource};
use bigfile_gui::text::{decimal, extracted_message, load_prompt, status_line};
use bigfile_gui::tree::File;

fn p(parts: &[&str]) -> PathParts {
    PathParts::from_parts(parts.iter().map(|s| s.to_string()).collect())
}

fn file(path: &[&str], id: u64) -> File {
    File::new(path.last().unwrap().to_string(), id, p(path))
}

fn loaded_app() -> App {
    let mut app = App::new();
    app.finish_load(&vec![p(&["a", "b", "c.png"]), p(&["a", "b", "d.png"]), p(&["a", "e.png"])]);
    app
}

#[test]
fn new_app_has_nothing() {
    let app = App::new();
    assert!(!app.loaded);
    assert!(app.selected.is_empty());
    assert!(app.tree.files.is_empty() && app.tree.dirs.is_empty());
    assert!(app.bigfile_modal.is_none() && app.error_modal.is_none() && app.extract_modal.is_none());
    assert!(app.preview.is_none());
}

#[test]
fn finish_load_replaces_the_tree_and_keeps_the_selection() {
    let mut app = loaded_app();
    assert!(app.loaded);
    assert_eq!(app.tree.dirs[0].name, "a");
    app.click(&file(&["a", "e.png"], 2), false);
    app.finish_load(&vec![p(&["z"])]);
    assert_eq!(app.tree.files.len(), 1);
    assert!(app.tree.dirs.is_empty());
    assert_eq!(app.selected.len(), 1);
}

#[test]
fn unload_clears_tree_selection_and_preview() {
    let mut app = loaded_app();
    app.click(&file(&["a", "e.png"], 2), false);
    app.hold_preview();
    app.error("boom".to_string());
    app.unload_bigfile();
    assert!(!app.loaded);
    assert!(app.tree.files.is_empty() && app.tree.dirs.is_empty());
    assert!(app.selected.is_empty());
    assert!(app.preview.is_none());
    assert_eq!(app.error_modal.as_deref(), Some("boom"));
}

#[test]
fn after_unload_only_open_is_enabled() {
    let mut app = loaded_app();
    app.click(&file(&["a", "e.png"], 2), false);
    assert!(app.enabled(Action::Close));
    assert!(app.enabled(Action::ExtractAll));
    assert!(app.enabled(Action::ExtractSelected));
    app.unload_bigfile();
    assert!(app.enabled(Action::Open));
    assert!(!app.enabled(Action::Close));
    assert!(!app.enabled(Action::ExtractAll));
    assert!(!app.enabled(Action::ExtractSelected));
}

#[test]
fn enabled_follows_loaded_and_selection() {
    let mut app = App::new();
    assert!(app.enabled(Action::Open));
    assert!(!app.enabled(Action::Close));
    assert!(!app.enabled(Action::ExtractSelected));
    app.click(&file(&["x"], 0), false);
    assert!(app.enabled(Action::ExtractSelected));
    assert!(!app.enabled(Action::ExtractAll));
}

#[test]
fn error_sets_the_error_dialog() {
    let mut app = App::new();
    app.error("bad".to_string());
    assert_eq!(app.error_modal.as_deref(), Some("bad"));
    app.error("worse".to_string());
    assert_eq!(app.error_modal.as_deref(), Some("worse"));
}

#[test]
fn click_replaces_or_extends_the_selection() {
    let mut app = App::new();
    let f = file(&["a", "x"], 0);
    let g = file(&["a", "y"], 1);
    let h = file(&["z"], 2);
    app.click(&f, false);
    app.click(&g, true);
    let ids: Vec<u64> = app.selected.iter().map(|s| s.id).collect();
    assert_eq!(ids, vec![0, 1]);
    app.click(&g, true);
    assert_eq!(app.selected.len(), 3);
    app.click(&h, false);
    let ids: Vec<u64> = app.selected.iter().map(|s| s.id).collect();
    assert_eq!(ids, vec![2]);
}

#[test]
fn is_selected_goes_by_number() {
    let mut app = App::new();
    app.click(&file(&["a", "x"], 5), false);
    assert!(app.is_selected(&file(&["other"], 5)));
    assert!(!app.is_selected(&file(&["a", "x"], 6)));
}

#[test]
fn common_prefix_of_selection() {
    let mut app = App::new();
    app.click(&file(&["a", "b", "c.png"], 0), false);
    assert_eq!(app.common_prefix().parts, vec!["a", "b"]);
    app.click(&file(&["a", "b", "d", "e.png"], 1), true);
    assert_eq!(app.common_prefix().parts, vec!["a", "b"]);
    app.click(&file(&["a", "f.png"], 2), true);
    assert_eq!(app.common_prefix().parts, vec!["a"]);
    app.click(&file(&["top.png"], 3), true);
    assert!(app.common_prefix().parts.is_empty());
}

#[test]
fn extract_plan_strips_the_common_directories() {
    let mut app = App::new();
    app.click(&file(&["a", "b", "c.png"], 0), false);
    app.click(&file(&["a", "b", "d", "e.png"], 1), true);
    let jobs = app.extract_plan();
    assert_eq!(jobs.len(), 2);
    assert_eq!(jobs[0].source.parts, vec!["a", "b", "c.png"]);
    assert_eq!(jobs[0].target.parts, vec!["c.png"]);
    assert_eq!(jobs[1].source.parts, vec!["a", "b", "d", "e.png"]);
    assert_eq!(jobs[1].target.parts, vec!["d", "e.png"]);
}

#[test]
fn extract_plan_of_one_file_is_its_name() {
    let mut app = App::new();
    app.click(&file(&["x", "y", "z.bin"], 0), false);
    let jobs = app.extract_plan();
    assert_eq!(jobs[0].target.parts, vec!["z.bin"]);
}

#[test]
fn extract_plan_targets_rejoin_to_sources() {
    let mut app = App::new();
    app.click(&file(&["a", "b", "c"], 0), false);
    app.click(&file(&["a", "x"], 1), true);
    app.click(&file(&["a", "b", "y", "z"], 2), true);
    let prefix = app.common_prefix();
    for job in app.extract_plan() {
        let mut back = prefix.parts.clone();
        back.extend(job.target.parts.clone());
        assert_eq!(back, job.source.parts);
    }
}

#[test]
fn preview_is_read_then_held() {
    let mut app = loaded_app();
    app.click(&file(&["a", "e.png"], 2), false);
    assert_eq!(app.preview_source(), PreviewSource::Read);
    assert!(app.hold_preview().is_none());
    assert_eq!(app.preview.as_ref().unwrap().parts, vec!["a", "e.png"]);
    assert_eq!(app.preview_source(), PreviewSource::Held);
    app.click(&file(&["a", "b", "c.png"], 0), false);
    assert_eq!(app.preview_source(), PreviewSource::Read);
    let old = app.hold_preview().unwrap();
    assert_eq!(old.parts, vec!["a", "e.png"]);
    assert_eq!(app.preview_source(), PreviewSource::Held);
}

#[test]
fn preview_unavailable_without_bigfile() {
    let mut app = App::new();
    app.click(&file(&["a"], 0), false);
    assert_eq!(app.preview_source(), PreviewSource::Unavailable);
}

#[test]
fn modals_are_listed_in_drawing_order_and_dismissed_one_by_one() {
    let mut app = App::new();
    assert!(app.open_modals().is_empty());
    app.finish_extract_all(3);
    app.ask_load(None);
    app.error("e".to_string());
    let kinds: Vec<Modal> = app.open_modals().iter().map(|m| m.0).collect();
    assert_eq!(kinds, vec![Modal::Error, Modal::Bigfile, Modal::Extract]);
    assert_eq!(app.open_modals()[0].1, "e");
    assert_eq!(app.open_modals()[2].1, "Finished extracting 3 files");
    app.dismiss(Modal::Bigfile);
    let kinds: Vec<Modal> = app.open_modals().iter().map(|m| m.0).collect();
    assert_eq!(kinds, vec![Modal::Error, Modal::Extract]);
    app.dismiss(Modal::Error);
    app.dismiss(Modal::Extract);
    assert!(app.open_modals().is_empty());
}

#[test]
fn load_prompt_with_size() {
    let t = load_prompt(Some(("bigfile.bfdata".to_string(), 5 * 1024 * 1024 + 12345)));
    assert_eq!(
        t,
        "bigfile.bfdata is 5 MB in size.\nDo you want to load the entire file into memory?\nPressing \"No\" will read data from disk as needed."
    );
    let t = load_prompt(Some(("x".to_string(), 1024 * 1024 - 1)));
    assert!(t.starts_with("x is 0 MB in size.\n"));
}

#[test]
fn load_prompt_without_size() {
    let t = load_prompt(None);
    assert_eq!(
        t,
        "Do you want to load the entire file into memory?\n                    Pressing \"No\" will read data from disk as needed."
    );
}

#[test]
fn ask_load_opens_the_question() {
    let mut app = App::new();
    app.ask_load(Some(("d".to_string(), 3 * 1048576)));
    assert!(app.bigfile_modal.as_deref().unwrap().starts_with("d is 3 MB"));
}

#[test]
fn extracted_message_counts_files() {
    assert_eq!(extracted_message(0), "Finished extracting 0 files");
    assert_eq!(extracted_message(1234), "Finished extracting 1234 files");
}

#[test]
fn decimal_matches_display() {
    for n in [0u64, 1, 9, 10, 11, 99, 100, 1024, 4294967296, u64::MAX] {
        assert_eq!(decimal(n), n.to_string());
    }
}

#[test]
fn status_line_joins_names_with_bullets() {
    let s = status_line(&"a.bfn".to_string(), &"a.bfdb".to_string(), &"a.bfdata".to_string());
    assert_eq!(s, "a.bfn \u{2022} a.bfdb \u{2022} a.bfdata");
}
