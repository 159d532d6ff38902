use iso_maker::state::{
    chosen_file, default_output, keeps_walk_entry, walked_file, AppState, FileEntry, PathProbe, ProgressEvent,
    WalkedFile,
};
use iso_maker::templates::{remove_templates_named, templates_path, upsert_template, Template};

fn entry(name: &str) -> FileEntry {
    FileEntry { name: name.to_string(), path: format!("/p/{}", name), iso_path: format!("/{}", name), size: 3 }
}

fn names(v: &[FileEntry]) -> Vec<String> {
    v.iter().map(|e| e.name.clone()).collect()
}

#[test]
fn chosen_file_is_kept_at_the_top_under_its_uppercased_name() {
    let e = chosen_file(&"/home/u/notes.txt".to_string(), &Some("notes.txt".to_string()), Some(12));
    assert_eq!(e.name, "notes.txt");
    assert_eq!(e.path, "/home/u/notes.txt");
    assert_eq!(e.iso_path, "/NOTES.TXT");
    assert_eq!(e.size, 12);
}

#[test]
fn chosen_file_without_readable_name_or_size() {
    let e = chosen_file(&"/x".to_string(), &None, None);
    assert_eq!(e.name, "unknown");
    assert_eq!(e.iso_path, "/UNKNOWN");
    assert_eq!(e.size, 0);
}

#[test]
fn walked_file_keeps_its_relative_path_with_forward_slashes() {
    let w = WalkedFile {
        name: "c.txt".to_string(),
        full_path: "C:\\data\\sub\\c.txt".to_string(),
        relative_path: "sub\\c.txt".to_string(),
        size: Some(9),
    };
    let e = walked_file(&w);
    assert_eq!(e.name, "c.txt");
    assert_eq!(e.path, "C:\\data\\sub\\c.txt");
    assert_eq!(e.iso_path, "/sub/c.txt");
    assert_eq!(e.size, 9);
}

#[test]
fn hidden_names_are_skipped_by_the_walk() {
    assert!(!keeps_walk_entry(Some(".git")));
    assert!(keeps_walk_entry(Some("git")));
    assert!(keeps_walk_entry(Some("")));
    assert!(keeps_walk_entry(None));
}

#[test]
fn default_output_falls_back_to_dot() {
    assert_eq!(default_output(Some("/work".to_string())), "/work");
    assert_eq!(default_output(None), ".");
}

#[test]
fn add_files_records_files_and_directories() {
    let mut state = AppState::default();
    assert!(state.files.is_empty());
    let probes = vec![
        PathProbe::Missing,
        PathProbe::File { raw: "/a/one.bin".to_string(), name: Some("one.bin".to_string()), size: Some(1) },
        PathProbe::Unsupported,
        PathProbe::Directory {
            files: vec![
                WalkedFile { name: "x".to_string(), full_path: "/d/x".to_string(), relative_path: "x".to_string(), size: Some(2) },
                WalkedFile { name: "y".to_string(), full_path: "/d/s/y".to_string(), relative_path: "s/y".to_string(), size: None },
            ],
        },
    ];
    let added = state.add_files(probes);
    assert_eq!(names(&added), vec!["one.bin", "x", "y"]);
    assert_eq!(added[0].iso_path, "/ONE.BIN");
    assert_eq!(added[2].iso_path, "/s/y");
    assert_eq!(added[2].size, 0);
    assert_eq!(names(&state.get_files()), vec!["one.bin", "x", "y"]);
    let more = state.add_files(vec![PathProbe::File { raw: "/b".to_string(), name: Some("b".to_string()), size: None }]);
    assert_eq!(names(&more), vec!["b"]);
    assert_eq!(names(&state.get_files()), vec!["one.bin", "x", "y", "b"]);
}

#[test]
fn remove_file_removes_one_entry_or_reports_bad_index() {
    let mut state = AppState { files: vec![entry("a"), entry("b"), entry("c")] };
    assert_eq!(state.remove_file(1), Ok(()));
    assert_eq!(names(&state.files), vec!["a", "c"]);
    assert_eq!(state.remove_file(2), Err("索引越界".to_string()));
    assert_eq!(names(&state.files), vec!["a", "c"]);
}

#[test]
fn clear_files_empties_the_list() {
    let mut state = AppState { files: vec![entry("a"), entry("b")] };
    state.clear_files();
    assert!(state.get_files().is_empty());
}

#[test]
fn progress_events() {
    let p = ProgressEvent::preparing(4);
    assert_eq!((p.status.as_str(), p.current, p.total, p.message.as_str()), ("working", 0, 4, "正在准备构建..."));
    assert!(p.output_path.is_none() && p.size.is_none() && p.filename.is_empty());
    let a = ProgressEvent::adding(2, 4, "x.txt");
    assert_eq!(a.message, "正在添加 x.txt (2/4)");
    assert_eq!(a.filename, "x.txt");
    let d = ProgressEvent::after_build(4, "/out/x.iso".to_string(), Ok(4096));
    assert_eq!(d.status, "done");
    assert_eq!(d.current, 4);
    assert_eq!(d.message, "ISO 创建完成: /out/x.iso");
    assert_eq!(d.output_path.as_deref(), Some("/out/x.iso"));
    assert_eq!(d.size, Some(4096));
    let e = ProgressEvent::after_build(4, "/out/x.iso".to_string(), Err("boom".to_string()));
    assert_eq!((e.status.as_str(), e.current, e.message.as_str()), ("error", 0, "boom"));
    assert!(e.output_path.is_none() && e.size.is_none());
}

fn template(name: &str, label: &str) -> Template {
    Template { name: name.to_string(), volume_label: label.to_string(), output_path: "/o".to_string(), files: vec![entry("f")] }
}

fn template_names(v: &[Template]) -> Vec<(String, String)> {
    v.iter().map(|t| (t.name.clone(), t.volume_label.clone())).collect()
}

#[test]
fn saving_appends_a_new_name_and_replaces_an_existing_one() {
    let mut ts = vec![template("a", "1"), template("b", "2")];
    upsert_template(&mut ts, &template("c", "3"));
    assert_eq!(template_names(&ts), vec![("a".into(), "1".into()), ("b".into(), "2".into()), ("c".into(), "3".into())]);
    upsert_template(&mut ts, &template("b", "9"));
    assert_eq!(template_names(&ts), vec![("a".into(), "1".into()), ("b".into(), "9".into()), ("c".into(), "3".into())]);
    assert_eq!(ts[1].files.len(), 1);
}

#[test]
fn saving_twice_is_saving_once() {
    let mut once = vec![template("a", "1")];
    upsert_template(&mut once, &template("b", "2"));
    let mut twice = vec![template("a", "1")];
    upsert_template(&mut twice, &template("b", "2"));
    upsert_template(&mut twice, &template("b", "2"));
    assert_eq!(template_names(&once), template_names(&twice));
}

#[test]
fn deleting_removes_every_template_of_the_name() {
    let mut ts = vec![template("a", "1"), template("b", "2"), template("a", "3")];
    assert!(remove_templates_named(&mut ts, "a"));
    assert_eq!(template_names(&ts), vec![("b".into(), "2".into())]);
    assert!(!remove_templates_named(&mut ts, "a"));
    assert_eq!(template_names(&ts), vec![("b".into(), "2".into())]);
}

#[test]
fn deleting_a_newly_saved_template_restores_the_list() {
    let mut ts = vec![template("a", "1"), template("b", "2")];
    let before = template_names(&ts);
    upsert_template(&mut ts, &template("new", "x"));
    assert!(remove_templates_named(&mut ts, "new"));
    assert_eq!(template_names(&ts), before);
}

#[test]
fn templates_path_ends_with_the_store_name() {
    let p = templates_path(Some("/home/u".to_string()));
    assert!(p.ends_with(".iso_maker_templates.json"));
    assert_eq!(std::path::Path::new(&p), std::path::Path::new("/home/u").join(".iso_maker_templates.json"));
    let q = templates_path(None);
    assert_eq!(std::path::Path::new(&q), std::path::Path::new(".").join(".iso_maker_templates.json"));
}

#[test]
fn templates_path_puts_a_separator_after_the_home_directory() {
    assert_eq!(templates_path(Some("/home/u".to_string())), "/home/u/.iso_maker_templates.json");
    assert_eq!(templates_path(Some("/home/u/".to_string())), "/home/u/.iso_maker_templates.json");
    assert_eq!(templates_path(Some(String::new())), ".iso_maker_templates.json");
    assert_eq!(templates_path(None), "./.iso_maker_templates.json");
}

#[test]
fn saving_keeps_names_unique() {
    let mut ts = vec![template("a", "1"), template("b", "2")];
    upsert_template(&mut ts, &template("a", "5"));
    upsert_template(&mut ts, &template("c", "6"));
    upsert_template(&mut ts, &template("b", "7"));
    let mut names: Vec<String> = ts.iter().map(|t| t.name.clone()).collect();
    names.sort();
    names.dedup();
    assert_eq!(names.len(), ts.len());
    assert_eq!(ts.len(), 3);
}

#[test]
fn saved_template_is_found_under_its_name() {
    let mut ts = vec![template("a", "1"), template("a", "2")];
    upsert_template(&mut ts, &template("a", "3"));
    let found = ts.iter().find(|t| t.name == "a").unwrap();
    assert_eq!(found.volume_label, "3");
    assert_eq!(template_names(&ts), vec![("a".into(), "3".into()), ("a".into(), "2".into())]);
}
