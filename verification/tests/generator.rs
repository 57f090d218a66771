use fauxgen_core::generator::{
    combine_factory_codes, factory_module_source, file_actions, init_file, module_entry_action,
    prepare_dirs,
    walk_entry_action, write_factory_codes, EntryAction, RenderOutcome, RenderedFile, WriteAction,
    IMPORT_HEADER,
};
use fauxgen_core::parse::{parse_package_file, ParsedSource};
use fauxgen_core::path::{Component, PyPath};

fn path(s: &str) -> PyPath {
    let mut comps = Vec::new();
    if s.starts_with('/') {
        comps.push(Component::RootDir);
    }
    for part in s.split('/') {
        if !part.is_empty() {
            comps.push(Component::Normal(part.to_string()));
        }
    }
    PyPath::new(comps)
}

fn show(p: &PyPath) -> String {
    let mut out = String::new();
    for (i, c) in p.components().iter().enumerate() {
        match c {
            Component::RootDir => out.push('/'),
            Component::CurDir => out.push('.'),
            Component::ParentDir => out.push_str(".."),
            Component::Normal(n) => out.push_str(n),
        }
        if i + 1 < p.len() && !matches!(c, Component::RootDir) {
            out.push('/');
        }
    }
    out
}

fn describe(actions: &[WriteAction]) -> Vec<String> {
    actions
        .iter()
        .map(|a| match a {
            WriteAction::ReportFailure(p) => format!("report {}", show(p)),
            WriteAction::PrepareDir(p, all) => format!("prepare {} {}", show(p), all),
            WriteAction::WriteFile(p, c) => format!("write {} {:?}", show(p), c),
            WriteAction::Abort(p) => format!("abort {}", show(p)),
        })
        .collect()
}

#[test]
fn combined_code_joins_present_codes() {
    assert_eq!(
        combine_factory_codes(&vec![Some("a".to_string()), None, Some("b".to_string())]).unwrap(),
        "a\n\nb"
    );
    assert!(combine_factory_codes(&vec![]).is_none());
    assert!(combine_factory_codes(&vec![None, None]).is_none());
    assert!(combine_factory_codes(&vec![Some(String::new())]).is_none());
    assert_eq!(combine_factory_codes(&vec![Some(String::new()), Some(String::new())]).unwrap(), "\n\n");
}

#[test]
fn module_source_starts_with_imports() {
    let src = factory_module_source(Some("def f(): pass\n".to_string())).unwrap();
    assert_eq!(
        src,
        "import datetime\nfrom typing import Any, TypedDict\n\nimport fauxgen as f\n\n\ndef f(): pass\n"
    );
    assert!(src.starts_with(IMPORT_HEADER));
    assert!(factory_module_source(None).is_none());
}

#[test]
fn entry_actions() {
    assert_eq!(walk_entry_action(&path("/a/sub"), true, "py"), EntryAction::Descend);
    assert_eq!(walk_entry_action(&path("/a/x.py"), false, "py"), EntryAction::Take);
    assert_eq!(walk_entry_action(&path("/a/x.txt"), false, "py"), EntryAction::Skip);
    assert_eq!(module_entry_action(&path("/a/__init__.py"), true, false), EntryAction::Skip);
    assert_eq!(module_entry_action(&path("/a/x.py"), true, false), EntryAction::Take);
    assert_eq!(module_entry_action(&path("/a/x.py"), false, true), EntryAction::Descend);
    assert_eq!(module_entry_action(&path("/a/sub"), false, true), EntryAction::Descend);
    assert_eq!(module_entry_action(&path("/a/notes.md"), true, false), EntryAction::Skip);
    assert_eq!(show(&init_file(&path("/a/sub"))), "/a/sub/__init__.py");
}

#[test]
fn prepare_dirs_down_from_output_root() {
    assert_eq!(
        describe(&prepare_dirs(&path("/out"), &path("/out/a/b"))),
        vec!["prepare /out true", "prepare /out/a false", "prepare /out/a/b false"]
    );
    assert_eq!(describe(&prepare_dirs(&path("/out"), &path("/out"))), vec!["prepare /out true"]);
    assert_eq!(
        describe(&prepare_dirs(&path("/out"), &path("/x"))),
        vec!["prepare / false", "prepare /x false"]
    );
}

#[test]
fn write_plan_mirrors_package_layout() {
    let files = vec![
        RenderedFile { path: path("/m/pkg/a.py"), outcome: RenderOutcome::Code("A".to_string()) },
        RenderedFile { path: path("/m/pkg/b.py"), outcome: RenderOutcome::NoCode },
        RenderedFile { path: path("/m/pkg/c.py"), outcome: RenderOutcome::Failed },
        RenderedFile { path: path("/m/pkg/sub/d.py"), outcome: RenderOutcome::Code("D".to_string()) },
    ];
    let plan = write_factory_codes(&path("/m/pkg"), &path("/out"), &files);
    assert_eq!(
        describe(&plan),
        vec![
            "prepare /out true",
            "write /out/a.py \"A\"",
            "report /m/pkg/c.py",
            "prepare /out true",
            "prepare /out/sub false",
            "write /out/sub/d.py \"D\"",
        ]
    );
}

#[test]
fn write_plan_stops_at_file_outside_package() {
    let files = vec![
        RenderedFile { path: path("/elsewhere/x.py"), outcome: RenderOutcome::Code("X".to_string()) },
        RenderedFile { path: path("/m/pkg/a.py"), outcome: RenderOutcome::Code("A".to_string()) },
    ];
    let plan = write_factory_codes(&path("/m/pkg"), &path("/out"), &files);
    assert_eq!(describe(&plan), vec!["abort /elsewhere/x.py"]);
    let plan = write_factory_codes(&path("/m/pkg"), &path("/out"), &vec![]);
    assert!(plan.is_empty());
}

#[test]
fn parsing_package_files() {
    match parse_package_file("import pandera as pa\nclass A(pa.DataFrameModel):\n    x: int\n", "a.py", false) {
        ParsedSource::Statements(stmts) => assert_eq!(stmts.len(), 2),
        other => panic!("unexpected {:?}", other),
    }
    assert!(matches!(parse_package_file("class (:\n", "bad.py", false), ParsedSource::Skip(_)));
    assert!(matches!(parse_package_file("class (:\n", "__init__.py", true), ParsedSource::Fail(_)));
    assert!(matches!(parse_package_file("", "empty.py", true), ParsedSource::Statements(_)));
}

#[test]
fn file_actions_for_each_outcome() {
    let module_dir = path("/m/pkg");
    let out = path("/out");
    let code = RenderedFile { path: path("/m/pkg/sub/d.py"), outcome: RenderOutcome::Code("D".to_string()) };
    assert_eq!(
        describe(&file_actions(&module_dir, &out, &code)),
        vec!["prepare /out true", "prepare /out/sub false", "write /out/sub/d.py \"D\""]
    );
    let failed = RenderedFile { path: path("/m/pkg/c.py"), outcome: RenderOutcome::Failed };
    assert_eq!(describe(&file_actions(&module_dir, &out, &failed)), vec!["report /m/pkg/c.py"]);
    let none = RenderedFile { path: path("/m/pkg/b.py"), outcome: RenderOutcome::NoCode };
    assert!(file_actions(&module_dir, &out, &none).is_empty());
    let outside = RenderedFile { path: path("/x/e.py"), outcome: RenderOutcome::Code("E".to_string()) };
    assert_eq!(describe(&file_actions(&module_dir, &out, &outside)), vec!["abort /x/e.py"]);
}
