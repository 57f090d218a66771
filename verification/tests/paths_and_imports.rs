use fauxgen_core::imports::{FileImports, ImportAlias, ImportFromStmt, ImportStmt};
use fauxgen_core::path::{Component, PyPath};
use fauxgen_core::strings::{join_dotted, join_with_dots, trim_py_suffix, ClassIDExt};

fn path(s: &str) -> PyPath {
    let mut comps = Vec::new();
    if s.starts_with('/') {
        comps.push(Component::RootDir);
    }
    for (i, part) in s.split('/').enumerate() {
        if part == "." && i == 0 {
            comps.push(Component::CurDir);
        } else if part == ".." {
            comps.push(Component::ParentDir);
        } else if !part.is_empty() && part != "." {
            comps.push(Component::Normal(part.to_string()));
        }
    }
    PyPath::new(comps)
}

fn show(p: &PyPath) -> String {
    let mut out = String::new();
    for (i, c) in p.components().iter().enumerate() {
        match c {
            Component::RootDir => out.push('/'),
            Component::CurDir => out.push('.'),
            Component::ParentDir => out.push_str(".."),
            Component::Normal(n) => out.push_str(n),
        }
        if i + 1 < p.len() && !matches!(c, Component::RootDir) {
            out.push('/');
        }
    }
    out
}

#[test]
fn class_name_is_text_after_last_dot() {
    assert_eq!("pkg.mod.ClassName".to_string().class_name(), "ClassName");
    assert_eq!("ClassName".to_string().class_name(), "ClassName");
    assert_eq!("".to_string().class_name(), "");
    assert_eq!("pkg.".to_string().class_name(), "");
    assert_eq!("été.Café".to_string().class_name(), "Café");
}

#[test]
fn dotted_helpers() {
    assert_eq!(join_dotted("pandera", "DataFrameModel"), "pandera.DataFrameModel");
    assert_eq!(trim_py_suffix("module.py"), "module");
    assert_eq!(trim_py_suffix("module.py.py"), "module");
    assert_eq!(trim_py_suffix("module.pyc"), "module.pyc");
    assert_eq!(trim_py_suffix(".py"), "");
    assert_eq!(join_with_dots(&vec!["a".to_string(), "b".to_string(), "c".to_string()]), "a.b.c");
    assert_eq!(join_with_dots(&vec![]), "");
}

#[test]
fn path_parent_strip_join() {
    assert_eq!(show(&path("/a/b/c.py").parent().unwrap()), "/a/b");
    assert_eq!(show(&path("a").parent().unwrap()), "");
    assert!(path("/").parent().is_none());
    assert!(path("").parent().is_none());
    assert_eq!(show(&path("/a/b/c.py").strip_prefix(&path("/a")).unwrap()), "b/c.py");
    assert!(path("/a/b").strip_prefix(&path("/a/c")).is_none());
    assert!(path("a/b").strip_prefix(&path("/a")).is_none());
    assert_eq!(show(&path("/out").join(&path("x/y.py"))), "/out/x/y.py");
    assert_eq!(show(&path("/out").join(&path("/abs"))), "/abs");
    assert_eq!(show(&path("out").join(&path("./x"))), "out/x");
    assert_eq!(show(&path("").join(&path("./x"))), "./x");
    let stripped = path("/m/pkg/x.py").strip_prefix(&path("/m")).unwrap();
    assert!(path("/m").join(&stripped).same(&path("/m/pkg/x.py")));
}

#[test]
fn extensions() {
    assert!(path("/a/b.py").has_extension("py"));
    assert!(!path("/a/.py").has_extension("py"));
    assert!(!path("/a/b.pyc").has_extension("py"));
    assert!(!path("/a/b").has_extension("py"));
    assert!(path("/a/b.tar.gz").has_extension("gz"));
    assert_eq!(show(&path("/a/b.txt").with_extension("py")), "/a/b.py");
    assert_eq!(show(&path("/a/b.py").with_extension("py")), "/a/b.py");
    assert_eq!(show(&path("/a/.hidden").with_extension("py")), "/a/.hidden.py");
    assert_eq!(show(&path("/a/b.txt").with_extension("")), "/a/b");
    assert_eq!(show(&path("/").with_extension("py")), "/");
    assert_eq!(path("/a/b.py").file_name().unwrap(), "b.py");
}

#[test]
fn module_names_of_paths() {
    let imports = FileImports::new(path("/src/pkg"));
    assert_eq!(imports.path_to_module_name(&path("/src/pkg/sub/mod.py")), "pkg.sub.mod");
    assert_eq!(imports.path_to_module_name(&path("/src/pkg/sub/__init__.py")), "pkg.sub");
    assert_eq!(imports.path_to_module_name(&path("/other/tool.py")), "tool");
    let rooted = FileImports::new(path("/"));
    assert_eq!(rooted.path_to_module_name(&path("/a/b.py")), "a.b");
}

#[test]
fn relative_imports_resolve_against_the_file() {
    let imports = FileImports::new(path("/src/pkg"));
    let current = path("/src/pkg/sub/mod.py");
    assert_eq!(imports.resolve_relative_import("..base_model", &current), "pkg.base_model");
    assert_eq!(imports.resolve_relative_import(".", &current), "pkg.sub");
    assert_eq!(imports.resolve_relative_import(".sibling.inner", &current), "pkg.sub.sibling.inner");
    assert_eq!(imports.resolve_relative_import("...", &current), "");
    assert_eq!(imports.resolve_relative_import("....", &current), "");
}

#[test]
fn imports_bind_names() {
    let mut imports = FileImports::new(path("/src/pkg"));
    imports.process_import(&ImportStmt {
        names: vec![
            ImportAlias { name: "pandera".to_string(), asname: Some("pa".to_string()) },
            ImportAlias { name: "os".to_string(), asname: None },
        ],
    });
    assert_eq!(imports.resolve_attribute("pa", "DataFrameModel").unwrap(), "pandera.DataFrameModel");
    assert_eq!(imports.resolve_attribute("os", "path").unwrap(), "os.path");
    assert!(imports.resolve_attribute("np", "array").is_none());
    // a module alias is resolved when no imported name matches
    assert_eq!(imports.resolve_name("pa").unwrap(), "pandera");
    assert!(imports.resolve_name("np").is_none());

    let current = path("/src/pkg/sub/mod.py");
    imports.process_import_from(
        &ImportFromStmt {
            module: Some("pandera.typing".to_string()),
            names: vec![ImportAlias { name: "Series".to_string(), asname: Some("S".to_string()) }],
        },
        &current,
    );
    assert_eq!(imports.resolve_name("S").unwrap(), "pandera.typing.Series");
    assert_eq!(imports.resolve_attribute("pandera", "X").unwrap(), "pandera.X");

    imports.process_import_from(
        &ImportFromStmt {
            module: Some(".local".to_string()),
            names: vec![ImportAlias { name: "Thing".to_string(), asname: None }],
        },
        &current,
    );
    assert_eq!(imports.resolve_name("Thing").unwrap(), "pkg.sub.local.Thing");

    imports.process_import_from(&ImportFromStmt { module: None, names: vec![] }, &current);
    imports.add_imported_item("S".to_string(), "other.S".to_string());
    assert_eq!(imports.resolve_name("S").unwrap(), "other.S");
    imports.add_module_alias("pa".to_string(), "pandas".to_string());
    assert_eq!(imports.resolve_attribute("pa", "DataFrame").unwrap(), "pandas.DataFrame");
}
