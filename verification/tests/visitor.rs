use fauxgen_core::imports::{ImportAlias, ImportFromStmt, ImportStmt};
use fauxgen_core::path::{Component, PyPath};
use fauxgen_core::strings::ClassIDExt;
use fauxgen_core::visitor::{BaseExpr, ClassDef, ClassDefStmt, ClassVisitor};

fn path(s: &str) -> PyPath {
    let mut comps = Vec::new();
    if s.starts_with('/') {
        comps.push(Component::RootDir);
    }
    for part in s.split('/') {
        if !part.is_empty() {
            comps.push(Component::Normal(part.to_string()));
        }
    }
    PyPath::new(comps)
}

fn join(p: &PyPath, rel: &str) -> PyPath {
    p.join(&path(rel))
}

fn same_path(a: &PyPath, b: &PyPath) -> bool {
    a.same(b)
}

fn import(name: &str, asname: Option<&str>) -> ImportStmt {
    ImportStmt {
        names: vec![ImportAlias { name: name.to_string(), asname: asname.map(|s| s.to_string()) }],
    }
}

fn import_from(module: Option<&str>, name: &str, asname: Option<&str>) -> ImportFromStmt {
    ImportFromStmt {
        module: module.map(|s| s.to_string()),
        names: vec![ImportAlias { name: name.to_string(), asname: asname.map(|s| s.to_string()) }],
    }
}

fn class(name: &str, bases: Vec<BaseExpr>) -> ClassDefStmt<()> {
    ClassDefStmt { name: name.to_string(), bases, node: () }
}

fn name(n: &str) -> BaseExpr {
    BaseExpr::Name(n.to_string())
}

fn attr(v: &str, a: &str) -> BaseExpr {
    BaseExpr::Attribute(v.to_string(), a.to_string())
}

fn strings(v: &[&str]) -> Vec<String> {
    v.iter().map(|s| s.to_string()).collect()
}

fn check_def(def: &ClassDef<()>, id: &str, name: &str, module_file: &PyPath, parents: &[&str]) {
    assert_eq!(def.id, id);
    assert_eq!(def.name, name);
    assert!(same_path(&def.module_file, module_file));
    assert_eq!(def.parent_ids, strings(parents));
}

fn inheritance_of(v: &ClassVisitor<()>) -> Vec<(String, Vec<String>)> {
    let m = v.get_inheritance_map();
    let mut out = Vec::new();
    for i in 0..m.len() {
        let (k, val) = m.entry_at(i);
        out.push((k.clone(), val.clone()));
    }
    out.sort();
    out
}

fn expected_map(entries: &[(&str, &[&str])]) -> Vec<(String, Vec<String>)> {
    let mut out: Vec<(String, Vec<String>)> =
        entries.iter().map(|(k, v)| (k.to_string(), strings(v))).collect();
    out.sort();
    out
}

fn ids_for(v: &ClassVisitor<()>, file: &PyPath) -> Vec<String> {
    v.get_class_ids_for_file(file).cloned().unwrap_or_default()
}

const PROJECT_ROOT: &str = "/home/user/fauxgen-core";

#[test]
fn test_visitor_tracks_relative_imports() {
    let root_module_path = join(&path(PROJECT_ROOT), "resources/visitor/test_relative_import");
    let mut visitor: ClassVisitor<()> = ClassVisitor::new(root_module_path.duplicate());

    // base_model.py
    let base_model = join(&root_module_path, "base_model.py");
    visitor.set_current_module_path(base_model.duplicate());
    visitor.visit_stmt_import(&import("pandera", Some("pa")));
    visitor.visit_stmt_class_def(class("BaseModel", vec![attr("pa", "DataFrameModel")]));

    // subpackage/relative_import.py: `from ..base_model import BaseModel`
    // (the parser keeps the dots apart from the module name)
    let relative = join(&root_module_path, "subpackage/relative_import.py");
    visitor.set_current_module_path(relative.duplicate());
    visitor.visit_stmt_import_from(&import_from(Some("base_model"), "BaseModel", None));
    visitor.visit_stmt_class_def(class("RelativeUser", vec![name("BaseModel")]));
    visitor.set_current_module_path(root_module_path.duplicate());

    assert!(
        inheritance_of(&visitor)
            == expected_map(&[
                (
                    "test_relative_import.subpackage.relative_import.RelativeUser",
                    &["base_model.BaseModel"]
                ),
                ("test_relative_import.base_model.BaseModel", &["pandera.DataFrameModel"]),
            ])
    );

    let class_defs = visitor.get_class_defs();
    assert!(class_defs.len() == 2);
    check_def(
        visitor
            .get_class_def(&"test_relative_import.subpackage.relative_import.RelativeUser".to_string())
            .unwrap(),
        "test_relative_import.subpackage.relative_import.RelativeUser",
        "RelativeUser",
        &join(&root_module_path, "subpackage/relative_import.py"),
        &["base_model.BaseModel"],
    );
    check_def(
        visitor.get_class_def(&"test_relative_import.base_model.BaseModel".to_string()).unwrap(),
        "test_relative_import.base_model.BaseModel",
        "BaseModel",
        &join(&root_module_path, "base_model.py"),
        &["pandera.DataFrameModel"],
    );

    let file_class_ids = visitor.get_file_class_ids();
    assert_eq!(file_class_ids.len(), 2);
    assert_eq!(
        ids_for(&visitor, &join(&root_module_path, "subpackage/relative_import.py")),
        strings(&["test_relative_import.subpackage.relative_import.RelativeUser"])
    );
    assert_eq!(
        ids_for(&visitor, &join(&root_module_path, "base_model.py")),
        strings(&["test_relative_import.base_model.BaseModel"])
    );
}

#[test]
fn test_visitor_tracks_class_definitions() {
    let root_module_path = join(&path(PROJECT_ROOT), "resources/visitor/test_inheritance");
    let mut visitor: ClassVisitor<()> = ClassVisitor::new(root_module_path.duplicate());

    let base_models = join(&root_module_path, "base_models.py");
    visitor.set_current_module_path(base_models.duplicate());
    visitor.visit_stmt_import(&import("pandera", Some("pa")));
    visitor.visit_stmt_class_def(class("BaseDataFrameModel", vec![attr("pa", "DataFrameModel")]));
    visitor.visit_stmt_class_def(class("UserBase", vec![name("BaseDataFrameModel")]));
    visitor.set_current_module_path(root_module_path.duplicate());

    assert!(
        inheritance_of(&visitor)
            == expected_map(&[
                (
                    "test_inheritance.base_models.UserBase",
                    &["test_inheritance.base_models.BaseDataFrameModel"]
                ),
                ("test_inheritance.base_models.BaseDataFrameModel", &["pandera.DataFrameModel"]),
            ])
    );

    assert!(visitor.get_class_defs().len() == 2);
    check_def(
        visitor.get_class_def(&"test_inheritance.base_models.UserBase".to_string()).unwrap(),
        "test_inheritance.base_models.UserBase",
        "UserBase",
        &join(&root_module_path, "base_models.py"),
        &["test_inheritance.base_models.BaseDataFrameModel"],
    );
    check_def(
        visitor
            .get_class_def(&"test_inheritance.base_models.BaseDataFrameModel".to_string())
            .unwrap(),
        "test_inheritance.base_models.BaseDataFrameModel",
        "BaseDataFrameModel",
        &join(&root_module_path, "base_models.py"),
        &["pandera.DataFrameModel"],
    );

    assert_eq!(visitor.get_file_class_ids().len(), 1);
    assert_eq!(
        ids_for(&visitor, &join(&root_module_path, "base_models.py")),
        strings(&[
            "test_inheritance.base_models.BaseDataFrameModel",
            "test_inheritance.base_models.UserBase",
        ])
    );
}

#[test]
fn test_visitor_tracks_nested_inheritance() {
    let root_module_path = join(&path(PROJECT_ROOT), "resources/visitor/test_nested_inheritance");
    let mut visitor: ClassVisitor<()> = ClassVisitor::new(root_module_path.duplicate());

    let nested_model = join(&root_module_path, "nested_model.py");
    visitor.set_current_module_path(nested_model.duplicate());
    visitor.visit_stmt_import(&import("pandera", Some("pa")));
    visitor.visit_stmt_class_def(class("BaseDataFrameModel", vec![attr("pa", "DataFrameModel")]));
    visitor.visit_stmt_class_def(class("User", vec![name("BaseDataFrameModel")]));
    visitor.visit_stmt_class_def(class("UserExtension", vec![name("User")]));
    visitor.set_current_module_path(root_module_path.duplicate());

    assert!(
        inheritance_of(&visitor)
            == expected_map(&[
                (
                    "test_nested_inheritance.nested_model.User",
                    &["test_nested_inheritance.nested_model.BaseDataFrameModel"]
                ),
                (
                    "test_nested_inheritance.nested_model.UserExtension",
                    &["test_nested_inheritance.nested_model.User"]
                ),
                (
                    "test_nested_inheritance.nested_model.BaseDataFrameModel",
                    &["pandera.DataFrameModel"]
                ),
            ])
    );

    assert!(visitor.get_class_defs().len() == 3);
    check_def(
        visitor.get_class_def(&"test_nested_inheritance.nested_model.User".to_string()).unwrap(),
        "test_nested_inheritance.nested_model.User",
        "User",
        &join(&root_module_path, "nested_model.py"),
        &["test_nested_inheritance.nested_model.BaseDataFrameModel"],
    );
    check_def(
        visitor
            .get_class_def(&"test_nested_inheritance.nested_model.UserExtension".to_string())
            .unwrap(),
        "test_nested_inheritance.nested_model.UserExtension",
        "UserExtension",
        &join(&root_module_path, "nested_model.py"),
        &["test_nested_inheritance.nested_model.User"],
    );
    check_def(
        visitor
            .get_class_def(&"test_nested_inheritance.nested_model.BaseDataFrameModel".to_string())
            .unwrap(),
        "test_nested_inheritance.nested_model.BaseDataFrameModel",
        "BaseDataFrameModel",
        &join(&root_module_path, "nested_model.py"),
        &["pandera.DataFrameModel"],
    );

    assert_eq!(visitor.get_file_class_ids().len(), 1);
    assert_eq!(
        ids_for(&visitor, &join(&root_module_path, "nested_model.py")),
        strings(&[
            "test_nested_inheritance.nested_model.BaseDataFrameModel",
            "test_nested_inheritance.nested_model.User",
            "test_nested_inheritance.nested_model.UserExtension",
        ])
    );
}

#[test]
fn test_visitor_tracks_alias_imports() {
    let root_module_path = join(&path(PROJECT_ROOT), "resources/visitor/test_alias_import");
    let mut visitor: ClassVisitor<()> = ClassVisitor::new(root_module_path.duplicate());

    let alias_import = join(&root_module_path, "alias_import.py");
    visitor.set_current_module_path(alias_import.duplicate());
    visitor.visit_stmt_import(&import("visitor.base_models", Some("models")));
    visitor.visit_stmt_class_def(class("AliasUser", vec![attr("models", "BaseDataFrameModel")]));

    let base_models = join(&root_module_path, "base_models.py");
    visitor.set_current_module_path(base_models.duplicate());
    visitor.visit_stmt_import(&import("pandera", Some("pa")));
    visitor.visit_stmt_class_def(class("BaseDataFrameModel", vec![attr("pa", "DataFrameModel")]));
    visitor.set_current_module_path(root_module_path.duplicate());

    assert!(
        inheritance_of(&visitor)
            == expected_map(&[
                (
                    "test_alias_import.alias_import.AliasUser",
                    &["visitor.base_models.BaseDataFrameModel"]
                ),
                ("test_alias_import.base_models.BaseDataFrameModel", &["pandera.DataFrameModel"]),
            ])
    );

    assert!(visitor.get_class_defs().len() == 2);
    check_def(
        visitor.get_class_def(&"test_alias_import.alias_import.AliasUser".to_string()).unwrap(),
        "test_alias_import.alias_import.AliasUser",
        "AliasUser",
        &join(&root_module_path, "alias_import.py"),
        &["visitor.base_models.BaseDataFrameModel"],
    );
    check_def(
        visitor
            .get_class_def(&"test_alias_import.base_models.BaseDataFrameModel".to_string())
            .unwrap(),
        "test_alias_import.base_models.BaseDataFrameModel",
        "BaseDataFrameModel",
        &join(&root_module_path, "base_models.py"),
        &["pandera.DataFrameModel"],
    );

    assert!(visitor.get_file_class_ids().len() == 2);
    assert_eq!(
        ids_for(&visitor, &join(&root_module_path, "alias_import.py")),
        strings(&["test_alias_import.alias_import.AliasUser"])
    );
    assert_eq!(
        ids_for(&visitor, &join(&root_module_path, "base_models.py")),
        strings(&["test_alias_import.base_models.BaseDataFrameModel"])
    );
}

#[test]
fn imported_name_beats_local_class_id() {
    let root = path("/src/pkg");
    let mut v: ClassVisitor<()> = ClassVisitor::new(root.duplicate());
    v.set_current_module_path(path("/src/pkg/models.py"));
    v.visit_stmt_import_from(&import_from(Some("pandera"), "DataFrameModel", Some("DFM")));
    v.visit_stmt_class_def(class("A", vec![name("DFM"), name("Local"), BaseExpr::Other, attr("x", "Y")]));
    let def = v.get_class_def(&"pkg.models.A".to_string()).unwrap();
    assert_eq!(
        def.parent_ids,
        strings(&["pandera.DataFrameModel", "pkg.models.Local", "x.Y"])
    );
    // the from-import also binds the first part of the module name
    v.visit_stmt_class_def(class("B", vec![attr("pandera", "X")]));
    let def = v.get_class_def(&"pkg.models.B".to_string()).unwrap();
    assert_eq!(def.parent_ids, strings(&["pandera.X"]));
}

#[test]
fn class_id_of_file_outside_package_uses_file_name() {
    let root = path("/src/pkg");
    let mut v: ClassVisitor<()> = ClassVisitor::new(root.duplicate());
    v.set_current_module_path(path("/elsewhere/tool.py"));
    assert_eq!(v.create_class_id("Cls"), "tool.py.Cls");
    v.set_current_module_path(path("/src/pkg/sub/__init__.py"));
    assert_eq!(v.create_class_id("Cls"), "pkg.sub.Cls");
    v.set_current_module_path(path("/src/pkg/a.py.py"));
    assert_eq!(v.create_class_id("Cls"), "pkg.a.Cls");
}

#[test]
fn redefined_class_replaces_definition_and_lists_id_twice() {
    let root = path("/src/pkg");
    let mut v: ClassVisitor<()> = ClassVisitor::new(root.duplicate());
    let file = path("/src/pkg/m.py");
    v.set_current_module_path(file.duplicate());
    v.visit_stmt_class_def(class("A", vec![]));
    v.visit_stmt_class_def(class("A", vec![name("B")]));
    assert_eq!(v.get_class_defs().len(), 1);
    assert_eq!(v.get_class_def(&"pkg.m.A".to_string()).unwrap().parent_ids, strings(&["pkg.m.B"]));
    assert_eq!(ids_for(&v, &file), strings(&["pkg.m.A", "pkg.m.A"]));
    assert!(v.get_class_ids_for_file(&path("/src/pkg/other.py")).is_none());
}

fn chain_visitor() -> ClassVisitor<()> {
    let root = path("/src/pkg");
    let mut v: ClassVisitor<()> = ClassVisitor::new(root.duplicate());
    v.set_current_module_path(path("/src/pkg/m.py"));
    v.visit_stmt_import(&import("pandera", Some("pa")));
    v.visit_stmt_class_def(class("Base", vec![attr("pa", "DataFrameModel")]));
    v.visit_stmt_class_def(class("Mid", vec![name("Base")]));
    v.visit_stmt_class_def(class("Leaf", vec![name("Mid"), name("Other")]));
    v
}

#[test]
fn class_defs_of_base_walks_up_the_ancestry() {
    let mut v = chain_visitor();
    let found = v.get_class_defs_of_base(&"pkg.m.Leaf".to_string(), &"pandera.DataFrameModel".to_string());
    let ids: Vec<String> = found.iter().map(|d| d.id.clone()).collect();
    assert_eq!(ids, strings(&["pkg.m.Base"]));

    let found = v.get_class_defs_of_base(&"pkg.m.Leaf".to_string(), &"pkg.m.Mid".to_string());
    // a search for another base class is answered for that base class
    let ids: Vec<String> = found.iter().map(|d| d.id.clone()).collect();
    assert_eq!(ids, strings(&["pkg.m.Leaf"]));
}

#[test]
fn search_for_other_base_ignores_classes_met_before() {
    let root = path("/r/pkg");
    let mut v: ClassVisitor<()> = ClassVisitor::new(root.duplicate());
    v.set_current_module_path(path("/r/pkg/m.py"));
    v.visit_stmt_class_def(class("A", vec![name("Base")]));
    v.visit_stmt_class_def(class("B", vec![name("A")]));
    v.visit_stmt_class_def(class("C", vec![name("B")]));
    let found = v.get_class_defs_of_base(&"pkg.m.C".to_string(), &"pkg.m.Base".to_string());
    let ids: Vec<String> = found.iter().map(|d| d.id.clone()).collect();
    assert_eq!(ids, strings(&["pkg.m.A"]));
    let found = v.get_class_defs_of_base(&"pkg.m.A".to_string(), &"pkg.m.B".to_string());
    assert!(found.is_empty());
    let found = v.get_class_defs_of_base(&"pkg.m.B".to_string(), &"pkg.m.Base".to_string());
    let ids: Vec<String> = found.iter().map(|d| d.id.clone()).collect();
    assert_eq!(ids, strings(&["pkg.m.A"]));
}

#[test]
fn new_class_definition_is_seen_by_later_searches() {
    let mut v = chain_visitor();
    let found = v.get_class_defs_of_base(&"pkg.m.Leaf".to_string(), &"pkg.m.Extra".to_string());
    assert!(found.is_empty());
    v.visit_stmt_class_def(class("Mid", vec![name("Base"), name("Extra")]));
    let found = v.get_class_defs_of_base(&"pkg.m.Leaf".to_string(), &"pkg.m.Extra".to_string());
    let ids: Vec<String> = found.iter().map(|d| d.id.clone()).collect();
    assert_eq!(ids, strings(&["pkg.m.Mid"]));
}

#[test]
fn class_defs_of_base_direct_and_missing() {
    let mut v = chain_visitor();
    let found = v.get_class_defs_of_base(&"pkg.m.Leaf".to_string(), &"pkg.m.Mid".to_string());
    let ids: Vec<String> = found.iter().map(|d| d.id.clone()).collect();
    assert_eq!(ids, strings(&["pkg.m.Leaf"]));
    let none = v.get_class_defs_of_base(&"pkg.m.Base".to_string(), &"pkg.m.Mid".to_string());
    assert!(none.is_empty());
    let same = v.get_class_defs_of_base(&"pkg.m.Mid".to_string(), &"pkg.m.Mid".to_string());
    assert!(same.is_empty());
    let unknown = v.get_class_defs_of_base(&"nowhere.X".to_string(), &"pkg.m.Mid".to_string());
    assert!(unknown.is_empty());
}

#[test]
fn class_defs_of_base_cycle_is_refused() {
    let root = path("/src/pkg");
    let mut v: ClassVisitor<()> = ClassVisitor::new(root.duplicate());
    v.set_current_module_path(path("/src/pkg/m.py"));
    v.visit_stmt_class_def(class("A", vec![]));
    v.visit_stmt_class_def(class("A", vec![name("A")]));
    assert!(!v.search_ends_within(&"pkg.m.A".to_string(), &"base.B".to_string(), 1));
    assert!(v.try_get_class_defs_of_base(&"pkg.m.A".to_string(), &"base.B".to_string()).is_none());
    let mut w = chain_visitor();
    let found = w
        .try_get_class_defs_of_base(&"pkg.m.Mid".to_string(), &"pandera.DataFrameModel".to_string())
        .unwrap();
    assert_eq!(found.len(), 1);
    assert_eq!(found[0].id, "pkg.m.Base");
}

#[test]
fn inheritance_map_leaves_out_classes_without_parents() {
    let root = path("/src/pkg");
    let mut v: ClassVisitor<()> = ClassVisitor::new(root.duplicate());
    v.set_current_module_path(path("/src/pkg/m.py"));
    v.visit_stmt_class_def(class("Plain", vec![]));
    v.visit_stmt_class_def(class("Child", vec![name("Plain")]));
    assert_eq!(inheritance_of(&v), expected_map(&[("pkg.m.Child", &["pkg.m.Plain"])]));
}

#[test]
fn class_name_of_created_id_is_the_class_name() {
    let root = path("/src/pkg");
    let mut v: ClassVisitor<()> = ClassVisitor::new(root.duplicate());
    v.set_current_module_path(path("/src/pkg/sub/m.py"));
    let id = v.create_class_id("Widget");
    assert_eq!(id, "pkg.sub.m.Widget");
    assert_eq!(id.class_name(), "Widget");
}

#[test]
fn class_defs_compare_without_statements() {
    let a: ClassDef<u32> = ClassDef {
        id: "m.A".to_string(),
        name: "A".to_string(),
        module_file: path("/m.py"),
        stmt_class_def: 1,
        parent_ids: strings(&["m.B"]),
    };
    let b: ClassDef<u32> = ClassDef {
        id: "m.A".to_string(),
        name: "A".to_string(),
        module_file: path("/m.py"),
        stmt_class_def: 2,
        parent_ids: strings(&["m.B"]),
    };
    let c: ClassDef<u32> = ClassDef {
        id: "m.A".to_string(),
        name: "A".to_string(),
        module_file: path("/other.py"),
        stmt_class_def: 1,
        parent_ids: strings(&["m.B"]),
    };
    assert!(a == b);
    assert!(a != c);
}

#[test]
fn repeated_search_gives_first_answer() {
    let mut v = chain_visitor();
    let first = v.get_class_defs_of_base(&"pkg.m.Mid".to_string(), &"pkg.m.Base".to_string());
    let second = v.get_class_defs_of_base(&"pkg.m.Mid".to_string(), &"pkg.m.Base".to_string());
    assert!(first == second);
    assert_eq!(first.len(), 1);
    assert_eq!(first[0].id, "pkg.m.Mid");
}

#[test]
fn module_alias_as_base_resolves_to_module() {
    let root = path("/src/pkg");
    let mut v: ClassVisitor<()> = ClassVisitor::new(root.duplicate());
    v.set_current_module_path(path("/src/pkg/m.py"));
    v.visit_stmt_import(&import("models.base", Some("mb")));
    v.visit_stmt_class_def(class("A", vec![name("mb")]));
    assert_eq!(v.get_class_def(&"pkg.m.A".to_string()).unwrap().parent_ids, strings(&["models.base"]));
}
