//! Import bookkeeping for one Python source file.

use vstd::prelude::*;
use crate::assoc::AssocMap;
use crate::path::{
    spec_file_name, spec_join, spec_parent, spec_strip_prefix, Component, ComponentView, PathView,
    PyPath,
};
use crate::strings::{dotted, join_dots, join_dotted, join_with_dots, trim_py, trim_py_suffix};

verus! {

/// The name `__init__.py`.
pub open spec fn init_py() -> Seq<char> {
    seq!['_', '_', 'i', 'n', 'i', 't', '_', '_', '.', 'p', 'y']
}

/// The module name parts that the names of `rel` stand for: every name but
/// `__init__.py`, with its trailing `.py` removed.
pub open spec fn module_parts(rel: PathView) -> Seq<Seq<char>>
    decreases rel.len(),
{
    if rel.len() == 0 {
        Seq::empty()
    } else {
        let rest = module_parts(rel.drop_last());
        match rel.last() {
            ComponentView::Normal(n) => if n == init_py() {
                rest
            } else {
                rest.push(trim_py(n))
            },
            _ => rest,
        }
    }
}

/// The module name parts of the path `rel`.
pub fn module_parts_of(rel: &PyPath) -> (parts: Vec<String>)
    ensures
        parts@.map_values(|p: String| p@) == module_parts(rel@),
{
    let comps = rel.components();
    let ghost cv = comps@.map_values(|x: Component| x@);
    let mut parts: Vec<String> = Vec::new();
    let n = comps.len();
    let mut i: usize = 0;
    assert(cv.take(0) =~= Seq::<ComponentView>::empty());
    while i < n
        invariant
            n == comps@.len() == cv.len(),
            cv == rel@,
            cv == comps@.map_values(|x: Component| x@),
            i <= n,
            parts@.map_values(|p: String| p@) == module_parts(cv.take(i as int)),
        decreases n - i,
    {
        assert(cv.take(i + 1).drop_last() =~= cv.take(i as int));
        assert(cv.take(i + 1).last() == comps@[i as int]@);
        match &comps[i] {
            Component::Normal(name) => {
                let is_init = *name == String::from_str("__init__.py");
                proof {
                    reveal_strlit("__init__.py");
                    assert("__init__.py"@ =~= init_py());
                }
                if !is_init {
                    let ghost before = parts@;
                    parts.push(trim_py_suffix(name.as_str()));
                    assert(parts@.map_values(|p: String| p@) =~= before.map_values(
                        |p: String| p@,
                    ).push(trim_py(name@)));
                }
            },
            _ => {},
        }
        i = i + 1;
    }
    assert(cv.take(n as int) =~= cv);
    parts
}

/// The Python module name of `path`, for a package rooted at `root`: the
/// module name parts of `path` relative to the parent of `root` joined by
/// dots, or, when `path` is not under that directory, its file name without `.py`.
pub open spec fn spec_path_to_module_name(root: PathView, path: PathView) -> Seq<char> {
    let base = match spec_parent(root) {
        Some(p) => p,
        None => seq![ComponentView::RootDir],
    };
    match spec_strip_prefix(path, base) {
        Some(rel) => join_dots(module_parts(rel)),
        None => match spec_file_name(path) {
            Some(n) => trim_py(n),
            None => Seq::empty(),
        },
    }
}

/// Whether `c` separates the parts of a dotted or slashed name.
pub open spec fn is_separator(c: char) -> bool {
    c == '.' || c == '/'
}

/// The non-empty runs of non-separator characters of `r`, after the run `cur`
/// that is already under way.
pub open spec fn segments_from(r: Seq<char>, cur: Seq<char>) -> Seq<Seq<char>>
    decreases r.len(),
{
    if r.len() == 0 {
        if cur.len() > 0 {
            seq![cur]
        } else {
            Seq::empty()
        }
    } else if is_separator(r[0]) {
        (if cur.len() > 0 {
            seq![cur]
        } else {
            Seq::empty()
        }) + segments_from(r.drop_first(), Seq::empty())
    } else {
        segments_from(r.drop_first(), cur.push(r[0]))
    }
}

/// The path that a dotted module name stands for once its dots become
/// separators: a root when it starts with `/`, then one name per non-empty part.
pub open spec fn spec_dotted_path(r: Seq<char>) -> PathView {
    let names = segments_from(r, Seq::empty()).map_values(|s: Seq<char>| ComponentView::Normal(s));
    if r.len() > 0 && r[0] == '/' {
        seq![ComponentView::RootDir] + names
    } else {
        names
    }
}

/// Number of leading dots of `s`.
pub open spec fn leading_dots(s: Seq<char>) -> nat
    decreases s.len(),
{
    if s.len() > 0 && s[0] == '.' {
        1 + leading_dots(s.drop_first())
    } else {
        0
    }
}

/// The parent of `p`, or `p` itself when it has none.
pub open spec fn parent_or_self(p: PathView) -> PathView {
    match spec_parent(p) {
        Some(q) => q,
        None => p,
    }
}

/// `parent_or_self` applied `k` times.
pub open spec fn ancestor(p: PathView, k: nat) -> PathView
    decreases k,
{
    if k == 0 {
        p
    } else {
        parent_or_self(ancestor(p, (k - 1) as nat))
    }
}

/// The directory that a relative import `relative` made from the file
/// `current` names: each dot past the first goes one directory up.
pub open spec fn spec_relative_target(relative: Seq<char>, current: PathView) -> PathView {
    let dots = leading_dots(relative);
    let dir = ancestor(
        parent_or_self(current),
        if dots > 0 {
            (dots - 1) as nat
        } else {
            0
        },
    );
    let remaining = relative.skip(dots as int);
    if remaining.len() == 0 {
        dir
    } else {
        spec_join(dir, spec_dotted_path(remaining))
    }
}

/// An imported name and the name it is bound to, if renamed (`name as asname`).
#[derive(Debug)]
pub struct ImportAlias {
    pub name: String,
    pub asname: Option<String>,
}

/// The name under which an alias is bound.
pub open spec fn bound_name(a: ImportAlias) -> Seq<char> {
    match a.asname {
        Some(s) => s@,
        None => a.name@,
    }
}

/// The first dot-separated part of `s`.
pub open spec fn first_part(s: Seq<char>) -> Seq<char>
    decreases s.len(),
{
    if s.len() == 0 || s[0] == '.' {
        Seq::empty()
    } else {
        seq![s[0]] + first_part(s.drop_first())
    }
}

/// What a name stands for: first among the imported names, then among the module aliases.
pub open spec fn spec_resolve_name(
    items: Map<Seq<char>, Seq<char>>,
    aliases: Map<Seq<char>, Seq<char>>,
    name: Seq<char>,
) -> Option<Seq<char>> {
    if items.dom().contains(name) {
        Some(items[name])
    } else if aliases.dom().contains(name) {
        Some(aliases[name])
    } else {
        None
    }
}

/// What `module_alias.attr_name` stands for: the attribute of the module
/// that `module_alias` is an alias of.
pub open spec fn spec_resolve_attribute(
    aliases: Map<Seq<char>, Seq<char>>,
    module_alias: Seq<char>,
    attr_name: Seq<char>,
) -> Option<Seq<char>> {
    if aliases.dom().contains(module_alias) {
        Some(dotted(aliases[module_alias], attr_name))
    } else {
        None
    }
}

/// String-valued map seen through the views of its values.
pub open spec fn text_map(m: Map<Seq<char>, String>) -> Map<Seq<char>, Seq<char>> {
    m.map_values(|v: String| v@)
}

/// `m` after binding every alias of `names`, in order, to the name it imports.
pub open spec fn bind_modules(m: Map<Seq<char>, Seq<char>>, names: Seq<ImportAlias>) -> Map<
    Seq<char>,
    Seq<char>,
>
    decreases names.len(),
{
    if names.len() == 0 {
        m
    } else {
        bind_modules(m, names.drop_last()).insert(bound_name(names.last()), names.last().name@)
    }
}

/// `m` after binding every alias of `names`, in order, to `module.name`.
pub open spec fn bind_items(
    m: Map<Seq<char>, Seq<char>>,
    module: Seq<char>,
    names: Seq<ImportAlias>,
) -> Map<Seq<char>, Seq<char>>
    decreases names.len(),
{
    if names.len() == 0 {
        m
    } else {
        bind_items(m, module, names.drop_last()).insert(
            bound_name(names.last()),
            dotted(module, names.last().name@),
        )
    }
}

pub proof fn lemma_leading_dots(s: Seq<char>, i: int)
    requires
        0 <= i <= s.len(),
        forall|j: int| 0 <= j < i ==> s[j] == '.',
    ensures
        leading_dots(s) == i + leading_dots(s.skip(i)),
    decreases i,
{
    if i > 0 {
        assert(s[0] == '.');
        assert forall|j: int| 0 <= j < i - 1 implies s.drop_first()[j] == '.' by {
            assert(s.drop_first()[j] == s[j + 1]);
        }
        lemma_leading_dots(s.drop_first(), i - 1);
        assert(s.drop_first().skip(i - 1) =~= s.skip(i));
    } else {
        assert(s.skip(0) =~= s);
    }
}

/// Number of leading dots of `s`.
pub fn count_leading_dots(s: &str) -> (n: usize)
    ensures
        n == leading_dots(s@),
        n <= s@.len(),
{
    let len = s.unicode_len();
    let mut i: usize = 0;
    while i < len && s.get_char(i) == '.'
        invariant
            len == s@.len(),
            i <= len,
            forall|j: int| 0 <= j < i ==> s@[j] == '.',
        decreases len - i,
    {
        i = i + 1;
    }
    proof {
        lemma_leading_dots(s@, i as int);
        if i < len {
            assert(s@.skip(i as int)[0] == s@[i as int]);
        }
    }
    i
}

/// The parent of `p`, or a copy of `p` when it has none.
pub fn parent_or_self_of(p: &PyPath) -> (r: PyPath)
    ensures
        r@ == parent_or_self(p@),
{
    match p.parent() {
        Some(q) => q,
        None => p.duplicate(),
    }
}

/// The path of a dotted module name whose dots have become separators.
pub fn dotted_path(r: &str) -> (p: PyPath)
    ensures
        p@ == spec_dotted_path(r@),
{
    let n = r.unicode_len();
    let mut comps: Vec<Component> = Vec::new();
    let starts_at_root = n > 0 && r.get_char(0) == '/';
    if starts_at_root {
        comps.push(Component::RootDir);
    }
    let ghost prefix = comps@.map_values(|c: Component| c@);
    let ghost mut found: Seq<Seq<char>> = Seq::empty();
    let mut start: usize = 0;
    let mut i: usize = 0;
    assert(r@.skip(0) =~= r@);
    assert(r@.subrange(0, 0) =~= Seq::<char>::empty());
    while i < n
        invariant
            n == r@.len(),
            start <= i <= n,
            prefix == (if starts_at_root {
                seq![ComponentView::RootDir]
            } else {
                Seq::<ComponentView>::empty()
            }),
            comps@.map_values(|c: Component| c@) == prefix + found.map_values(
                |s: Seq<char>| ComponentView::Normal(s),
            ),
            found + segments_from(r@.skip(i as int), r@.subrange(start as int, i as int))
                == segments_from(r@, Seq::empty()),
        decreases n - i,
    {
        let c = r.get_char(i);
        let ghost cur = r@.subrange(start as int, i as int);
        assert(r@.skip(i as int).drop_first() =~= r@.skip(i + 1));
        assert(r@.skip(i as int)[0] == c);
        if c == '.' || c == '/' {
            if start < i {
                let seg = String::from_str(r.substring_char(start, i));
                let ghost before = comps@.map_values(|x: Component| x@);
                comps.push(Component::Normal(seg));
                proof {
                    assert(comps@.map_values(|x: Component| x@) =~= before.push(
                        ComponentView::Normal(cur),
                    ));
                    assert(found.push(cur).map_values(|s: Seq<char>| ComponentView::Normal(s))
                        =~= found.map_values(|s: Seq<char>| ComponentView::Normal(s)).push(
                        ComponentView::Normal(cur),
                    ));
                    assert(found.push(cur) + segments_from(r@.skip(i + 1), Seq::empty())
                        =~= found + (seq![cur] + segments_from(r@.skip(i + 1), Seq::empty())));
                    found = found.push(cur);
                }
            } else {
                assert(cur =~= Seq::<char>::empty());
                assert(Seq::<Seq<char>>::empty() + segments_from(r@.skip(i + 1), Seq::empty())
                    =~= segments_from(r@.skip(i + 1), Seq::empty()));
            }
            start = i + 1;
            i = i + 1;
            assert(r@.subrange(start as int, i as int) =~= Seq::<char>::empty());
        } else {
            assert(r@.subrange(start as int, i + 1) =~= cur.push(c));
            i = i + 1;
        }
    }
    proof {
        let cur = r@.subrange(start as int, n as int);
        assert(r@.skip(n as int) =~= Seq::<char>::empty());
    }
    if start < n {
        let seg = String::from_str(r.substring_char(start, n));
        let ghost cur = r@.subrange(start as int, n as int);
        let ghost before = comps@.map_values(|x: Component| x@);
        comps.push(Component::Normal(seg));
        proof {
            assert(comps@.map_values(|x: Component| x@) =~= before.push(ComponentView::Normal(cur)));
            assert(found.push(cur).map_values(|s: Seq<char>| ComponentView::Normal(s))
                =~= found.map_values(|s: Seq<char>| ComponentView::Normal(s)).push(
                ComponentView::Normal(cur),
            ));
            assert(found + seq![cur] =~= found.push(cur));
            found = found.push(cur);
        }
    } else {
        assert(found + Seq::<Seq<char>>::empty() =~= found);
    }
    let p = PyPath::new(comps);
    assert(found == segments_from(r@, Seq::empty()));
    assert(p@ =~= spec_dotted_path(r@));
    p
}

pub proof fn lemma_first_part(s: Seq<char>, i: int)
    requires
        0 <= i <= s.len(),
        forall|j: int| 0 <= j < i ==> s[j] != '.',
    ensures
        first_part(s) == s.subrange(0, i) + first_part(s.skip(i)),
    decreases i,
{
    if i > 0 {
        assert forall|j: int| 0 <= j < i - 1 implies s.drop_first()[j] != '.' by {
            assert(s.drop_first()[j] == s[j + 1]);
        }
        lemma_first_part(s.drop_first(), i - 1);
        assert(s.drop_first().skip(i - 1) =~= s.skip(i));
        assert(seq![s[0]] + s.drop_first().subrange(0, i - 1) =~= s.subrange(0, i));
        assert(seq![s[0]] + (s.drop_first().subrange(0, i - 1) + first_part(s.skip(i))) =~= s.subrange(
            0,
            i,
        ) + first_part(s.skip(i)));
    } else {
        assert(s.skip(0) =~= s);
        assert(s.subrange(0, 0) + first_part(s) =~= first_part(s));
    }
}

/// The first dot-separated part of `s`.
pub fn first_part_of(s: &str) -> (r: String)
    ensures
        r@ == first_part(s@),
{
    let n = s.unicode_len();
    let mut i: usize = 0;
    while i < n && s.get_char(i) != '.'
        invariant
            n == s@.len(),
            i <= n,
            forall|j: int| 0 <= j < i ==> s@[j] != '.',
        decreases n - i,
    {
        i = i + 1;
    }
    proof {
        lemma_first_part(s@, i as int);
        if i < n {
            assert(s@.skip(i as int)[0] == '.');
        } else {
            assert(s@.skip(i as int).len() == 0);
        }
        assert(s@.subrange(0, i as int) + Seq::<char>::empty() =~= s@.subrange(0, i as int));
    }
    String::from_str(s.substring_char(0, i))
}

/// The name under which an alias is bound.
pub fn bound_name_of(a: &ImportAlias) -> (r: String)
    ensures
        r@ == bound_name(*a),
{
    match &a.asname {
        Some(s) => s.clone(),
        None => a.name.clone(),
    }
}

/// An `import a, b as c` statement.
#[derive(Debug)]
pub struct ImportStmt {
    pub names: Vec<ImportAlias>,
}

/// A `from module import a, b as c` statement; `module` is what follows the
/// leading dots of a relative import, and is absent for `from . import a`.
#[derive(Debug)]
pub struct ImportFromStmt {
    pub module: Option<String>,
    pub names: Vec<ImportAlias>,
}

pub proof fn lemma_text_map_insert(m: Map<Seq<char>, String>, k: Seq<char>, v: String)
    ensures
        text_map(m.insert(k, v)) == text_map(m).insert(k, v@),
{
    assert(text_map(m.insert(k, v)) =~= text_map(m).insert(k, v@));
}

/// The imports seen so far in one file.
#[derive(Debug)]
pub struct FileImports {
    /// Module names bound by imports: `import pandera as pa` binds `pa` to `pandera`.
    module_aliases: AssocMap<String, String>,
    /// Names bound by from-imports, with the full name they stand for:
    /// `from pandera import DataFrameModel` binds `DataFrameModel` to
    /// `pandera.DataFrameModel`.
    imported_items: AssocMap<String, String>,
    /// The package directory against which relative imports are resolved.
    root_module_path: PyPath,
}

impl FileImports {
    pub closed spec fn wf(&self) -> bool {
        self.module_aliases.wf() && self.imported_items.wf()
    }

    /// Module aliases, with the module each stands for.
    pub closed spec fn aliases(&self) -> Map<Seq<char>, Seq<char>> {
        text_map(self.module_aliases@)
    }

    /// Imported names, with the full name each stands for.
    pub closed spec fn items(&self) -> Map<Seq<char>, Seq<char>> {
        text_map(self.imported_items@)
    }

    /// The package directory.
    pub closed spec fn root(&self) -> PathView {
        self.root_module_path@
    }

    /// Imports of a file of the package rooted at `root_module_path`, before any import.
    pub fn new(root_module_path: PyPath) -> (r: FileImports)
        ensures
            r.wf(),
            r.aliases() == Map::<Seq<char>, Seq<char>>::empty(),
            r.items() == Map::<Seq<char>, Seq<char>>::empty(),
            r.root() == root_module_path@,
    {
        let r = FileImports {
            module_aliases: AssocMap::new(),
            imported_items: AssocMap::new(),
            root_module_path,
        };
        assert(r.aliases() =~= Map::<Seq<char>, Seq<char>>::empty());
        assert(r.items() =~= Map::<Seq<char>, Seq<char>>::empty());
        r
    }

    /// Records `import name as alias`: `alias` now stands for the module `module`.
    pub fn add_module_alias(&mut self, alias: String, module: String)
        requires
            old(self).wf(),
        ensures
            final(self).wf(),
            final(self).aliases() == old(self).aliases().insert(alias@, module@),
            final(self).items() == old(self).items(),
            final(self).root() == old(self).root(),
    {
        proof {
            lemma_text_map_insert(self.module_aliases@, alias@, module);
        }
        self.module_aliases.insert(alias, module);
    }

    /// Records `from m import name as item_name`: `item_name` now stands for `full_path`.
    pub fn add_imported_item(&mut self, item_name: String, full_path: String)
        requires
            old(self).wf(),
        ensures
            final(self).wf(),
            final(self).items() == old(self).items().insert(item_name@, full_path@),
            final(self).aliases() == old(self).aliases(),
            final(self).root() == old(self).root(),
    {
        proof {
            lemma_text_map_insert(self.imported_items@, item_name@, full_path);
        }
        self.imported_items.insert(item_name, full_path);
    }

    /// The full name that `name` stands for: the name it was imported as by a
    /// from-import, or else the module it is an alias of.
    pub fn resolve_name(&self, name: &str) -> (r: Option<String>)
        requires
            self.wf(),
        ensures
            match r {
                Some(s) => spec_resolve_name(self.items(), self.aliases(), name@) == Some(s@),
                None => spec_resolve_name(self.items(), self.aliases(), name@) is None,
            },
    {
        let key = String::from_str(name);
        match self.imported_items.get(&key) {
            Some(v) => Some(v.clone()),
            None => match self.module_aliases.get(&key) {
                Some(m) => Some(m.clone()),
                None => None,
            },
        }
    }

    /// The full name of `module_alias.attr_name`, when `module_alias` is a known module alias.
    pub fn resolve_attribute(&self, module_alias: &str, attr_name: &str) -> (r: Option<String>)
        requires
            self.wf(),
        ensures
            match r {
                Some(s) => spec_resolve_attribute(self.aliases(), module_alias@, attr_name@) == Some(
                    s@,
                ),
                None => spec_resolve_attribute(self.aliases(), module_alias@, attr_name@) is None,
            },
    {
        match self.module_aliases.get(&String::from_str(module_alias)) {
            Some(m) => Some(join_dotted(m.as_str(), attr_name)),
            None => None,
        }
    }

    /// The Python module name of `path` within this package.
    pub fn path_to_module_name(&self, path: &PyPath) -> (r: String)
        ensures
            r@ == spec_path_to_module_name(self.root(), path@),
    {
        let base = match self.root_module_path.parent() {
            Some(p) => p,
            None => {
                let p = PyPath::new(vec![Component::RootDir]);
                assert(p@ =~= seq![ComponentView::RootDir]);
                p
            },
        };
        match path.strip_prefix(&base) {
            Some(rel) => join_with_dots(&module_parts_of(&rel)),
            None => match path.file_name() {
                Some(n) => trim_py_suffix(n.as_str()),
                None => String::new(),
            },
        }
    }

    /// The module name that the relative import `relative_path` stands for in
    /// the file `current_module_path`.
    pub fn resolve_relative_import(&self, relative_path: &str, current_module_path: &PyPath) -> (r:
        String)
        ensures
            r@ == spec_path_to_module_name(
                self.root(),
                spec_relative_target(relative_path@, current_module_path@),
            ),
    {
        let dot_count = count_leading_dots(relative_path);
        let mut current_dir = parent_or_self_of(current_module_path);
        let ghost start = current_dir@;
        let mut k: usize = 1;
        while k < dot_count
            invariant
                1 <= k,
                k <= dot_count || dot_count == 0,
                dot_count == 0 ==> k == 1,
                current_dir@ == ancestor(start, (k - 1) as nat),
            decreases dot_count - k,
        {
            current_dir = parent_or_self_of(&current_dir);
            k = k + 1;
        }
        proof {
            if dot_count > 0 {
                assert(k == dot_count);
            } else {
                assert(k == 1);
            }
        }
        let n = relative_path.unicode_len();
        let remaining = relative_path.substring_char(dot_count, n);
        assert(remaining@ =~= relative_path@.skip(dot_count as int));
        let target_path = if remaining.unicode_len() == 0 {
            current_dir
        } else {
            current_dir.join(&dotted_path(remaining))
        };
        self.path_to_module_name(&target_path)
    }

    /// Records `import a, b as c`.
    pub fn process_import(&mut self, import_stmt: &ImportStmt)
        requires
            old(self).wf(),
        ensures
            final(self).wf(),
            final(self).aliases() == bind_modules(old(self).aliases(), import_stmt.names@),
            final(self).items() == old(self).items(),
            final(self).root() == old(self).root(),
    {
        let names = &import_stmt.names;
        let n = names.len();
        let mut i: usize = 0;
        while i < n
            invariant
                n == names@.len(),
                i <= n,
                self.wf(),
                self.aliases() == bind_modules(old(self).aliases(), names@.take(i as int)),
                self.items() == old(self).items(),
                self.root() == old(self).root(),
            decreases n - i,
        {
            let alias = &names[i];
            let module_name = alias.name.clone();
            let alias_name = bound_name_of(alias);
            self.add_module_alias(alias_name, module_name);
            assert(names@.take(i + 1).drop_last() =~= names@.take(i as int));
            i = i + 1;
        }
        assert(names@.take(n as int) =~= names@);
    }

    /// Records `from module import a, b as c` made in the file `current_module_path`.
    pub fn process_import_from(
        &mut self,
        import_from_stmt: &ImportFromStmt,
        current_module_path: &PyPath,
    )
        requires
            old(self).wf(),
        ensures
            final(self).wf(),
            final(self).root() == old(self).root(),
            match import_from_stmt.module {
                None => final(self).aliases() == old(self).aliases() && final(self).items() == old(
                    self,
                ).items(),
                Some(m) => {
                    let module = if m@.len() > 0 && m@[0] == '.' {
                        spec_path_to_module_name(
                            old(self).root(),
                            spec_relative_target(m@, current_module_path@),
                        )
                    } else {
                        m@
                    };
                    &&& final(self).items() == bind_items(
                        old(self).items(),
                        module,
                        import_from_stmt.names@,
                    )
                    &&& final(self).aliases() == if import_from_stmt.names@.len() > 0 {
                        old(self).aliases().insert(first_part(module), first_part(module))
                    } else {
                        old(self).aliases()
                    }
                },
            },
    {
        if let Some(module) = &import_from_stmt.module {
            let module_str = module.as_str();
            let starts_with_dot = module_str.unicode_len() > 0 && module_str.get_char(0) == '.';
            let module = if starts_with_dot {
                self.resolve_relative_import(module_str, current_module_path)
            } else {
                module.clone()
            };
            let names = &import_from_stmt.names;
            let n = names.len();
            let mut i: usize = 0;
            while i < n
                invariant
                    n == names@.len(),
                    i <= n,
                    self.wf(),
                    self.items() == bind_items(old(self).items(), module@, names@.take(i as int)),
                    self.aliases() == if i > 0 {
                        old(self).aliases().insert(first_part(module@), first_part(module@))
                    } else {
                        old(self).aliases()
                    },
                    self.root() == old(self).root(),
                decreases n - i,
            {
                let alias = &names[i];
                let alias_name = bound_name_of(alias);
                let full_path = join_dotted(module.as_str(), alias.name.as_str());
                self.add_imported_item(alias_name, full_path);
                let first = first_part_of(module.as_str());
                self.add_module_alias(first.clone(), first);
                assert(names@.take(i + 1).drop_last() =~= names@.take(i as int));
                proof {
                    if i > 0 {
                        assert(old(self).aliases().insert(first_part(module@), first_part(module@)).insert(
                            first_part(module@),
                            first_part(module@),
                        ) =~= old(self).aliases().insert(first_part(module@), first_part(module@)));
                    }
                }
                i = i + 1;
            }
            assert(names@.take(n as int) =~= names@);
        }
    }
}

} // verus!
