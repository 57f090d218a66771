//! Properties that span several operations of the library.

use vstd::prelude::*;
use crate::generator::{
    present_codes, spec_combined_code, spec_factory_file, spec_file_actions, spec_prepare_dirs,
    RenderOutcome, RenderedFile, WriteActionView,
};
use crate::imports::{
    bind_items, bind_modules, bound_name, spec_path_to_module_name, spec_relative_target,
    spec_resolve_attribute, spec_resolve_name, ImportAlias, ImportFromStmt,
};
use crate::path::{
    spec_extension, spec_file_name, spec_join, spec_name_stem, spec_parent,
    spec_strip_prefix, spec_with_extension, ComponentView, PathView,
};
use crate::strings::{dotted, last_index_of, lemma_last_index_of, spec_class_name};
use crate::visitor::{
    defs_of_base_list, derives_from, direct_child, expanding, lemma_derives_within_bound,
    lemma_fresh_search, lemma_more_levels, lemma_search_finds_every_met_child, met_in_search,
    search_bounded, ClassDefView,
    spec_class_id, spec_import_from, ClassVisitor, ImportsView,
};

verus! {

/// The last dot of `a.b`, when `b` has no dot, is the one between them.
proof fn lemma_last_dot_of_dotted(a: Seq<char>, b: Seq<char>)
    requires
        forall|i: int| 0 <= i < b.len() ==> b[i] != '.',
    ensures
        last_index_of(dotted(a, b), '.') == a.len(),
{
    let s = dotted(a, b);
    lemma_last_index_of(s, '.');
    let l = last_index_of(s, '.');
    assert(s[a.len() as int] == '.');
    if l > a.len() {
        assert(s[l] == b[l - a.len() - 1]);
    }
}

/// The class name of the id that a class statement gets is the name of the
/// class, for every class name without a dot.
pub proof fn lemma_class_name_of_class_id(root: PathView, current: PathView, name: Seq<char>)
    requires
        forall|i: int| 0 <= i < name.len() ==> name[i] != '.',
    ensures
        spec_class_name(spec_class_id(root, current, name)) == name,
{
    let id = spec_class_id(root, current, name);
    let fname = match spec_file_name(current) {
        Some(n) => n,
        None => Seq::<char>::empty(),
    };
    let m = choose|m: Seq<char>| id == dotted(m, name);
    assert(exists|m: Seq<char>| id == dotted(m, name));
    lemma_last_dot_of_dotted(m, name);
    assert(id.subrange(m.len() + 1 as int, id.len() as int) =~= name);
}

/// After `import name as alias`, later imports aside, `alias` stands for
/// `name`: each bound name stands for the module of its last binding.
pub proof fn lemma_import_binds_module(
    m: Map<Seq<char>, Seq<char>>,
    names: Seq<ImportAlias>,
    i: int,
)
    requires
        0 <= i < names.len(),
        forall|j: int| i < j < names.len() ==> bound_name(names[j]) != bound_name(names[i]),
    ensures
        bind_modules(m, names).dom().contains(bound_name(names[i])),
        bind_modules(m, names)[bound_name(names[i])] == names[i].name@,
    decreases names.len(),
{
    if i < names.len() - 1 {
        assert forall|j: int| i < j < names.drop_last().len() implies bound_name(
            names.drop_last()[j],
        ) != bound_name(names.drop_last()[i]) by {
            assert(names.drop_last()[j] == names[j]);
        }
        lemma_import_binds_module(m, names.drop_last(), i);
        assert(names.drop_last()[i] == names[i]);
        assert(bound_name(names.last()) != bound_name(names[i]));
    }
}

/// After `from module import name as alias`, later imports aside, `alias`
/// stands for `module.name`.
pub proof fn lemma_from_import_binds_item(
    m: Map<Seq<char>, Seq<char>>,
    module: Seq<char>,
    names: Seq<ImportAlias>,
    i: int,
)
    requires
        0 <= i < names.len(),
        forall|j: int| i < j < names.len() ==> bound_name(names[j]) != bound_name(names[i]),
    ensures
        bind_items(m, module, names).dom().contains(bound_name(names[i])),
        bind_items(m, module, names)[bound_name(names[i])] == dotted(module, names[i].name@),
    decreases names.len(),
{
    if i < names.len() - 1 {
        assert forall|j: int| i < j < names.drop_last().len() implies bound_name(
            names.drop_last()[j],
        ) != bound_name(names.drop_last()[i]) by {
            assert(names.drop_last()[j] == names[j]);
        }
        lemma_from_import_binds_item(m, module, names.drop_last(), i);
        assert(names.drop_last()[i] == names[i]);
        assert(bound_name(names.last()) != bound_name(names[i]));
    }
}

/// An `import` statement only adds bindings: an alias bound before it that the
/// statement does not bind again keeps its module.
pub proof fn lemma_import_keeps_other_aliases(
    m: Map<Seq<char>, Seq<char>>,
    names: Seq<ImportAlias>,
    k: Seq<char>,
)
    requires
        m.dom().contains(k),
        forall|j: int| 0 <= j < names.len() ==> bound_name(#[trigger] names[j]) != k,
    ensures
        bind_modules(m, names).dom().contains(k),
        bind_modules(m, names)[k] == m[k],
    decreases names.len(),
{
    if names.len() > 0 {
        assert forall|j: int| 0 <= j < names.drop_last().len() implies bound_name(
            #[trigger] names.drop_last()[j],
        ) != k by {
            assert(names.drop_last()[j] == names[j]);
        }
        lemma_import_keeps_other_aliases(m, names.drop_last(), k);
        assert(bound_name(names[names.len() - 1]) != k);
    }
}

/// A `from ... import` statement only adds bindings: a name bound before it
/// that the statement does not bind again keeps its full name.
pub proof fn lemma_from_import_keeps_other_items(
    m: Map<Seq<char>, Seq<char>>,
    module: Seq<char>,
    names: Seq<ImportAlias>,
    k: Seq<char>,
)
    requires
        m.dom().contains(k),
        forall|j: int| 0 <= j < names.len() ==> bound_name(#[trigger] names[j]) != k,
    ensures
        bind_items(m, module, names).dom().contains(k),
        bind_items(m, module, names)[k] == m[k],
    decreases names.len(),
{
    if names.len() > 0 {
        assert forall|j: int| 0 <= j < names.drop_last().len() implies bound_name(
            #[trigger] names.drop_last()[j],
        ) != k by {
            assert(names.drop_last()[j] == names[j]);
        }
        lemma_from_import_keeps_other_items(m, module, names.drop_last(), k);
        assert(bound_name(names[names.len() - 1]) != k);
    }
}

/// In a file, a `from ... import` statement leaves the full name of every
/// name imported before and not imported again, and so how that name
/// resolves as a base class.
pub proof fn lemma_from_import_keeps_earlier_names(
    prev: ImportsView,
    root: PathView,
    current: PathView,
    node: ImportFromStmt,
    k: Seq<char>,
)
    requires
        prev.items.dom().contains(k),
        forall|j: int| 0 <= j < node.names@.len() ==> bound_name(#[trigger] node.names@[j]) != k,
    ensures
        spec_import_from(prev, root, current, node).items.dom().contains(k),
        spec_import_from(prev, root, current, node).items[k] == prev.items[k],
        spec_resolve_name(
            spec_import_from(prev, root, current, node).items,
            spec_import_from(prev, root, current, node).aliases,
            k,
        ) == Some(prev.items[k]),
{
    match node.module {
        None => {},
        Some(m) => {
            let module = if m@.len() > 0 && m@[0] == '.' {
                spec_path_to_module_name(root, spec_relative_target(m@, current))
            } else {
                m@
            };
            lemma_from_import_keeps_other_items(prev.items, module, node.names@, k);
        },
    }
}

/// In a file, an `import` statement leaves every alias bound before and not
/// bound again, and so how `alias.Name` resolves as a base class.
pub proof fn lemma_import_keeps_attribute_resolution(
    aliases: Map<Seq<char>, Seq<char>>,
    names: Seq<ImportAlias>,
    alias: Seq<char>,
    attr: Seq<char>,
)
    requires
        aliases.dom().contains(alias),
        forall|j: int| 0 <= j < names.len() ==> bound_name(#[trigger] names[j]) != alias,
    ensures
        spec_resolve_attribute(bind_modules(aliases, names), alias, attr) == spec_resolve_attribute(
            aliases,
            alias,
            attr,
        ),
        spec_resolve_attribute(bind_modules(aliases, names), alias, attr) == Some(
            dotted(aliases[alias], attr),
        ),
{
    lemma_import_keeps_other_aliases(aliases, names, alias);
}

/// A name recorded by a from-import resolves to the full name recorded for
/// it, whatever module aliases there are.
pub proof fn lemma_resolve_recorded_item(
    items: Map<Seq<char>, Seq<char>>,
    aliases: Map<Seq<char>, Seq<char>>,
    name: Seq<char>,
    full_path: Seq<char>,
)
    ensures
        spec_resolve_name(items.insert(name, full_path), aliases, name) == Some(full_path),
{
}

/// A recorded module alias resolves to its module, unless an imported name
/// of the same spelling comes first; an attribute of it resolves to the
/// attribute of that module.
pub proof fn lemma_resolve_recorded_alias(
    items: Map<Seq<char>, Seq<char>>,
    aliases: Map<Seq<char>, Seq<char>>,
    alias: Seq<char>,
    module: Seq<char>,
    attr: Seq<char>,
)
    ensures
        !items.dom().contains(alias) ==> spec_resolve_name(items, aliases.insert(alias, module), alias)
            == Some(module),
        spec_resolve_attribute(aliases.insert(alias, module), alias, attr) == Some(
            dotted(module, attr),
        ),
{
}

/// The search for classes deriving from `base` finds something exactly when
/// `target` inherits from `base` through known classes, and everything it
/// finds is a stored definition that names `base` among its parents.
pub proof fn lemma_search_finds_derived_classes<N>(
    v: &ClassVisitor<N>,
    target: Seq<char>,
    base: Seq<char>,
)
    requires
        v.wf(),
        v.search_ends(target, base),
    ensures
        v.spec_class_defs_of_base(target, base).len() > 0 <==> exists|k: nat|
            derives_from(v.defs(), base, target, k),
        forall|j: int|
            0 <= j < v.spec_class_defs_of_base(target, base).len() ==> direct_child(
                v.defs(),
                base,
                #[trigger] v.spec_class_defs_of_base(target, base)[j],
            ),
{
    v.lemma_consistent();
    let defs = v.defs();
    let k = choose|k: nat| search_bounded(defs, Map::empty(), base, target, k);
    lemma_fresh_search(defs, base, target, k);
    if exists|k3: nat| derives_from(defs, base, target, k3) {
        let k3 = choose|k3: nat| derives_from(defs, base, target, k3);
        lemma_derives_within_bound(defs, base, target, k, k3);
    }
}

/// Every stored class met on the way up from `target` (through known classes
/// other than `base`) that names `base` among its parents is among what the
/// search for classes deriving from `base` finds: no branch of the ancestry
/// is left out.
pub proof fn lemma_search_finds_every_derived_class<N>(
    v: &ClassVisitor<N>,
    target: Seq<char>,
    base: Seq<char>,
    k: nat,
    y: Seq<char>,
)
    requires
        v.wf(),
        v.search_ends(target, base),
        met_in_search(v.defs(), base, target, k, y),
        v.defs().dom().contains(y),
        v.defs()[y].parent_ids.contains(base),
    ensures
        v.spec_class_defs_of_base(target, base).contains(v.defs()[y]),
{
    let defs = v.defs();
    let kb = choose|kb: nat| search_bounded(defs, Map::empty(), base, target, kb);
    lemma_search_finds_every_met_child(defs, base, target, kb, k, y);
}

/// What the searches from each of `parents` give, one after another.
pub open spec fn results_of_parents<N>(
    v: &ClassVisitor<N>,
    parents: Seq<Seq<char>>,
    base: Seq<char>,
) -> Seq<ClassDefView>
    decreases parents.len(),
{
    if parents.len() == 0 {
        Seq::empty()
    } else {
        results_of_parents(v, parents.drop_last(), base) + v.spec_class_defs_of_base(
            parents.last(),
            base,
        )
    }
}

/// The search from a known class other than `base` gives the class itself,
/// when it names `base` among its parents, followed by what the searches
/// from each of its parents give, in the order of the parents.
pub proof fn lemma_search_through_parents<N>(v: &ClassVisitor<N>, target: Seq<char>, base: Seq<char>)
    requires
        v.wf(),
        v.search_ends(target, base),
        v.defs().dom().contains(target),
        target != base,
    ensures
        forall|i: int|
            0 <= i < v.defs()[target].parent_ids.len() ==> v.search_ends(
                #[trigger] v.defs()[target].parent_ids[i],
                base,
            ),
        v.spec_class_defs_of_base(target, base) == (if v.defs()[target].parent_ids.contains(base) {
            seq![v.defs()[target]]
        } else {
            Seq::<ClassDefView>::empty()
        }) + results_of_parents(v, v.defs()[target].parent_ids, base),
{
    let defs = v.defs();
    let empty = Map::<Seq<char>, Seq<ClassDefView>>::empty();
    let ps = defs[target].parent_ids;
    let kb = choose|kb: nat| search_bounded(defs, empty, base, target, kb);
    assert(search_bounded(defs, empty, base, target, kb));
    assert(expanding(defs, empty, base, target));
    assert(kb > 0);
    assert forall|i: int| 0 <= i < ps.len() implies v.search_ends(#[trigger] ps[i], base) by {
        assert(search_bounded(defs, empty, base, ps[i], (kb - 1) as nat));
    }
    lemma_parents_results(v, base, ps, (kb - 1) as nat);
}

/// Within a bound that covers each of `xs`, the bounded search over `xs` gives
/// what the searches from each of them give.
proof fn lemma_parents_results<N>(
    v: &ClassVisitor<N>,
    base: Seq<char>,
    xs: Seq<Seq<char>>,
    k: nat,
)
    requires
        forall|i: int|
            0 <= i < xs.len() ==> search_bounded(v.defs(), Map::empty(), base, #[trigger] xs[i], k),
    ensures
        defs_of_base_list(v.defs(), Map::empty(), base, xs, k) == results_of_parents(v, xs, base),
    decreases xs.len(),
{
    if xs.len() > 0 {
        let defs = v.defs();
        let empty = Map::<Seq<char>, Seq<ClassDefView>>::empty();
        let init = xs.drop_last();
        assert forall|i: int| 0 <= i < init.len() implies search_bounded(
            defs,
            empty,
            base,
            #[trigger] init[i],
            k,
        ) by {
            assert(init[i] == xs[i]);
        }
        lemma_parents_results(v, base, init, k);
        let x = xs.last();
        assert(search_bounded(defs, empty, base, xs[xs.len() - 1], k));
        let kx = choose|kx: nat| search_bounded(defs, empty, base, x, kx);
        assert(search_bounded(defs, empty, base, x, kx));
        if k <= kx {
            lemma_more_levels(defs, empty, base, x, k, kx);
        } else {
            lemma_more_levels(defs, empty, base, x, kx, k);
        }
    }
}

/// Paths as components: a root only first, a `.` only first.
pub open spec fn path_well_formed(p: PathView) -> bool {
    forall|i: int|
        0 < i < p.len() ==> p[i] != ComponentView::RootDir && p[i] != ComponentView::CurDir
}

/// Joining a directory with a path relative to it gives the path back.
pub proof fn lemma_join_strip_prefix(p: PathView, base: PathView)
    requires
        path_well_formed(p),
        base.len() > 0,
        spec_strip_prefix(p, base) is Some,
    ensures
        spec_join(base, spec_strip_prefix(p, base).unwrap()) == p,
{
    let rel = p.skip(base.len() as int);
    if rel.len() > 0 {
        assert(rel[0] == p[base.len() as int]);
    }
    assert(base + rel =~= p);
}

/// Giving a file the extension it already has leaves it unchanged.
proof fn lemma_with_same_extension(p: PathView, ext: Seq<char>)
    requires
        spec_extension(p) == Some(ext),
        ext.len() > 0,
    ensures
        spec_with_extension(p, ext) == p,
{
    let n = spec_file_name(p).unwrap();
    lemma_last_index_of(n, '.');
    let i = last_index_of(n, '.');
    assert(dotted(spec_name_stem(n), ext) =~= n);
    assert(p.drop_last().push(ComponentView::Normal(n)) =~= p);
}

/// The factory module of a Python file of the package lies at the same place
/// relative to the output directory as the file relative to the package
/// directory.
pub proof fn lemma_factory_file_mirrors_source(
    module_dir: PathView,
    output_dir: PathView,
    file: PathView,
)
    requires
        path_well_formed(file),
        module_dir.len() > 0,
        output_dir.len() > 0,
        spec_strip_prefix(file, module_dir) is Some,
        file.len() > module_dir.len(),
        spec_extension(file) == Some(seq!['p', 'y']),
    ensures
        spec_factory_file(module_dir, output_dir, file) is Some,
        spec_strip_prefix(spec_factory_file(module_dir, output_dir, file).unwrap(), output_dir)
            == spec_strip_prefix(file, module_dir),
{
    let rel = file.skip(module_dir.len() as int);
    assert(rel[0] == file[module_dir.len() as int]);
    let joined = spec_join(output_dir, rel);
    assert(joined == output_dir + rel);
    assert(joined.last() == file.last());
    assert(spec_extension(joined) == spec_extension(file));
    lemma_with_same_extension(joined, seq!['p', 'y']);
    assert(output_dir.is_prefix_of(joined));
    assert(joined.skip(output_dir.len() as int) =~= rel);
}

/// Below the output directory `from`, the directories are prepared from
/// `from` (creating its missing parents) down to the target, one name at a
/// time, each getting an `__init__.py`.
pub proof fn lemma_prepare_dirs_below(from: PathView, extra: PathView)
    requires
        forall|i: int| 0 <= i < extra.len() ==> extra[i] != ComponentView::RootDir,
    ensures
        spec_prepare_dirs(from, from + extra) == Seq::new(
            (extra.len() + 1) as nat,
            |j: int| WriteActionView::PrepareDir(from + extra.take(j), j == 0),
        ),
    decreases extra.len(),
{
    let target = from + extra;
    if extra.len() == 0 {
        assert(target =~= from);
        assert(extra.take(0) =~= extra);
        assert(spec_prepare_dirs(from, target) =~= Seq::new(
            1,
            |j: int| WriteActionView::PrepareDir(from + extra.take(j), j == 0),
        ));
    } else {
        assert(target != from) by {
            assert(target.len() != from.len());
        }
        let shorter = extra.drop_last();
        assert forall|i: int| 0 <= i < shorter.len() implies shorter[i] != ComponentView::RootDir by {
            assert(shorter[i] == extra[i]);
        }
        lemma_prepare_dirs_below(from, shorter);
        assert(target.drop_last() =~= from + shorter);
        assert(target.last() == extra.last());
        let prev = Seq::new(
            (shorter.len() + 1) as nat,
            |j: int| WriteActionView::PrepareDir(from + shorter.take(j), j == 0),
        );
        assert forall|j: int| 0 <= j <= shorter.len() implies shorter.take(j) =~= extra.take(j) by {}
        assert(extra.take(extra.len() as int) =~= extra);
        assert(prev + seq![WriteActionView::PrepareDir(target, false)] =~= Seq::new(
            (extra.len() + 1) as nat,
            |j: int| WriteActionView::PrepareDir(from + extra.take(j), j == 0),
        ));
    }
}

/// The factory code of a file grows class by class: once the codes so far
/// give some text, one more present code is added after a blank line, however
/// many codes came before.
pub proof fn lemma_combined_code_appends(codes: Seq<Option<String>>, c: String)
    requires
        spec_combined_code(codes) is Some,
    ensures
        spec_combined_code(codes.push(Some(c))) == Some(
            spec_combined_code(codes).unwrap() + seq!['\n', '\n'] + c@,
        ),
{
    let p = present_codes(codes);
    assert(codes.push(Some(c)).drop_last() =~= codes);
    assert(present_codes(codes.push(Some(c))) == p.push(c@));
    assert(p.len() > 0);
    assert(p.push(c@).drop_last() =~= p);
    assert(p.push(c@).len() >= 2);
}

/// A class without code leaves the factory code of its file as it was.
pub proof fn lemma_combined_code_skips_absent(codes: Seq<Option<String>>)
    ensures
        spec_combined_code(codes.push(None)) == spec_combined_code(codes),
{
    assert(codes.push(None).drop_last() =~= codes);
    assert(present_codes(codes.push(None)) == present_codes(codes));
}

/// The factory code of a file with one present code is that code, when it
/// is not empty.
pub proof fn lemma_combined_code_single(c: String)
    requires
        c@.len() > 0,
    ensures
        spec_combined_code(seq![Some(c)]) == Some(c@),
{
    let codes = seq![Some(c)];
    assert(codes.drop_last() =~= Seq::<Option<String>>::empty());
    assert(present_codes(codes.drop_last()) =~= Seq::<Seq<char>>::empty());
    assert(codes.last() == Some(c));
    assert(present_codes(codes) =~= seq![c@]);
}

/// For a file with code at `dirs/name` under the package directory, the
/// factory module goes to `dirs/<stem of name>.py` under the output
/// directory, and before it is written every directory from the output
/// directory down to its own is prepared, one name at a time (the output
/// directory first, with its missing parents).
pub proof fn lemma_file_actions_prepare_every_dir(
    module_dir: PathView,
    output_dir: PathView,
    f: RenderedFile,
    c: String,
    dirs: PathView,
    name: Seq<char>,
)
    requires
        f.outcome == RenderOutcome::Code(c),
        f.path@ == module_dir + dirs.push(ComponentView::Normal(name)),
        forall|i: int|
            0 <= i < dirs.len() ==> #[trigger] dirs[i] != ComponentView::RootDir && dirs[i]
                != ComponentView::CurDir,
    ensures
        spec_file_actions(module_dir, output_dir, f) == Seq::new(
            (dirs.len() + 1) as nat,
            |j: int| WriteActionView::PrepareDir(output_dir + dirs.take(j), j == 0),
        ).push(
            WriteActionView::WriteFile(
                output_dir + dirs.push(
                    ComponentView::Normal(dotted(spec_name_stem(name), seq!['p', 'y'])),
                ),
                c@,
            ),
        ),
{
    let rel = dirs.push(ComponentView::Normal(name));
    let path = f.path@;
    assert(module_dir.is_prefix_of(path));
    assert(path.skip(module_dir.len() as int) =~= rel);
    assert(spec_strip_prefix(path, module_dir) == Some(rel));
    if rel[0] == ComponentView::RootDir || rel[0] == ComponentView::CurDir {
        assert(dirs.len() > 0);
        assert(rel[0] == dirs[0]);
    }
    assert(spec_join(output_dir, rel) == output_dir + rel);
    let joined = output_dir + rel;
    assert(joined.last() == ComponentView::Normal(name));
    assert(joined.drop_last() =~= output_dir + dirs);
    let target = output_dir + dirs.push(
        ComponentView::Normal(dotted(spec_name_stem(name), seq!['p', 'y'])),
    );
    assert(spec_with_extension(joined, seq!['p', 'y']) =~= target);
    assert(spec_factory_file(module_dir, output_dir, path) == Some(target));
    assert(target.drop_last() =~= output_dir + dirs);
    assert(spec_parent(target) == Some(output_dir + dirs));
    assert forall|i: int| 0 <= i < dirs.len() implies dirs[i] != ComponentView::RootDir by {}
    lemma_prepare_dirs_below(output_dir, dirs);
}

} // verus!
