//! Class definitions found in a Python package and the ids of their parents.

use vstd::prelude::*;
use crate::assoc::AssocMap;
use vstd::std_specs::cmp::PartialEqSpecImpl;
use crate::imports::{
    bind_items, bind_modules, first_part, spec_resolve_attribute, spec_resolve_name, module_parts, module_parts_of, spec_path_to_module_name,
    spec_relative_target, FileImports, ImportFromStmt, ImportStmt,
};
use crate::path::{spec_file_name, spec_parent, spec_strip_prefix, PathView, PyPath};
use crate::strings::{dotted, join_dotted, join_dots, join_with_dots, trim_py, trim_py_suffix};

verus! {

/// A class identifier: the dotted module name followed by the class name.
pub type ClassID = String;

/// A base class expression of a class statement, as far as it names a class.
#[derive(Debug)]
pub enum BaseExpr {
    /// A bare name: `class A(Base)`.
    Name(String),
    /// An attribute of a name: `class A(pa.DataFrameModel)` is `Attribute("pa", "DataFrameModel")`.
    Attribute(String, String),
    /// Any other expression (`a.b.C`, a call, a subscript, ...).
    Other,
}

/// A `class name(bases): ...` statement; `node` is the statement itself,
/// carried along for later use.
#[derive(Debug)]
pub struct ClassDefStmt<N> {
    pub name: String,
    pub bases: Vec<BaseExpr>,
    pub node: N,
}

/// The abstract value of a class definition.
pub struct ClassDefView {
    pub id: Seq<char>,
    pub name: Seq<char>,
    pub module_file: PathView,
    pub parent_ids: Seq<Seq<char>>,
}

/// A class definition found in the package.
#[derive(Debug)]
pub struct ClassDef<N> {
    /// Unique identifier: the module name of the file and the class name.
    pub id: String,
    /// Name of the class.
    pub name: String,
    /// The file where the class is defined.
    pub module_file: PyPath,
    /// The class statement.
    pub stmt_class_def: N,
    /// Identifiers of the parent classes, in the order of the bases.
    pub parent_ids: Vec<String>,
}

/// The views of a list of strings.
pub open spec fn texts(v: Seq<String>) -> Seq<Seq<char>> {
    v.map_values(|s: String| s@)
}

impl<N> View for ClassDef<N> {
    type V = ClassDefView;

    /// Everything but the statement: what two definitions are compared by.
    open spec fn view(&self) -> ClassDefView {
        ClassDefView {
            id: self.id@,
            name: self.name@,
            module_file: self.module_file@,
            parent_ids: texts(self.parent_ids@),
        }
    }
}

/// A copy of a list of strings.
pub fn copy_strings(v: &Vec<String>) -> (r: Vec<String>)
    ensures
        texts(r@) == texts(v@),
{
    let mut r: Vec<String> = Vec::new();
    let n = v.len();
    let mut i: usize = 0;
    while i < n
        invariant
            n == v@.len(),
            i <= n,
            r@.len() == i,
            forall|j: int| 0 <= j < i ==> r@[j]@ == v@[j]@,
        decreases n - i,
    {
        r.push(v[i].clone());
        i = i + 1;
    }
    assert(texts(r@) =~= texts(v@));
    r
}

/// Whether two lists of strings are equal.
pub fn strings_equal(a: &Vec<String>, b: &Vec<String>) -> (r: bool)
    ensures
        r == (texts(a@) == texts(b@)),
{
    let n = a.len();
    if n != b.len() {
        assert(texts(a@).len() != texts(b@).len());
        return false;
    }
    let mut i: usize = 0;
    while i < n
        invariant
            n == a@.len() == b@.len(),
            i <= n,
            forall|j: int| 0 <= j < i ==> a@[j]@ == b@[j]@,
        decreases n - i,
    {
        if !a[i].eq(&b[i]) {
            assert(texts(a@)[i as int] != texts(b@)[i as int]);
            return false;
        }
        i = i + 1;
    }
    assert(texts(a@) =~= texts(b@));
    true
}

impl<N> PartialEq for ClassDef<N> {
    /// Definitions are compared by id, name, file and parent ids; the
    /// statements are left aside.
    fn eq(&self, other: &Self) -> (r: bool) {
        self.id.eq(&other.id) && self.name.eq(&other.name) && self.module_file.same(
            &other.module_file,
        ) && strings_equal(&self.parent_ids, &other.parent_ids)
    }
}

impl<N> PartialEqSpecImpl for ClassDef<N> {
    open spec fn obeys_eq_spec() -> bool {
        true
    }

    open spec fn eq_spec(&self, other: &ClassDef<N>) -> bool {
        self@ == other@
    }
}

impl<N: Clone> ClassDef<N> {
    /// A copy of this definition, with a clone of its statement.
    pub fn duplicate(&self) -> (r: ClassDef<N>)
        ensures
            r@ == self@,
            cloned::<N>(self.stmt_class_def, r.stmt_class_def),
    {
        ClassDef {
            id: self.id.clone(),
            name: self.name.clone(),
            module_file: self.module_file.duplicate(),
            stmt_class_def: self.stmt_class_def.clone(),
            parent_ids: copy_strings(&self.parent_ids),
        }
    }
}

/// The identifier of the class `class_name` defined in the file `current` of
/// the package rooted at `root`: the module name of `current` relative to the
/// directory holding `root` (its file name when it lies elsewhere), a dot, and
/// the class name.
pub open spec fn spec_class_id(root: PathView, current: PathView, class_name: Seq<char>) -> Seq<
    char,
> {
    let fname = match spec_file_name(current) {
        Some(n) => n,
        None => Seq::empty(),
    };
    match spec_strip_prefix(current, spec_parent(root).unwrap()) {
        None => dotted(fname, class_name),
        Some(rel) => {
            let parts = module_parts(rel);
            dotted(
                if parts.len() > 0 {
                    join_dots(parts)
                } else {
                    trim_py(fname)
                },
                class_name,
            )
        },
    }
}

/// The imports of one file, as maps of names.
pub struct ImportsView {
    pub aliases: Map<Seq<char>, Seq<char>>,
    pub items: Map<Seq<char>, Seq<char>>,
}

/// The imports of a file before any import.
pub open spec fn no_imports() -> ImportsView {
    ImportsView { aliases: Map::empty(), items: Map::empty() }
}

/// The identifier that a base expression stands for, if it names a class: an
/// imported name gives the full name it was imported as, a module alias the
/// module; another bare name is taken to be a class of the current file; `alias.Name` goes through the
/// module that `alias` stands for, or stays as written.
pub open spec fn spec_base_id(
    imports: ImportsView,
    root: PathView,
    current: PathView,
    base: BaseExpr,
) -> Option<Seq<char>> {
    match base {
        BaseExpr::Name(n) => Some(
            match spec_resolve_name(imports.items, imports.aliases, n@) {
                Some(full) => full,
                None => spec_class_id(root, current, n@),
            },
        ),
        BaseExpr::Attribute(v, a) => Some(
            match spec_resolve_attribute(imports.aliases, v@, a@) {
                Some(full) => full,
                None => dotted(v@, a@),
            },
        ),
        BaseExpr::Other => None,
    }
}

/// The parent identifiers of a class with bases `bases`, in order.
pub open spec fn spec_parent_ids(
    imports: ImportsView,
    root: PathView,
    current: PathView,
    bases: Seq<BaseExpr>,
) -> Seq<Seq<char>>
    decreases bases.len(),
{
    if bases.len() == 0 {
        Seq::empty()
    } else {
        let rest = spec_parent_ids(imports, root, current, bases.drop_last());
        match spec_base_id(imports, root, current, bases.last()) {
            Some(id) => rest.push(id),
            None => rest,
        }
    }
}

/// Whether `x` is looked into by the search for classes deriving from `base`:
/// it is not cached, is not `base`, and is a known class.
pub open spec fn expanding(
    defs: Map<Seq<char>, ClassDefView>,
    cache: Map<Seq<char>, Seq<ClassDefView>>,
    base: Seq<char>,
    x: Seq<char>,
) -> bool {
    !cache.dom().contains(x) && x != base && defs.dom().contains(x)
}

/// The search from `x` ends within `k` levels: no path of looked-into classes
/// from `x` is longer than `k`.
pub open spec fn search_bounded(
    defs: Map<Seq<char>, ClassDefView>,
    cache: Map<Seq<char>, Seq<ClassDefView>>,
    base: Seq<char>,
    x: Seq<char>,
    k: nat,
) -> bool
    decreases k,
{
    if !expanding(defs, cache, base, x) {
        true
    } else if k == 0 {
        false
    } else {
        forall|i: int|
            0 <= i < defs[x].parent_ids.len() ==> search_bounded(
                defs,
                cache,
                base,
                #[trigger] defs[x].parent_ids[i],
                (k - 1) as nat,
            )
    }
}

/// The classes on the way from `x` up its ancestry that name `base` among
/// their parents, searched within `k` levels: a cached class gives its cached
/// list; `base` and unknown classes give none; otherwise `x` itself when it
/// names `base`, followed by what each parent gives, in order.
pub open spec fn defs_of_base(
    defs: Map<Seq<char>, ClassDefView>,
    cache: Map<Seq<char>, Seq<ClassDefView>>,
    base: Seq<char>,
    x: Seq<char>,
    k: nat,
) -> Seq<ClassDefView>
    decreases k, 0nat,
{
    if cache.dom().contains(x) {
        cache[x]
    } else if x == base || !defs.dom().contains(x) || k == 0 {
        Seq::empty()
    } else {
        (if defs[x].parent_ids.contains(base) {
            seq![defs[x]]
        } else {
            Seq::empty()
        }) + defs_of_base_list(defs, cache, base, defs[x].parent_ids, (k - 1) as nat)
    }
}

/// What `defs_of_base` gives for each of `xs`, concatenated in order.
pub open spec fn defs_of_base_list(
    defs: Map<Seq<char>, ClassDefView>,
    cache: Map<Seq<char>, Seq<ClassDefView>>,
    base: Seq<char>,
    xs: Seq<Seq<char>>,
    k: nat,
) -> Seq<ClassDefView>
    decreases k, xs.len() + 1,
{
    if xs.len() == 0 {
        Seq::empty()
    } else {
        defs_of_base_list(defs, cache, base, xs.drop_last(), k) + defs_of_base(
            defs,
            cache,
            base,
            xs.last(),
            k,
        )
    }
}

/// Caching more classes keeps a search bounded.
pub proof fn lemma_bounded_more_cached(
    defs: Map<Seq<char>, ClassDefView>,
    c0: Map<Seq<char>, Seq<ClassDefView>>,
    c1: Map<Seq<char>, Seq<ClassDefView>>,
    base: Seq<char>,
    x: Seq<char>,
    k: nat,
)
    requires
        c0.dom().subset_of(c1.dom()),
        search_bounded(defs, c0, base, x, k),
    ensures
        search_bounded(defs, c1, base, x, k),
    decreases k,
{
    if expanding(defs, c1, base, x) {
        assert(expanding(defs, c0, base, x));
        assert forall|i: int| 0 <= i < defs[x].parent_ids.len() implies search_bounded(
            defs,
            c1,
            base,
            #[trigger] defs[x].parent_ids[i],
            (k - 1) as nat,
        ) by {
            lemma_bounded_more_cached(defs, c0, c1, base, defs[x].parent_ids[i], (k - 1) as nat);
        }
    }
}

/// Once a search is bounded, more levels change nothing.
pub proof fn lemma_more_levels(
    defs: Map<Seq<char>, ClassDefView>,
    c: Map<Seq<char>, Seq<ClassDefView>>,
    base: Seq<char>,
    x: Seq<char>,
    k1: nat,
    k2: nat,
)
    requires
        search_bounded(defs, c, base, x, k1),
        k1 <= k2,
    ensures
        search_bounded(defs, c, base, x, k2),
        defs_of_base(defs, c, base, x, k1) == defs_of_base(defs, c, base, x, k2),
    decreases k1, 0nat,
{
    if expanding(defs, c, base, x) {
        let ps = defs[x].parent_ids;
        assert forall|i: int| 0 <= i < ps.len() implies search_bounded(
            defs,
            c,
            base,
            #[trigger] ps[i],
            (k2 - 1) as nat,
        ) by {
            lemma_more_levels(defs, c, base, ps[i], (k1 - 1) as nat, (k2 - 1) as nat);
        }
        lemma_more_levels_list(defs, c, base, ps, (k1 - 1) as nat, (k2 - 1) as nat);
    }
}

pub proof fn lemma_more_levels_list(
    defs: Map<Seq<char>, ClassDefView>,
    c: Map<Seq<char>, Seq<ClassDefView>>,
    base: Seq<char>,
    xs: Seq<Seq<char>>,
    k1: nat,
    k2: nat,
)
    requires
        forall|i: int| 0 <= i < xs.len() ==> search_bounded(defs, c, base, #[trigger] xs[i], k1),
        k1 <= k2,
    ensures
        defs_of_base_list(defs, c, base, xs, k1) == defs_of_base_list(defs, c, base, xs, k2),
    decreases k1, xs.len() + 1,
{
    if xs.len() > 0 {
        assert forall|i: int| 0 <= i < xs.drop_last().len() implies search_bounded(
            defs,
            c,
            base,
            #[trigger] xs.drop_last()[i],
            k1,
        ) by {
            assert(xs.drop_last()[i] == xs[i]);
        }
        lemma_more_levels_list(defs, c, base, xs.drop_last(), k1, k2);
        assert(search_bounded(defs, c, base, xs[xs.len() - 1], k1));
        lemma_more_levels(defs, c, base, xs.last(), k1, k2);
    }
}

/// `c1` extends the cache `c0`: it keeps every entry of `c0`, and each new
/// entry holds what a bounded search from `c0` gives.
pub open spec fn coherent(
    defs: Map<Seq<char>, ClassDefView>,
    base: Seq<char>,
    c0: Map<Seq<char>, Seq<ClassDefView>>,
    c1: Map<Seq<char>, Seq<ClassDefView>>,
) -> bool {
    &&& c0.dom().subset_of(c1.dom())
    &&& forall|x: Seq<char>| #[trigger] c0.dom().contains(x) ==> c1[x] == c0[x]
    &&& forall|x: Seq<char>, k: nat|
        #![trigger c1.dom().contains(x), search_bounded(defs, c0, base, x, k)]
        c1.dom().contains(x) && !c0.dom().contains(x) && search_bounded(defs, c0, base, x, k)
            ==> c1[x] == defs_of_base(defs, c0, base, x, k)
}

/// A coherent extension of the cache gives the same bounded search results.
pub proof fn lemma_coherent_same(
    defs: Map<Seq<char>, ClassDefView>,
    base: Seq<char>,
    c0: Map<Seq<char>, Seq<ClassDefView>>,
    c1: Map<Seq<char>, Seq<ClassDefView>>,
    x: Seq<char>,
    k: nat,
)
    requires
        coherent(defs, base, c0, c1),
        search_bounded(defs, c0, base, x, k),
    ensures
        defs_of_base(defs, c1, base, x, k) == defs_of_base(defs, c0, base, x, k),
    decreases k, 0nat,
{
    if c1.dom().contains(x) {
        if !c0.dom().contains(x) {
            assert(c1[x] == defs_of_base(defs, c0, base, x, k));
        }
    } else if expanding(defs, c0, base, x) {
        lemma_coherent_same_list(defs, base, c0, c1, defs[x].parent_ids, (k - 1) as nat);
    }
}

pub proof fn lemma_coherent_same_list(
    defs: Map<Seq<char>, ClassDefView>,
    base: Seq<char>,
    c0: Map<Seq<char>, Seq<ClassDefView>>,
    c1: Map<Seq<char>, Seq<ClassDefView>>,
    xs: Seq<Seq<char>>,
    k: nat,
)
    requires
        coherent(defs, base, c0, c1),
        forall|i: int| 0 <= i < xs.len() ==> search_bounded(defs, c0, base, #[trigger] xs[i], k),
    ensures
        defs_of_base_list(defs, c1, base, xs, k) == defs_of_base_list(defs, c0, base, xs, k),
    decreases k, xs.len() + 1,
{
    if xs.len() > 0 {
        assert forall|i: int| 0 <= i < xs.drop_last().len() implies search_bounded(
            defs,
            c0,
            base,
            #[trigger] xs.drop_last()[i],
            k,
        ) by {
            assert(xs.drop_last()[i] == xs[i]);
        }
        lemma_coherent_same_list(defs, base, c0, c1, xs.drop_last(), k);
        assert(search_bounded(defs, c0, base, xs[xs.len() - 1], k));
        lemma_coherent_same(defs, base, c0, c1, xs.last(), k);
    }
}

pub proof fn lemma_coherent_trans(
    defs: Map<Seq<char>, ClassDefView>,
    base: Seq<char>,
    c0: Map<Seq<char>, Seq<ClassDefView>>,
    c1: Map<Seq<char>, Seq<ClassDefView>>,
    c2: Map<Seq<char>, Seq<ClassDefView>>,
)
    requires
        coherent(defs, base, c0, c1),
        coherent(defs, base, c1, c2),
    ensures
        coherent(defs, base, c0, c2),
{
    assert forall|x: Seq<char>, k: nat|
        c2.dom().contains(x) && !c0.dom().contains(x) && search_bounded(
            defs,
            c0,
            base,
            x,
            k,
        ) implies c2[x] == defs_of_base(defs, c0, base, x, k) by {
        if c1.dom().contains(x) {
            assert(c2[x] == c1[x]);
        } else {
            lemma_bounded_more_cached(defs, c0, c1, base, x, k);
            assert(c2[x] == defs_of_base(defs, c1, base, x, k));
            lemma_coherent_same(defs, base, c0, c1, x, k);
        }
    }
}

/// Adding an entry that holds what a bounded search from `c0` gives keeps a cache coherent.
pub proof fn lemma_coherent_insert(
    defs: Map<Seq<char>, ClassDefView>,
    base: Seq<char>,
    c0: Map<Seq<char>, Seq<ClassDefView>>,
    c1: Map<Seq<char>, Seq<ClassDefView>>,
    t: Seq<char>,
    v: Seq<ClassDefView>,
    k0: nat,
)
    requires
        coherent(defs, base, c0, c1),
        !c0.dom().contains(t),
        search_bounded(defs, c0, base, t, k0),
        v == defs_of_base(defs, c0, base, t, k0),
    ensures
        coherent(defs, base, c0, c1.insert(t, v)),
{
    let c2 = c1.insert(t, v);
    assert forall|x: Seq<char>, k: nat|
        c2.dom().contains(x) && !c0.dom().contains(x) && search_bounded(
            defs,
            c0,
            base,
            x,
            k,
        ) implies c2[x] == defs_of_base(defs, c0, base, x, k) by {
        if x == t {
            if k >= k0 {
                lemma_more_levels(defs, c0, base, t, k0, k);
            } else {
                lemma_more_levels(defs, c0, base, t, k, k0);
            }
        }
    }
}

pub proof fn lemma_coherent_refl(
    defs: Map<Seq<char>, ClassDefView>,
    base: Seq<char>,
    c: Map<Seq<char>, Seq<ClassDefView>>,
)
    ensures
        coherent(defs, base, c, c),
{
}

/// The results held in `cache` for searches for base class `base`, by the
/// class each search started from.
pub open spec fn cached_for(
    cache: Map<(Seq<char>, Seq<char>), Seq<ClassDefView>>,
    base: Seq<char>,
) -> Map<Seq<char>, Seq<ClassDefView>> {
    Map::new(|t: Seq<char>| cache.dom().contains((t, base)), |t: Seq<char>| cache[(t, base)])
}

/// The search from `x` for classes deriving from `base`, with nothing cached,
/// ends: no chain of known classes other than `base` from `x` runs on forever.
pub open spec fn search_ends_fresh(
    defs: Map<Seq<char>, ClassDefView>,
    base: Seq<char>,
    x: Seq<char>,
) -> bool {
    exists|k: nat| search_bounded(defs, Map::empty(), base, x, k)
}

/// What the search from `x` for classes deriving from `base` gives with
/// nothing cached.
pub open spec fn fresh_defs_of_base(
    defs: Map<Seq<char>, ClassDefView>,
    base: Seq<char>,
    x: Seq<char>,
) -> Seq<ClassDefView> {
    defs_of_base(
        defs,
        Map::empty(),
        base,
        x,
        choose|k: nat| search_bounded(defs, Map::empty(), base, x, k),
    )
}

/// The results `c` cached for base class `base` can stand in for a search:
/// each is what the search with nothing cached gives, for a class other than
/// `base` whose search ends; and a cached known class has the results of its
/// parents (other than `base`) cached too.
pub open spec fn cache_valid_for(
    defs: Map<Seq<char>, ClassDefView>,
    base: Seq<char>,
    c: Map<Seq<char>, Seq<ClassDefView>>,
) -> bool {
    &&& coherent(defs, base, Map::empty(), c)
    &&& forall|t: Seq<char>| #[trigger]
        c.dom().contains(t) ==> t != base && search_ends_fresh(defs, base, t)
    &&& forall|t: Seq<char>, i: int|
        #![trigger c.dom().contains(t), defs[t].parent_ids[i]]
        c.dom().contains(t) && defs.dom().contains(t) && 0 <= i < defs[t].parent_ids.len()
            && defs[t].parent_ids[i] != base ==> c.dom().contains(defs[t].parent_ids[i])
}

/// A search that ends with valid cached results also ends with nothing cached.
pub proof fn lemma_ends_fresh(
    defs: Map<Seq<char>, ClassDefView>,
    base: Seq<char>,
    c: Map<Seq<char>, Seq<ClassDefView>>,
    x: Seq<char>,
    k: nat,
) -> (k2: nat)
    requires
        cache_valid_for(defs, base, c),
        search_bounded(defs, c, base, x, k),
    ensures
        search_bounded(defs, Map::empty(), base, x, k2),
    decreases k, 0nat,
{
    if c.dom().contains(x) {
        choose|k2: nat| search_bounded(defs, Map::empty(), base, x, k2)
    } else if !expanding(defs, c, base, x) {
        0
    } else {
        let m = lemma_ends_fresh_list(defs, base, c, defs[x].parent_ids, (k - 1) as nat);
        m + 1
    }
}

pub proof fn lemma_ends_fresh_list(
    defs: Map<Seq<char>, ClassDefView>,
    base: Seq<char>,
    c: Map<Seq<char>, Seq<ClassDefView>>,
    xs: Seq<Seq<char>>,
    k: nat,
) -> (m: nat)
    requires
        cache_valid_for(defs, base, c),
        forall|i: int| 0 <= i < xs.len() ==> search_bounded(defs, c, base, #[trigger] xs[i], k),
    ensures
        forall|i: int|
            0 <= i < xs.len() ==> search_bounded(defs, Map::empty(), base, #[trigger] xs[i], m),
    decreases k, xs.len() + 1,
{
    if xs.len() == 0 {
        0
    } else {
        let init = xs.drop_last();
        assert forall|i: int| 0 <= i < init.len() implies search_bounded(
            defs,
            c,
            base,
            #[trigger] init[i],
            k,
        ) by {
            assert(init[i] == xs[i]);
        }
        let m1 = lemma_ends_fresh_list(defs, base, c, init, k);
        assert(search_bounded(defs, c, base, xs[xs.len() - 1], k));
        let m2 = lemma_ends_fresh(defs, base, c, xs.last(), k);
        let m = if m1 <= m2 {
            m2
        } else {
            m1
        };
        assert forall|i: int| 0 <= i < xs.len() implies search_bounded(
            defs,
            Map::empty(),
            base,
            #[trigger] xs[i],
            m,
        ) by {
            if i < init.len() {
                assert(init[i] == xs[i]);
                lemma_more_levels(defs, Map::empty(), base, xs[i], m1, m);
            } else {
                lemma_more_levels(defs, Map::empty(), base, xs[i], m2, m);
            }
        }
        m
    }
}

/// `y` is met by the search for classes deriving from `base` that starts at
/// `x`, within `k` levels: `y` is not `base`, and it is `x` or is met from a
/// parent of `x`, where `x` is a known class other than `base`.
pub open spec fn met_in_search(
    defs: Map<Seq<char>, ClassDefView>,
    base: Seq<char>,
    x: Seq<char>,
    k: nat,
    y: Seq<char>,
) -> bool
    decreases k,
{
    y != base && (y == x || (x != base && defs.dom().contains(x) && k > 0 && exists|i: int|
        0 <= i < defs[x].parent_ids.len() && met_in_search(
            defs,
            base,
            #[trigger] defs[x].parent_ids[i],
            (k - 1) as nat,
            y,
        )))
}

/// Every class met from a cached class has a cached result.
pub proof fn lemma_met_cached(
    defs: Map<Seq<char>, ClassDefView>,
    base: Seq<char>,
    c: Map<Seq<char>, Seq<ClassDefView>>,
    x: Seq<char>,
    k: nat,
    y: Seq<char>,
)
    requires
        cache_valid_for(defs, base, c),
        c.dom().contains(x),
        met_in_search(defs, base, x, k, y),
    ensures
        c.dom().contains(y),
    decreases k,
{
    if y != x {
        let ps = defs[x].parent_ids;
        let i = choose|i: int|
            0 <= i < ps.len() && met_in_search(defs, base, #[trigger] ps[i], (k - 1) as nat, y);
        assert(ps[i] != base);
        assert(c.dom().contains(ps[i]));
        lemma_met_cached(defs, base, c, ps[i], (k - 1) as nat, y);
    }
}

/// What the search gives for one of `xs` is part of what it gives for all of them.
pub proof fn lemma_list_holds_each(
    defs: Map<Seq<char>, ClassDefView>,
    cache: Map<Seq<char>, Seq<ClassDefView>>,
    base: Seq<char>,
    xs: Seq<Seq<char>>,
    k: nat,
    i: int,
    e: ClassDefView,
)
    requires
        0 <= i < xs.len(),
        defs_of_base(defs, cache, base, xs[i], k).contains(e),
    ensures
        defs_of_base_list(defs, cache, base, xs, k).contains(e),
    decreases xs.len(),
{
    let init = xs.drop_last();
    let a = defs_of_base_list(defs, cache, base, init, k);
    let b = defs_of_base(defs, cache, base, xs.last(), k);
    assert(defs_of_base_list(defs, cache, base, xs, k) == a + b);
    if i == xs.len() - 1 {
        let j = choose|j: int| 0 <= j < b.len() && b[j] == e;
        assert((a + b)[a.len() + j] == e);
    } else {
        assert(init[i] == xs[i]);
        lemma_list_holds_each(defs, cache, base, init, k, i, e);
        let j = choose|j: int| 0 <= j < a.len() && a[j] == e;
        assert((a + b)[j] == e);
    }
}

/// A search with nothing cached finds every known class it meets that names
/// `base` among its parents.
pub proof fn lemma_search_finds_every_met_child(
    defs: Map<Seq<char>, ClassDefView>,
    base: Seq<char>,
    x: Seq<char>,
    kb: nat,
    k: nat,
    y: Seq<char>,
)
    requires
        search_bounded(defs, Map::empty(), base, x, kb),
        met_in_search(defs, base, x, k, y),
        defs.dom().contains(y),
        defs[y].parent_ids.contains(base),
    ensures
        defs_of_base(defs, Map::empty(), base, x, kb).contains(defs[y]),
    decreases k,
{
    let empty = Map::<Seq<char>, Seq<ClassDefView>>::empty();
    let ps = defs[x].parent_ids;
    if y == x {
        assert(expanding(defs, empty, base, x));
        let r = defs_of_base(defs, empty, base, x, kb);
        assert(r == seq![defs[x]] + defs_of_base_list(defs, empty, base, ps, (kb - 1) as nat));
        assert(r[0] == defs[x]);
    } else {
        let i = choose|i: int|
            0 <= i < ps.len() && met_in_search(defs, base, #[trigger] ps[i], (k - 1) as nat, y);
        assert(expanding(defs, empty, base, x));
        assert(search_bounded(defs, empty, base, ps[i], (kb - 1) as nat));
        lemma_search_finds_every_met_child(defs, base, ps[i], (kb - 1) as nat, (k - 1) as nat, y);
        lemma_list_holds_each(defs, empty, base, ps, (kb - 1) as nat, i, defs[y]);
        let direct = if ps.contains(base) {
            seq![defs[x]]
        } else {
            Seq::<ClassDefView>::empty()
        };
        let rest = defs_of_base_list(defs, empty, base, ps, (kb - 1) as nat);
        assert(defs_of_base(defs, empty, base, x, kb) == direct + rest);
        let j = choose|j: int| 0 <= j < rest.len() && rest[j] == defs[y];
        assert((direct + rest)[direct.len() + j] == defs[y]);
    }
}

/// `x` inherits from `base` within `k` levels through known classes other
/// than `base`: it names `base` among its parents, or one of its parents does so.
pub open spec fn derives_from(
    defs: Map<Seq<char>, ClassDefView>,
    base: Seq<char>,
    x: Seq<char>,
    k: nat,
) -> bool
    decreases k,
{
    if x == base || !defs.dom().contains(x) || k == 0 {
        false
    } else {
        defs[x].parent_ids.contains(base) || exists|i: int|
            0 <= i < defs[x].parent_ids.len() && derives_from(
                defs,
                base,
                #[trigger] defs[x].parent_ids[i],
                (k - 1) as nat,
            )
    }
}

/// A definition that names `base` among its parents and is the one stored under its id.
pub open spec fn direct_child(defs: Map<Seq<char>, ClassDefView>, base: Seq<char>, d: ClassDefView) -> bool {
    d.parent_ids.contains(base) && defs.dom().contains(d.id) && defs[d.id] == d
}

/// What a search with nothing cached finds, and when it finds anything.
pub proof fn lemma_fresh_search(
    defs: Map<Seq<char>, ClassDefView>,
    base: Seq<char>,
    x: Seq<char>,
    k: nat,
)
    requires
        forall|id: Seq<char>| #[trigger] defs.dom().contains(id) ==> defs[id].id == id,
    ensures
        defs_of_base(defs, Map::empty(), base, x, k).len() > 0 <==> derives_from(defs, base, x, k),
        forall|j: int|
            0 <= j < defs_of_base(defs, Map::empty(), base, x, k).len() ==> direct_child(
                defs,
                base,
                #[trigger] defs_of_base(defs, Map::empty(), base, x, k)[j],
            ),
    decreases k, 0nat,
{
    if !(x == base || !defs.dom().contains(x) || k == 0) {
        let ps = defs[x].parent_ids;
        lemma_fresh_search_list(defs, base, ps, (k - 1) as nat);
        let r = defs_of_base(defs, Map::empty(), base, x, k);
        let direct = if ps.contains(base) {
            seq![defs[x]]
        } else {
            Seq::<ClassDefView>::empty()
        };
        let rest = defs_of_base_list(defs, Map::empty(), base, ps, (k - 1) as nat);
        assert(r == direct + rest);
        assert forall|j: int| 0 <= j < r.len() implies direct_child(defs, base, #[trigger] r[j]) by {
            if j < direct.len() {
                assert(r[j] == defs[x]);
            } else {
                assert(r[j] == rest[j - direct.len()]);
            }
        }
    }
}

pub proof fn lemma_fresh_search_list(
    defs: Map<Seq<char>, ClassDefView>,
    base: Seq<char>,
    xs: Seq<Seq<char>>,
    k: nat,
)
    requires
        forall|id: Seq<char>| #[trigger] defs.dom().contains(id) ==> defs[id].id == id,
    ensures
        defs_of_base_list(defs, Map::empty(), base, xs, k).len() > 0 <==> exists|i: int|
            0 <= i < xs.len() && derives_from(defs, base, #[trigger] xs[i], k),
        forall|j: int|
            0 <= j < defs_of_base_list(defs, Map::empty(), base, xs, k).len() ==> direct_child(
                defs,
                base,
                #[trigger] defs_of_base_list(defs, Map::empty(), base, xs, k)[j],
            ),
    decreases k, xs.len() + 1,
{
    if xs.len() > 0 {
        let init = xs.drop_last();
        lemma_fresh_search_list(defs, base, init, k);
        lemma_fresh_search(defs, base, xs.last(), k);
        let a = defs_of_base_list(defs, Map::empty(), base, init, k);
        let b = defs_of_base(defs, Map::empty(), base, xs.last(), k);
        let r = defs_of_base_list(defs, Map::empty(), base, xs, k);
        assert(r == a + b);
        assert forall|j: int| 0 <= j < r.len() implies direct_child(defs, base, #[trigger] r[j]) by {
            if j < a.len() {
                assert(r[j] == a[j]);
            } else {
                assert(r[j] == b[j - a.len()]);
            }
        }
        if exists|i: int| 0 <= i < xs.len() && derives_from(defs, base, #[trigger] xs[i], k) {
            let i = choose|i: int| 0 <= i < xs.len() && derives_from(defs, base, #[trigger] xs[i], k);
            if i < xs.len() - 1 {
                assert(init[i] == xs[i]);
            }
        }
        if exists|i: int| 0 <= i < init.len() && derives_from(defs, base, #[trigger] init[i], k) {
            let i = choose|i: int| 0 <= i < init.len() && derives_from(defs, base, #[trigger] init[i], k);
            assert(xs[i] == init[i]);
        }
        assert(xs[xs.len() - 1] == xs.last());
    }
}

/// Within a bounded search, inheriting at any depth means inheriting within the bound.
pub proof fn lemma_derives_within_bound(
    defs: Map<Seq<char>, ClassDefView>,
    base: Seq<char>,
    x: Seq<char>,
    k: nat,
    k2: nat,
)
    requires
        search_bounded(defs, Map::empty(), base, x, k),
        derives_from(defs, base, x, k2),
    ensures
        derives_from(defs, base, x, k),
    decreases k2,
{
    let ps = defs[x].parent_ids;
    if !ps.contains(base) {
        let i = choose|i: int| 0 <= i < ps.len() && derives_from(defs, base, #[trigger] ps[i], (k2 - 1) as nat);
        assert(search_bounded(defs, Map::empty(), base, ps[i], (k - 1) as nat));
        lemma_derives_within_bound(defs, base, ps[i], (k - 1) as nat, (k2 - 1) as nat);
    }
}

/// The views of a list of class definitions.
pub open spec fn def_views<N>(v: Seq<ClassDef<N>>) -> Seq<ClassDefView> {
    v.map_values(|d: ClassDef<N>| d@)
}

/// A copy of a list of class definitions.
pub fn copy_defs<N: Clone>(v: &Vec<ClassDef<N>>) -> (r: Vec<ClassDef<N>>)
    ensures
        def_views(r@) == def_views(v@),
        r@.len() == v@.len(),
        forall|j: int|
            0 <= j < v@.len() ==> cloned::<N>(v@[j].stmt_class_def, #[trigger] r@[j].stmt_class_def),
{
    let mut r: Vec<ClassDef<N>> = Vec::new();
    let n = v.len();
    let mut i: usize = 0;
    while i < n
        invariant
            n == v@.len(),
            i <= n,
            r@.len() == i,
            forall|j: int| 0 <= j < i ==> r@[j]@ == v@[j]@,
            forall|j: int|
                0 <= j < i ==> cloned::<N>(v@[j].stmt_class_def, #[trigger] r@[j].stmt_class_def),
        decreases n - i,
    {
        r.push(v[i].duplicate());
        i = i + 1;
    }
    assert(def_views(r@) =~= def_views(v@));
    r
}

/// Whether `v` holds `s`.
pub fn contains_string(v: &Vec<String>, s: &String) -> (b: bool)
    ensures
        b == texts(v@).contains(s@),
{
    let n = v.len();
    let mut i: usize = 0;
    while i < n
        invariant
            n == v@.len(),
            i <= n,
            forall|j: int| 0 <= j < i ==> v@[j]@ != s@,
        decreases n - i,
    {
        if v[i].eq(s) {
            assert(texts(v@)[i as int] == s@);
            return true;
        }
        i = i + 1;
    }
    proof {
        if texts(v@).contains(s@) {
            let j = choose|j: int| 0 <= j < texts(v@).len() && texts(v@)[j] == s@;
            assert(v@[j]@ == s@);
        }
    }
    false
}

/// The inheritance map of `defs`: each class with at least one parent, with its parent ids.
pub open spec fn spec_inheritance(defs: Map<Seq<char>, ClassDefView>) -> Map<
    Seq<char>,
    Seq<Seq<char>>,
> {
    Map::new(
        |k: Seq<char>| defs.dom().contains(k) && defs[k].parent_ids.len() > 0,
        |k: Seq<char>| defs[k].parent_ids,
    )
}

/// The imports of a file after `from module import ...` made in the file
/// `current` of the package rooted at `root`.
pub open spec fn spec_import_from(
    prev: ImportsView,
    root: PathView,
    current: PathView,
    node: ImportFromStmt,
) -> ImportsView {
    match node.module {
        None => prev,
        Some(m) => {
            let module = if m@.len() > 0 && m@[0] == '.' {
                spec_path_to_module_name(root, spec_relative_target(m@, current))
            } else {
                m@
            };
            ImportsView {
                aliases: if node.names@.len() > 0 {
                    prev.aliases.insert(first_part(module), first_part(module))
                } else {
                    prev.aliases
                },
                items: bind_items(prev.items, module, node.names@),
            }
        },
    }
}

/// Whether `k` is among the first `i` keys.
pub open spec fn seen_before(keys: Seq<Seq<char>>, i: int, k: Seq<char>) -> bool {
    exists|j: int| 0 <= j < i && #[trigger] keys[j] == k
}

/// A string-list map seen through the views of its values.
pub open spec fn id_lists(m: Map<Seq<char>, Vec<String>>) -> Map<Seq<char>, Seq<Seq<char>>> {
    m.map_values(|v: Vec<String>| texts(v@))
}

/// Collects class definitions and their parent ids from the files of a
/// Python package, file after file.
#[derive(Debug)]
pub struct ClassVisitor<N> {
    root_module_path: PyPath,
    current_module_path: PyPath,
    /// Import information of each file.
    file_imports: AssocMap<PyPath, FileImports>,
    /// The ids of the classes defined in each file, in order of definition.
    file_class_ids: AssocMap<PyPath, Vec<ClassID>>,
    /// Every class definition found.
    class_defs: AssocMap<ClassID, ClassDef<N>>,
    /// Results of earlier searches for classes deriving from a base class,
    /// by the class the search started from and the base class.
    base_classes_cache: AssocMap<(ClassID, ClassID), Vec<ClassDef<N>>>,
}

impl<N> ClassVisitor<N> {
    /// The package directory.
    pub closed spec fn root(&self) -> PathView {
        self.root_module_path@
    }

    /// The file being visited.
    pub closed spec fn current(&self) -> PathView {
        self.current_module_path@
    }

    /// The imports seen in each file.
    pub closed spec fn imports(&self) -> Map<PathView, ImportsView> {
        self.file_imports@.map_values(
            |f: FileImports| ImportsView { aliases: f.aliases(), items: f.items() },
        )
    }

    /// The class ids of each file.
    pub closed spec fn class_ids(&self) -> Map<PathView, Seq<Seq<char>>> {
        self.file_class_ids@.map_values(|v: Vec<String>| texts(v@))
    }

    /// The class definitions, by id.
    pub closed spec fn defs(&self) -> Map<Seq<char>, ClassDefView> {
        self.class_defs@.map_values(|d: ClassDef<N>| d@)
    }

    /// The class statements of the class definitions, by id.
    pub closed spec fn stmts(&self) -> Map<Seq<char>, N> {
        self.class_defs@.map_values(|d: ClassDef<N>| d.stmt_class_def)
    }

    /// The cached search results, by the class each search started from and
    /// the base class it looked for.
    pub closed spec fn cache(&self) -> Map<(Seq<char>, Seq<char>), Seq<ClassDefView>> {
        self.base_classes_cache@.map_values(|v: Vec<ClassDef<N>>| def_views(v@))
    }

    /// Every definition is stored under its own id, and every id listed for a
    /// file has a definition.
    pub open spec fn consistent(&self) -> bool {
        &&& forall|id: Seq<char>| #[trigger]
            self.defs().dom().contains(id) ==> self.defs()[id].id == id
        &&& forall|p: PathView, j: int|
            #![trigger self.class_ids()[p][j]]
            self.class_ids().dom().contains(p) && 0 <= j < self.class_ids()[p].len()
                ==> self.defs().dom().contains(self.class_ids()[p][j])
    }

    pub closed spec fn wf(&self) -> bool {
        &&& self.file_imports.wf()
        &&& self.file_class_ids.wf()
        &&& self.class_defs.wf()
        &&& self.base_classes_cache.wf()
        &&& forall|p: PathView| #[trigger]
            self.file_imports@.dom().contains(p) ==> self.file_imports@[p].wf()
                && self.file_imports@[p].root() == self.root_module_path@
        &&& self.consistent()
        &&& forall|b: Seq<char>|
            cache_valid_for(self.defs(), b, #[trigger] cached_for(self.cache(), b))
    }

    /// The imports of the current file so far.
    pub open spec fn current_imports(&self) -> ImportsView {
        if self.imports().dom().contains(self.current()) {
            self.imports()[self.current()]
        } else {
            no_imports()
        }
    }

    /// The classes listed for the current file so far.
    pub open spec fn current_class_ids(&self) -> Seq<Seq<char>> {
        if self.class_ids().dom().contains(self.current()) {
            self.class_ids()[self.current()]
        } else {
            Seq::empty()
        }
    }

    /// A well-formed visitor is consistent.
    pub proof fn lemma_consistent(&self)
        requires
            self.wf(),
        ensures
            self.consistent(),
    {
    }

    /// A visitor for the package rooted at `root_module_path`, positioned on
    /// the package directory itself, before any file.
    pub fn new(root_module_path: PyPath) -> (v: ClassVisitor<N>)
        ensures
            v.wf(),
            v.root() == root_module_path@,
            v.current() == root_module_path@,
            v.imports() == Map::<PathView, ImportsView>::empty(),
            v.class_ids() == Map::<PathView, Seq<Seq<char>>>::empty(),
            v.defs() == Map::<Seq<char>, ClassDefView>::empty(),
            v.stmts() == Map::<Seq<char>, N>::empty(),
            v.cache() == Map::<(Seq<char>, Seq<char>), Seq<ClassDefView>>::empty(),
    {
        let current = root_module_path.duplicate();
        let v = ClassVisitor {
            root_module_path,
            current_module_path: current,
            file_imports: AssocMap::new(),
            file_class_ids: AssocMap::new(),
            class_defs: AssocMap::new(),
            base_classes_cache: AssocMap::new(),
        };
        assert(v.imports() =~= Map::<PathView, ImportsView>::empty());
        assert(v.class_ids() =~= Map::<PathView, Seq<Seq<char>>>::empty());
        assert(v.defs() =~= Map::<Seq<char>, ClassDefView>::empty());
        assert(v.stmts() =~= Map::<Seq<char>, N>::empty());
        assert(v.cache() =~= Map::<(Seq<char>, Seq<char>), Seq<ClassDefView>>::empty());
        assert forall|b: Seq<char>|
            cache_valid_for(v.defs(), b, #[trigger] cached_for(v.cache(), b)) by {
            assert(cached_for(v.cache(), b) =~= Map::<Seq<char>, Seq<ClassDefView>>::empty());
        }
        v
    }

    /// Moves to the file `path`.
    pub fn set_current_module_path(&mut self, path: PyPath)
        requires
            old(self).wf(),
        ensures
            final(self).wf(),
            final(self).current() == path@,
            final(self).root() == old(self).root(),
            final(self).imports() == old(self).imports(),
            final(self).class_ids() == old(self).class_ids(),
            final(self).defs() == old(self).defs(),
            final(self).stmts() == old(self).stmts(),
            final(self).cache() == old(self).cache(),
    {
        self.current_module_path = path;
        assert(self.defs() == old(self).defs());
        assert(self.stmts() == old(self).stmts());
        assert(self.class_ids() == old(self).class_ids());
        assert(self.cache() == old(self).cache());
    }

    /// The id of the class `class_name` defined in the current file.
    pub fn create_class_id(&self, class_name: &str) -> (r: String)
        requires
            spec_parent(self.root()) is Some,
        ensures
            r@ == spec_class_id(self.root(), self.current(), class_name@),
    {
        let base = self.root_module_path.parent().unwrap();
        let fname = match self.current_module_path.file_name() {
            Some(n) => n,
            None => String::new(),
        };
        match self.current_module_path.strip_prefix(&base) {
            None => join_dotted(fname.as_str(), class_name),
            Some(rel) => {
                let parts = module_parts_of(&rel);
                let module_id = if parts.len() > 0 {
                    join_with_dots(&parts)
                } else {
                    trim_py_suffix(fname.as_str())
                };
                join_dotted(module_id.as_str(), class_name)
            },
        }
    }

    /// Position of the imports of the current file, created empty if missing.
    fn current_imports_index(&mut self) -> (i: usize)
        requires
            old(self).wf(),
        ensures
            final(self).wf(),
            i < final(self).file_imports.key_list().len(),
            final(self).file_imports.key_list()[i as int] == final(self).current(),
            final(self).imports() == old(self).imports().insert(
                old(self).current(),
                old(self).current_imports(),
            ),
            final(self).root() == old(self).root(),
            final(self).current() == old(self).current(),
            final(self).class_ids() == old(self).class_ids(),
            final(self).defs() == old(self).defs(),
            final(self).stmts() == old(self).stmts(),
            final(self).cache() == old(self).cache(),
    {
        match self.file_imports.index_of(&self.current_module_path) {
            Some(i) => {
                proof {
                    self.file_imports.lemma_keys();
                    assert(self.file_imports.key_list().contains(self.current()));
                    assert(self.imports().dom().contains(self.current()));
                    assert(self.imports().insert(self.current(), self.current_imports())
                        =~= self.imports());
                }
                i
            },
            None => {
                let fresh = FileImports::new(self.root_module_path.duplicate());
                let key = self.current_module_path.duplicate();
                proof {
                    self.file_imports.lemma_keys();
                }
                self.file_imports.insert(key, fresh);
                proof {
                    assert(self.defs() == old(self).defs());
                    assert(self.stmts() == old(self).stmts());
                    assert(self.class_ids() == old(self).class_ids());
                    assert(self.cache() == old(self).cache());
                    self.file_imports.lemma_keys();
                    assert(self.imports() =~= old(self).imports().insert(
                        old(self).current(),
                        no_imports(),
                    ));
                }
                self.file_imports.len() - 1
            },
        }
    }

    /// Records an `import` statement of the current file.
    pub fn visit_stmt_import(&mut self, node: &ImportStmt)
        requires
            old(self).wf(),
        ensures
            final(self).wf(),
            final(self).imports() == old(self).imports().insert(
                old(self).current(),
                ImportsView {
                    aliases: bind_modules(old(self).current_imports().aliases, node.names@),
                    items: old(self).current_imports().items,
                },
            ),
            final(self).root() == old(self).root(),
            final(self).current() == old(self).current(),
            final(self).class_ids() == old(self).class_ids(),
            final(self).defs() == old(self).defs(),
            final(self).stmts() == old(self).stmts(),
            final(self).cache() == old(self).cache(),
    {
        let i = self.current_imports_index();
        let ghost mid = *self;
        proof {
            self.file_imports.lemma_keys();
            assert(self.file_imports.key_list().contains(self.current()));
            assert(self.file_imports@.dom().contains(self.current()));
        }
        let ghost before = mid.file_imports@[mid.current()];
        assert(mid.imports()[mid.current()] == old(self).current_imports());
        assert(mid.imports()[mid.current()] == ImportsView {
            aliases: before.aliases(),
            items: before.items(),
        });
        assert(before.aliases() == old(self).current_imports().aliases);
        assert(before.items() == old(self).current_imports().items);
        let file_imports = self.file_imports.value_mut(i);
        file_imports.process_import(node);
        proof {
            let after = self.file_imports@[mid.current()];
            assert(self.file_imports@ == mid.file_imports@.insert(mid.current(), after));
            assert(after.aliases() == bind_modules(before.aliases(), node.names@));
            assert(self.imports() =~= mid.imports().insert(
                mid.current(),
                ImportsView { aliases: after.aliases(), items: after.items() },
            ));
            assert(self.defs() == mid.defs());
            assert(self.stmts() == mid.stmts());
            assert(self.class_ids() == mid.class_ids());
            assert(self.cache() == mid.cache());
            assert(self.imports() =~= old(self).imports().insert(
                old(self).current(),
                ImportsView {
                    aliases: bind_modules(old(self).current_imports().aliases, node.names@),
                    items: old(self).current_imports().items,
                },
            ));
        }
    }

    /// Records a `from ... import` statement of the current file.
    pub fn visit_stmt_import_from(&mut self, node: &ImportFromStmt)
        requires
            old(self).wf(),
        ensures
            final(self).wf(),
            final(self).imports() == old(self).imports().insert(
                old(self).current(),
                spec_import_from(old(self).current_imports(), old(self).root(), old(self).current(), *node),
            ),
            final(self).root() == old(self).root(),
            final(self).current() == old(self).current(),
            final(self).class_ids() == old(self).class_ids(),
            final(self).defs() == old(self).defs(),
            final(self).stmts() == old(self).stmts(),
            final(self).cache() == old(self).cache(),
    {
        let i = self.current_imports_index();
        let ghost mid = *self;
        proof {
            self.file_imports.lemma_keys();
            assert(self.file_imports.key_list().contains(self.current()));
            assert(self.file_imports@.dom().contains(self.current()));
        }
        let ghost before = mid.file_imports@[mid.current()];
        assert(mid.imports()[mid.current()] == old(self).current_imports());
        assert(mid.imports()[mid.current()] == ImportsView {
            aliases: before.aliases(),
            items: before.items(),
        });
        let file_imports = self.file_imports.value_mut(i);
        file_imports.process_import_from(node, &self.current_module_path);
        proof {
            let after = self.file_imports@[mid.current()];
            assert(self.file_imports@ == mid.file_imports@.insert(mid.current(), after));
            assert(ImportsView { aliases: after.aliases(), items: after.items() } == spec_import_from(
                old(self).current_imports(),
                old(self).root(),
                old(self).current(),
                *node,
            ));
            assert(self.imports() =~= mid.imports().insert(
                mid.current(),
                ImportsView { aliases: after.aliases(), items: after.items() },
            ));
            assert(self.defs() == mid.defs());
            assert(self.stmts() == mid.stmts());
            assert(self.class_ids() == mid.class_ids());
            assert(self.cache() == mid.cache());
            assert(self.imports() =~= old(self).imports().insert(
                old(self).current(),
                spec_import_from(old(self).current_imports(), old(self).root(), old(self).current(), *node),
            ));
        }
    }

    /// The definition that a class statement adds in the current file.
    pub open spec fn new_class_def(&self, name: Seq<char>, bases: Seq<BaseExpr>) -> ClassDefView {
        ClassDefView {
            id: spec_class_id(self.root(), self.current(), name),
            name: name,
            module_file: self.current(),
            parent_ids: spec_parent_ids(self.current_imports(), self.root(), self.current(), bases),
        }
    }

    /// Records a class statement of the current file: its definition, with
    /// the statement itself, is stored under its id (replacing an earlier one
    /// with the same id) and the id is appended to the classes of the file.
    /// Cached search results are dropped, as a new definition can change them.
    pub fn visit_stmt_class_def(&mut self, node: ClassDefStmt<N>)
        requires
            old(self).wf(),
            spec_parent(old(self).root()) is Some,
        ensures
            final(self).wf(),
            final(self).defs() == old(self).defs().insert(
                spec_class_id(old(self).root(), old(self).current(), node.name@),
                old(self).new_class_def(node.name@, node.bases@),
            ),
            final(self).class_ids() == old(self).class_ids().insert(
                old(self).current(),
                old(self).current_class_ids().push(
                    spec_class_id(old(self).root(), old(self).current(), node.name@),
                ),
            ),
            final(self).imports() == old(self).imports().insert(
                old(self).current(),
                old(self).current_imports(),
            ),
            final(self).stmts() == old(self).stmts().insert(
                spec_class_id(old(self).root(), old(self).current(), node.name@),
                node.node,
            ),
            final(self).root() == old(self).root(),
            final(self).current() == old(self).current(),
            final(self).cache() == Map::<(Seq<char>, Seq<char>), Seq<ClassDefView>>::empty(),
    {
        let ghost stmt = node.node;
        let class_name = node.name;
        let class_id = self.create_class_id(class_name.as_str());
        let i = self.current_imports_index();
        let ghost mid = *self;
        proof {
            self.file_imports.lemma_keys();
        }
        let ghost prev = self.current_imports();
        assert(prev == old(self).current_imports()) by {
            assert(mid.imports().dom().contains(mid.current()));
        }
        let (_, file_imports) = self.file_imports.entry_at(i);
        assert(file_imports.aliases() == prev.aliases && file_imports.items() == prev.items) by {
            assert(mid.imports()[mid.current()] == ImportsView {
                aliases: file_imports.aliases(),
                items: file_imports.items(),
            });
        }
        assert(file_imports.wf());
        let bases = &node.bases;
        let n = bases.len();
        let mut parent_ids: Vec<String> = Vec::new();
        let mut j: usize = 0;
        while j < n
            invariant
                n == bases@.len(),
                j <= n,
                file_imports.wf(),
                file_imports.aliases() == prev.aliases,
                file_imports.items() == prev.items,
                spec_parent(self.root()) is Some,
                texts(parent_ids@) == spec_parent_ids(
                    prev,
                    self.root(),
                    self.current(),
                    bases@.take(j as int),
                ),
            decreases n - j,
        {
            let ghost before = parent_ids@;
            assert(bases@.take(j + 1).drop_last() =~= bases@.take(j as int));
            assert(bases@.take(j + 1).last() == bases@[j as int]);
            match &bases[j] {
                BaseExpr::Name(name) => {
                    let id = match file_imports.resolve_name(name.as_str()) {
                        Some(full_path) => full_path,
                        None => self.create_class_id(name.as_str()),
                    };
                    parent_ids.push(id);
                    assert(texts(parent_ids@) =~= texts(before).push(id@));
                },
                BaseExpr::Attribute(value, attr) => {
                    let id = match file_imports.resolve_attribute(value.as_str(), attr.as_str()) {
                        Some(full_path) => full_path,
                        None => join_dotted(value.as_str(), attr.as_str()),
                    };
                    parent_ids.push(id);
                    assert(texts(parent_ids@) =~= texts(before).push(id@));
                },
                BaseExpr::Other => {},
            }
            j = j + 1;
        }
        assert(bases@.take(n as int) =~= bases@);
        let class_def = ClassDef {
            id: class_id.clone(),
            name: class_name,
            module_file: self.current_module_path.duplicate(),
            stmt_class_def: node.node,
            parent_ids,
        };
        let ghost new_def = class_def@;
        assert(class_def.stmt_class_def == stmt);
        assert(new_def == old(self).new_class_def(node.name@, node.bases@));
        self.class_defs.insert(class_id.clone(), class_def);
        self.base_classes_cache = AssocMap::new();
        proof {
            assert(self.defs() =~= old(self).defs().insert(class_id@, new_def));
            assert(self.stmts() =~= old(self).stmts().insert(class_id@, stmt));
            self.file_class_ids.lemma_keys();
        }
        let ghost mid2 = *self;
        match self.file_class_ids.index_of(&self.current_module_path) {
            Some(k) => {
                proof {
                    self.file_class_ids.lemma_keys();
                    assert(self.file_class_ids.key_list()[k as int] == self.current());
                    assert(self.file_class_ids.key_list().contains(self.current()));
                    assert(self.file_class_ids@.dom().contains(self.current()));
                }
                let ghost before = self.file_class_ids@[self.current()];
                let ids = self.file_class_ids.value_mut(k);
                ids.push(class_id);
                proof {
                    let after = self.file_class_ids@[mid2.current()];
                    assert(self.file_class_ids@ == mid2.file_class_ids@.insert(mid2.current(), after));
                    assert(texts(after@) =~= texts(before@).push(class_id@));
                    assert(self.class_ids() =~= old(self).class_ids().insert(
                        old(self).current(),
                        old(self).current_class_ids().push(class_id@),
                    ));
                }
            },
            None => {
                let ids = vec![class_id];
                let key = self.current_module_path.duplicate();
                self.file_class_ids.insert(key, ids);
                proof {
                    assert(texts(ids@) =~= seq![class_id@]);
                    assert(self.class_ids() =~= old(self).class_ids().insert(
                        old(self).current(),
                        old(self).current_class_ids().push(class_id@),
                    ));
                }
            },
        }
        proof {
            assert(self.imports() == mid.imports());
            assert(self.cache() == mid2.cache());
            assert(self.defs() == mid2.defs());
            assert(self.stmts() == mid2.stmts());
            assert(self.cache() =~= Map::<(Seq<char>, Seq<char>), Seq<ClassDefView>>::empty());
            assert forall|b: Seq<char>|
                cache_valid_for(self.defs(), b, #[trigger] cached_for(self.cache(), b)) by {
                assert(cached_for(self.cache(), b) =~= Map::<Seq<char>, Seq<ClassDefView>>::empty());
            }
            assert forall|p: PathView, q: int|
                self.class_ids().dom().contains(p) && 0 <= q < self.class_ids()[p].len()
                    implies self.defs().dom().contains(#[trigger] self.class_ids()[p][q]) by {
                if p == old(self).current() && q == self.class_ids()[p].len() - 1 {
                } else if p == old(self).current() {
                    assert(old(self).class_ids().dom().contains(p));
                    assert(self.class_ids()[p][q] == old(self).class_ids()[p][q]);
                } else {
                    assert(self.class_ids()[p][q] == old(self).class_ids()[p][q]);
                }
            }
        }
    }
}

impl<N: Clone> ClassVisitor<N> {
    /// Copies of the stored definitions that `v` stands for, in order: each
    /// definition of `v` is the one stored under its id, and each copy holds a
    /// clone of the stored statement.
    fn stored_copies(&self, v: &Vec<ClassDef<N>>) -> (r: Vec<ClassDef<N>>)
        requires
            self.wf(),
            forall|j: int|
                0 <= j < v@.len() ==> self.defs().dom().contains(#[trigger] def_views(v@)[j].id)
                    && self.defs()[def_views(v@)[j].id] == def_views(v@)[j],
        ensures
            def_views(r@) == def_views(v@),
            forall|j: int|
                0 <= j < r@.len() ==> cloned::<N>(
                    self.stmts()[r@[j]@.id],
                    #[trigger] r@[j].stmt_class_def,
                ),
    {
        let mut r: Vec<ClassDef<N>> = Vec::new();
        let n = v.len();
        let mut i: usize = 0;
        while i < n
            invariant
                n == v@.len(),
                i <= n,
                self.wf(),
                forall|j: int|
                    0 <= j < v@.len() ==> self.defs().dom().contains(#[trigger] def_views(v@)[j].id)
                        && self.defs()[def_views(v@)[j].id] == def_views(v@)[j],
                r@.len() == i,
                forall|j: int| 0 <= j < i ==> r@[j]@ == v@[j]@,
                forall|j: int|
                    0 <= j < i ==> cloned::<N>(
                        self.stmts()[r@[j]@.id],
                        #[trigger] r@[j].stmt_class_def,
                    ),
            decreases n - i,
        {
            assert(def_views(v@)[i as int] == v@[i as int]@);
            assert(self.defs().dom().contains(def_views(v@)[i as int].id));
            assert(self.class_defs@.dom().contains(v@[i as int].id@));
            match self.class_defs.get(&v[i].id) {
                Some(d) => {
                    assert(self.stmts()[v@[i as int]@.id] == d.stmt_class_def);
                    r.push(d.duplicate());
                },
                None => {},
            }
            i = i + 1;
        }
        assert(def_views(r@) =~= def_views(v@));
        r
    }

    /// The search for classes deriving from `base`, from `target`, within `k`
    /// levels, with the results cached for `base`.
    fn class_defs_of_base_within(&mut self, target: &String, base: &String, Ghost(k): Ghost<nat>) -> (r:
        Vec<ClassDef<N>>)
        requires
            old(self).wf(),
            search_bounded(old(self).defs(), cached_for(old(self).cache(), base@), base@, target@, k),
        ensures
            final(self).wf(),
            def_views(r@) == defs_of_base(
                old(self).defs(),
                cached_for(old(self).cache(), base@),
                base@,
                target@,
                k,
            ),
            coherent(
                old(self).defs(),
                base@,
                cached_for(old(self).cache(), base@),
                cached_for(final(self).cache(), base@),
            ),
            target@ != base@ ==> cached_for(final(self).cache(), base@).dom().contains(target@),
            forall|b: Seq<char>|
                b != base@ ==> #[trigger] cached_for(final(self).cache(), b) == cached_for(
                    old(self).cache(),
                    b,
                ),
            forall|j: int|
                0 <= j < r@.len() ==> cloned::<N>(
                    old(self).stmts()[r@[j]@.id],
                    #[trigger] r@[j].stmt_class_def,
                ),
            final(self).defs() == old(self).defs(),
            final(self).stmts() == old(self).stmts(),
            final(self).root() == old(self).root(),
            final(self).current() == old(self).current(),
            final(self).imports() == old(self).imports(),
            final(self).class_ids() == old(self).class_ids(),
        decreases k,
    {
        let ghost d0 = self.defs();
        let ghost c0 = cached_for(self.cache(), base@);
        proof {
            lemma_coherent_refl(d0, base@, c0);
        }
        let key = (target.clone(), base.clone());
        match self.base_classes_cache.get(&key) {
            Some(cached) => {
                assert(c0.dom().contains(target@));
                proof {
                    let empty = Map::<Seq<char>, Seq<ClassDefView>>::empty();
                    assert(cache_valid_for(d0, base@, c0));
                    let kf = choose|kf: nat| search_bounded(d0, empty, base@, target@, kf);
                    assert(search_bounded(d0, empty, base@, target@, kf));
                    assert(c0[target@] == def_views(cached@));
                    assert(c0[target@] == defs_of_base(d0, empty, base@, target@, kf));
                    self.lemma_consistent();
                    lemma_fresh_search(d0, base@, target@, kf);
                    assert forall|j: int| 0 <= j < cached@.len() implies d0.dom().contains(
                        #[trigger] def_views(cached@)[j].id,
                    ) && d0[def_views(cached@)[j].id] == def_views(cached@)[j] by {
                        assert(direct_child(d0, base@, def_views(cached@)[j]));
                    }
                }
                return self.stored_copies(cached);
            },
            None => {},
        }
        assert(!c0.dom().contains(target@));
        let mut result: Vec<ClassDef<N>> = Vec::new();
        if target.eq(base) {
            assert(def_views(result@) =~= Seq::<ClassDefView>::empty());
            return result;
        }
        assert(cache_valid_for(d0, base@, c0));
        let ghost s0 = self.stmts();
        let class_def_opt = self.class_defs.get(target);
        let ghost ps = d0[target@].parent_ids;
        if let Some(class_def) = class_def_opt {
            assert(expanding(d0, c0, base@, target@));
            assert(k > 0);
            proof {
                self.lemma_consistent();
            }
            assert(s0[target@] == class_def.stmt_class_def);
            if contains_string(&class_def.parent_ids, base) {
                result.push(class_def.duplicate());
            }
            assert(def_views(result@) =~= (if ps.contains(base@) {
                seq![d0[target@]]
            } else {
                Seq::<ClassDefView>::empty()
            }));
            let ghost direct = def_views(result@);
            let parent_ids = copy_strings(&class_def.parent_ids);
            let np = parent_ids.len();
            let mut i: usize = 0;
            assert(ps.take(0) =~= Seq::<Seq<char>>::empty());
            assert(direct + Seq::<ClassDefView>::empty() =~= direct);
            while i < np
                invariant
                    np == parent_ids@.len(),
                    i <= np,
                    k > 0,
                    texts(parent_ids@) == ps,
                    ps == d0[target@].parent_ids,
                    d0.dom().contains(target@),
                    target@ != base@,
                    forall|j: int|
                        0 <= j < ps.len() ==> search_bounded(
                            d0,
                            c0,
                            base@,
                            #[trigger] ps[j],
                            (k - 1) as nat,
                        ),
                    self.wf(),
                    self.defs() == d0,
                    self.stmts() == old(self).stmts(),
                    self.root() == old(self).root(),
                    self.current() == old(self).current(),
                    self.imports() == old(self).imports(),
                    self.class_ids() == old(self).class_ids(),
                    coherent(d0, base@, c0, cached_for(self.cache(), base@)),
                    c0 == cached_for(old(self).cache(), base@),
                    !c0.dom().contains(target@),
                    s0 == old(self).stmts(),
                    forall|j: int|
                        0 <= j < result@.len() ==> cloned::<N>(
                            s0[result@[j]@.id],
                            #[trigger] result@[j].stmt_class_def,
                        ),
                    forall|b: Seq<char>|
                        b != base@ ==> #[trigger] cached_for(self.cache(), b) == cached_for(
                            old(self).cache(),
                            b,
                        ),
                    forall|j: int|
                        0 <= j < i && #[trigger] ps[j] != base@ ==> cached_for(
                            self.cache(),
                            base@,
                        ).dom().contains(ps[j]),
                    def_views(result@) == direct + defs_of_base_list(
                        d0,
                        c0,
                        base@,
                        ps.take(i as int),
                        (k - 1) as nat,
                    ),
                decreases np - i,
            {
                let ghost ci = cached_for(self.cache(), base@);
                let ghost p = ps[i as int];
                assert(parent_ids@[i as int]@ == p);
                proof {
                    lemma_bounded_more_cached(d0, c0, ci, base@, p, (k - 1) as nat);
                }
                let mut parent_results = self.class_defs_of_base_within(
                    &parent_ids[i],
                    base,
                    Ghost((k - 1) as nat),
                );
                proof {
                    lemma_coherent_same(d0, base@, c0, ci, p, (k - 1) as nat);
                    lemma_coherent_trans(d0, base@, c0, ci, cached_for(self.cache(), base@));
                }
                let ghost before = def_views(result@);
                let ghost added = def_views(parent_results@);
                let ghost rb = result@;
                let ghost pr = parent_results@;
                result.append(&mut parent_results);
                proof {
                    assert(result@ =~= rb + pr);
                    assert forall|j: int| 0 <= j < result@.len() implies cloned::<N>(
                        s0[result@[j]@.id],
                        #[trigger] result@[j].stmt_class_def,
                    ) by {
                        if j < rb.len() {
                            assert(result@[j] == rb[j]);
                        } else {
                            assert(result@[j] == pr[j - rb.len()]);
                        }
                    }
                    assert(def_views(result@) =~= before + added);
                    assert(ps.take(i + 1).drop_last() =~= ps.take(i as int));
                    assert(ps.take(i + 1).last() == p);
                    assert(direct + defs_of_base_list(d0, c0, base@, ps.take(i + 1), (k - 1) as nat)
                        =~= before + added);
                }
                i = i + 1;
            }
            assert(ps.take(np as int) =~= ps);
            assert(forall|j: int|
                0 <= j < ps.len() && #[trigger] ps[j] != base@ ==> cached_for(
                    self.cache(),
                    base@,
                ).dom().contains(ps[j]));
        } else {
            assert(def_views(result@) =~= Seq::<ClassDefView>::empty());
        }
        let ghost full = self.cache();
        let ghost cl = cached_for(full, base@);
        let ghost rv = def_views(result@);
        let stored = copy_defs(&result);
        self.base_classes_cache.insert(key, stored);
        proof {
            let empty = Map::<Seq<char>, Seq<ClassDefView>>::empty();
            let c2 = cl.insert(target@, rv);
            assert(self.cache() =~= full.insert((target@, base@), rv));
            assert(cached_for(self.cache(), base@) =~= c2);
            assert forall|b: Seq<char>| b != base@ implies #[trigger] cached_for(self.cache(), b)
                == cached_for(old(self).cache(), b) by {
                assert(cached_for(self.cache(), b) =~= cached_for(full, b));
            }
            lemma_coherent_insert(d0, base@, c0, cl, target@, rv, k);
            assert(self.defs() == d0);
            assert(self.stmts() == old(self).stmts());
            assert(cache_valid_for(d0, base@, cached_for(full, base@)));
            lemma_coherent_trans(d0, base@, empty, c0, c2);
            let k2 = lemma_ends_fresh(d0, base@, c0, target@, k);
            assert forall|t: Seq<char>| #[trigger] c2.dom().contains(t) implies t != base@
                && search_ends_fresh(d0, base@, t) by {
                if t == target@ {
                    assert(search_bounded(d0, empty, base@, t, k2));
                } else {
                    assert(cl.dom().contains(t));
                }
            }
            assert forall|t: Seq<char>, i: int|
                c2.dom().contains(t) && d0.dom().contains(t) && 0 <= i < d0[t].parent_ids.len()
                    && d0[t].parent_ids[i] != base@ implies c2.dom().contains(
                d0[t].parent_ids[i],
            ) by {
                if t == target@ {
                    assert(ps[i] == d0[t].parent_ids[i]);
                } else {
                    assert(cl.dom().contains(t));
                }
            }
            assert(cache_valid_for(d0, base@, c2));
            assert forall|b: Seq<char>|
                cache_valid_for(self.defs(), b, #[trigger] cached_for(self.cache(), b)) by {
                if b != base@ {
                    assert(cached_for(self.cache(), b) == cached_for(full, b));
                }
            }
        }
        result
    }

    /// The definitions, on the way up the ancestry of `target_class_id`, of
    /// the classes that name `base_class` among their parents: `target_class_id`
    /// itself when it does, then what each of its parents gives, in order;
    /// `base_class` itself and unknown classes give none.
    ///
    /// Each definition returned is a copy of the stored one, with a clone of
    /// its statement.  Every class met on the way, other than `base_class`,
    /// keeps its result for later searches for `base_class`; a later search
    /// that meets it answers with that result, which is what the search gives
    /// anew.
    pub fn get_class_defs_of_base(&mut self, target_class_id: &ClassID, base_class: &ClassID) -> (r:
        Vec<ClassDef<N>>)
        requires
            old(self).wf(),
            old(self).search_ends(target_class_id@, base_class@),
        ensures
            final(self).wf(),
            def_views(r@) == old(self).spec_class_defs_of_base(target_class_id@, base_class@),
            forall|j: int|
                0 <= j < r@.len() ==> direct_child(
                    old(self).defs(),
                    base_class@,
                    #[trigger] def_views(r@)[j],
                ),
            forall|j: int|
                0 <= j < r@.len() ==> cloned::<N>(
                    old(self).stmts()[r@[j]@.id],
                    #[trigger] r@[j].stmt_class_def,
                ),
            r@.len() > 0 <==> exists|k: nat|
                derives_from(old(self).defs(), base_class@, target_class_id@, k),
            forall|y: Seq<char>, k: nat|
                #[trigger] met_in_search(old(self).defs(), base_class@, target_class_id@, k, y)
                    ==> final(self).cache().dom().contains((y, base_class@)),
            forall|key: (Seq<char>, Seq<char>)|
                #[trigger] old(self).cache().dom().contains(key) ==> final(self).cache().dom().contains(
                    key,
                ) && final(self).cache()[key] == old(self).cache()[key],
            forall|key: (Seq<char>, Seq<char>)|
                #[trigger] final(self).cache().dom().contains(key) ==> old(self).cache().dom().contains(
                    key,
                ) || key.1 == base_class@,
            final(self).defs() == old(self).defs(),
            final(self).stmts() == old(self).stmts(),
            final(self).root() == old(self).root(),
            final(self).current() == old(self).current(),
            final(self).imports() == old(self).imports(),
            final(self).class_ids() == old(self).class_ids(),
    {
        let ghost d0 = self.defs();
        let ghost c0 = cached_for(self.cache(), base_class@);
        let ghost empty = Map::<Seq<char>, Seq<ClassDefView>>::empty();
        let ghost base = base_class@;
        let ghost target = target_class_id@;
        let ghost k = choose|k: nat| search_bounded(d0, empty, base, target, k);
        proof {
            lemma_bounded_more_cached(d0, empty, c0, base, target, k);
            assert(cache_valid_for(d0, base, c0));
            lemma_coherent_same(d0, base, empty, c0, target, k);
            self.lemma_consistent();
            lemma_fresh_search(d0, base, target, k);
            if exists|k3: nat| derives_from(d0, base, target, k3) {
                let k3 = choose|k3: nat| derives_from(d0, base, target, k3);
                lemma_derives_within_bound(d0, base, target, k, k3);
            }
        }
        let r = self.class_defs_of_base_within(target_class_id, base_class, Ghost(k));
        proof {
            let c1 = cached_for(self.cache(), base);
            assert(def_views(r@).len() == r@.len());
            assert forall|key: (Seq<char>, Seq<char>)| #[trigger]
                old(self).cache().dom().contains(key) implies self.cache().dom().contains(key)
                && self.cache()[key] == old(self).cache()[key] by {
                assert(key == (key.0, key.1));
                if key.1 == base {
                    assert(c0.dom().contains(key.0));
                } else {
                    assert(cached_for(self.cache(), key.1) == cached_for(old(self).cache(), key.1));
                    assert(cached_for(old(self).cache(), key.1).dom().contains(key.0));
                }
            }
            assert forall|key: (Seq<char>, Seq<char>)| #[trigger]
                self.cache().dom().contains(key) implies old(self).cache().dom().contains(key)
                || key.1 == base by {
                assert(key == (key.0, key.1));
                if key.1 != base {
                    assert(cached_for(self.cache(), key.1) == cached_for(old(self).cache(), key.1));
                    assert(cached_for(self.cache(), key.1).dom().contains(key.0));
                }
            }
            assert forall|y: Seq<char>, k2: nat| #[trigger]
                met_in_search(d0, base, target, k2, y) implies self.cache().dom().contains(
                (y, base),
            ) by {
                if target != base {
                    assert(cache_valid_for(d0, base, c1));
                    lemma_met_cached(d0, base, c1, target, k2, y);
                }
            }
        }
        r
    }

    /// Whether the search from `target` for classes deriving from `base` ends
    /// within `levels` levels, with nothing cached.
    pub fn search_ends_within(&self, target: &ClassID, base: &ClassID, levels: usize) -> (b: bool)
        requires
            self.wf(),
        ensures
            b == search_bounded(self.defs(), Map::empty(), base@, target@, levels as nat),
        decreases levels,
    {
        if target.eq(base) {
            return true;
        }
        match self.class_defs.get(target) {
            None => true,
            Some(d) => {
                if levels == 0 {
                    return false;
                }
                let ps = &d.parent_ids;
                let n = ps.len();
                let ghost empty = Map::<Seq<char>, Seq<ClassDefView>>::empty();
                assert(self.defs().dom().contains(target@));
                let mut i: usize = 0;
                assert(texts(ps@) == self.defs()[target@].parent_ids);
                while i < n
                    invariant
                        n == ps@.len(),
                        i <= n,
                        levels > 0,
                        self.wf(),
                        empty == Map::<Seq<char>, Seq<ClassDefView>>::empty(),
                        self.defs().dom().contains(target@),
                        expanding(self.defs(), empty, base@, target@),
                        texts(ps@) == self.defs()[target@].parent_ids,
                        forall|j: int|
                            0 <= j < i ==> search_bounded(
                                self.defs(),
                                empty,
                                base@,
                                #[trigger] self.defs()[target@].parent_ids[j],
                                (levels - 1) as nat,
                            ),
                    decreases n - i,
                {
                    assert(ps@[i as int]@ == self.defs()[target@].parent_ids[i as int]);
                    if !self.search_ends_within(&ps[i], base, levels - 1) {
                        assert(!search_bounded(
                            self.defs(),
                            empty,
                            base@,
                            self.defs()[target@].parent_ids[i as int],
                            (levels - 1) as nat,
                        ));
                        return false;
                    }
                    i = i + 1;
                }
                true
            },
        }
    }

    /// The search of `get_class_defs_of_base`, when it ends within as many
    /// levels as there are class definitions; `None`, with nothing changed,
    /// when it does not (the ancestry of `target_class_id` then runs in a circle).
    pub fn try_get_class_defs_of_base(
        &mut self,
        target_class_id: &ClassID,
        base_class: &ClassID,
    ) -> (r: Option<Vec<ClassDef<N>>>)
        requires
            old(self).wf(),
        ensures
            final(self).wf(),
            final(self).defs() == old(self).defs(),
            final(self).stmts() == old(self).stmts(),
            final(self).root() == old(self).root(),
            final(self).current() == old(self).current(),
            final(self).imports() == old(self).imports(),
            final(self).class_ids() == old(self).class_ids(),
            match r {
                Some(v) => {
                    &&& search_bounded(
                        old(self).defs(),
                        Map::empty(),
                        base_class@,
                        target_class_id@,
                        old(self).defs().dom().len(),
                    )
                    &&& def_views(v@) == old(self).spec_class_defs_of_base(
                        target_class_id@,
                        base_class@,
                    )
                    &&& forall|j: int|
                        0 <= j < v@.len() ==> cloned::<N>(
                            old(self).stmts()[v@[j]@.id],
                            #[trigger] v@[j].stmt_class_def,
                        )
                },
                None => {
                    &&& !search_bounded(
                        old(self).defs(),
                        Map::empty(),
                        base_class@,
                        target_class_id@,
                        old(self).defs().dom().len(),
                    )
                    &&& final(self).cache() == old(self).cache()
                },
            },
    {
        let levels = self.class_defs.len();
        proof {
            self.class_defs.lemma_keys();
            assert(self.defs().dom() =~= self.class_defs@.dom());
        }
        if self.search_ends_within(target_class_id, base_class, levels) {
            Some(self.get_class_defs_of_base(target_class_id, base_class))
        } else {
            None
        }
    }
}

impl<N> ClassVisitor<N> {
    /// Whether the search for classes deriving from `base` starting at
    /// `target` ends: no chain of known classes other than `base` from
    /// `target` runs on forever.
    pub open spec fn search_ends(&self, target: Seq<char>, base: Seq<char>) -> bool {
        search_ends_fresh(self.defs(), base, target)
    }

    /// What the search for classes deriving from `base` starting at `target`
    /// gives: the same whatever was cached before.
    pub open spec fn spec_class_defs_of_base(&self, target: Seq<char>, base: Seq<char>) -> Seq<
        ClassDefView,
    > {
        fresh_defs_of_base(self.defs(), base, target)
    }

    /// A cached result for a search from `target` for base class `base` is
    /// what that search gives anew: the cache never changes an answer.
    pub proof fn lemma_cached_result_is_fresh(&self, target: Seq<char>, base: Seq<char>)
        requires
            self.wf(),
            self.cache().dom().contains((target, base)),
        ensures
            target != base,
            self.search_ends(target, base),
            self.cache()[(target, base)] == self.spec_class_defs_of_base(target, base),
    {
        let c = cached_for(self.cache(), base);
        assert(cache_valid_for(self.defs(), base, c));
        assert(c.dom().contains(target));
        let k = choose|k: nat| search_bounded(self.defs(), Map::empty(), base, target, k);
        assert(search_bounded(self.defs(), Map::empty(), base, target, k));
    }

    /// The file being visited.
    pub fn current_module_path(&self) -> (p: &PyPath)
        ensures
            p@ == self.current(),
    {
        &self.current_module_path
    }

    /// Each class that has parents, with the ids of its parents.
    pub fn get_inheritance_map(&self) -> (r: AssocMap<String, Vec<String>>)
        requires
            self.wf(),
        ensures
            r.wf(),
            id_lists(r@) == spec_inheritance(self.defs()),
    {
        let mut inheritance_map: AssocMap<String, Vec<String>> = AssocMap::new();
        let n = self.class_defs.len();
        let ghost keys = self.class_defs.key_list();
        let ghost defs = self.defs();
        proof {
            self.class_defs.lemma_keys();
        }
        let mut i: usize = 0;
        assert(id_lists(inheritance_map@) =~= Map::new(
            |k: Seq<char>|
                seen_before(keys, 0, k) && defs.dom().contains(k)
                    && defs[k].parent_ids.len() > 0,
            |k: Seq<char>| defs[k].parent_ids,
        ));
        while i < n
            invariant
                n == keys.len(),
                keys == self.class_defs.key_list(),
                defs == self.defs(),
                self.wf(),
                forall|k: Seq<char>| self.class_defs@.dom().contains(k) <==> keys.contains(k),
                i <= n,
                inheritance_map.wf(),
                id_lists(inheritance_map@) == Map::new(
                    |k: Seq<char>|
                        seen_before(keys, i as int, k) && defs.dom().contains(k) && defs[k].parent_ids.len() > 0,
                    |k: Seq<char>| defs[k].parent_ids,
                ),
            decreases n - i,
        {
            let (class_id, class_def) = self.class_defs.entry_at(i);
            let ghost ki = keys[i as int];
            assert(defs[ki] == class_def@);
            let ghost before = inheritance_map@;
            if class_def.parent_ids.len() > 0 {
                let parents = copy_strings(&class_def.parent_ids);
                let ghost pv = parents;
                inheritance_map.insert(class_id.clone(), parents);
                assert(id_lists(inheritance_map@) =~= id_lists(before).insert(ki, texts(pv@)));
            }
            assert forall|k: Seq<char>|
                #[trigger] seen_before(keys, i + 1, k) <==> (seen_before(keys, i as int, k) || k == ki) by {
                if seen_before(keys, i + 1, k) {
                    let j = choose|j: int| 0 <= j < i + 1 && #[trigger] keys[j] == k;
                    if j < i {
                        assert(seen_before(keys, i as int, k));
                    }
                }
                if k == ki {
                    assert(keys[i as int] == k);
                }
            }
            assert(id_lists(inheritance_map@) =~= Map::new(
                |k: Seq<char>|
                    seen_before(keys, i + 1, k) && defs.dom().contains(k)
                        && defs[k].parent_ids.len() > 0,
                |k: Seq<char>| defs[k].parent_ids,
            ));
            i = i + 1;
        }
        assert forall|k: Seq<char>| defs.dom().contains(k) implies #[trigger] seen_before(
            keys,
            n as int,
            k,
        ) by {
            assert(self.class_defs@.dom().contains(k));
            assert(keys.contains(k));
        }
        assert(id_lists(inheritance_map@) =~= spec_inheritance(self.defs()));
        inheritance_map
    }

    /// All class definitions, by id.
    pub fn get_class_defs(&self) -> (r: &AssocMap<ClassID, ClassDef<N>>)
        requires
            self.wf(),
        ensures
            r.wf(),
            r@.map_values(|d: ClassDef<N>| d@) == self.defs(),
            r@.map_values(|d: ClassDef<N>| d.stmt_class_def) == self.stmts(),
    {
        &self.class_defs
    }

    /// The definition with id `class_id`.
    pub fn get_class_def(&self, class_id: &ClassID) -> (r: Option<&ClassDef<N>>)
        requires
            self.wf(),
        ensures
            match r {
                Some(d) => self.defs().dom().contains(class_id@) && d@ == self.defs()[class_id@]
                    && d.stmt_class_def == self.stmts()[class_id@],
                None => !self.defs().dom().contains(class_id@),
            },
    {
        self.class_defs.get(class_id)
    }

    /// The ids of the classes defined in the file `file_path`, in order of definition.
    pub fn get_class_ids_for_file(&self, file_path: &PyPath) -> (r: Option<&Vec<ClassID>>)
        requires
            self.wf(),
        ensures
            match r {
                Some(ids) => self.class_ids().dom().contains(file_path@) && texts(ids@)
                    == self.class_ids()[file_path@],
                None => !self.class_ids().dom().contains(file_path@),
            },
    {
        self.file_class_ids.get(file_path)
    }

    /// The ids of the classes of every file.
    pub fn get_file_class_ids(&self) -> (r: &AssocMap<PyPath, Vec<ClassID>>)
        requires
            self.wf(),
        ensures
            r.wf(),
            r@.map_values(|v: Vec<String>| texts(v@)) == self.class_ids(),
    {
        &self.file_class_ids
    }
}

} // verus!
