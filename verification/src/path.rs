//! Filesystem paths as sequences of components.
//!
//! A path is held as the list of components that a Unix path is made of once
//! repeated separators and interior `.` are normalised away: a root `/`, a
//! leading `.`, `..`, and plain names.  Every operation works on that list,
//! so two paths are equal exactly when their component lists are.

use vstd::prelude::*;
use crate::strings::{dotted, find_last_char, join_dotted, last_index_of, lemma_last_index_of};

verus! {

/// The abstract value of a path component.
pub enum ComponentView {
    RootDir,
    CurDir,
    ParentDir,
    Normal(Seq<char>),
}

/// One component of a path.
#[derive(Debug)]
pub enum Component {
    /// The root `/` of an absolute path.
    RootDir,
    /// A `.` at the start of a relative path.
    CurDir,
    /// `..`
    ParentDir,
    /// A file or directory name.
    Normal(String),
}

impl View for Component {
    type V = ComponentView;

    open spec fn view(&self) -> ComponentView {
        match self {
            Component::RootDir => ComponentView::RootDir,
            Component::CurDir => ComponentView::CurDir,
            Component::ParentDir => ComponentView::ParentDir,
            Component::Normal(s) => ComponentView::Normal(s@),
        }
    }
}

impl Component {
    /// Whether two components are the same.
    pub fn same(&self, other: &Component) -> (b: bool)
        ensures
            b == (self@ == other@),
    {
        let r = match self {
            Component::RootDir => if let Component::RootDir = other {
                true
            } else {
                false
            },
            Component::CurDir => if let Component::CurDir = other {
                true
            } else {
                false
            },
            Component::ParentDir => if let Component::ParentDir = other {
                true
            } else {
                false
            },
            Component::Normal(a) => if let Component::Normal(b) = other {
                a.eq(b)
            } else {
                false
            },
        };
        r
    }

    /// A copy of this component.
    pub fn duplicate(&self) -> (c: Component)
        ensures
            c@ == self@,
    {
        match self {
            Component::RootDir => Component::RootDir,
            Component::CurDir => Component::CurDir,
            Component::ParentDir => Component::ParentDir,
            Component::Normal(s) => Component::Normal(s.clone()),
        }
    }
}

/// The components of a path, in order.
pub type PathView = Seq<ComponentView>;

/// The directory that holds `p`: `p` without its last component, unless `p`
/// is empty or is the root alone.
pub open spec fn spec_parent(p: PathView) -> Option<PathView> {
    if p.len() == 0 || p.last() == ComponentView::RootDir {
        None
    } else {
        Some(p.drop_last())
    }
}

/// `p` relative to `base`: what follows `base` when `base` is a leading part of `p`.
pub open spec fn spec_strip_prefix(p: PathView, base: PathView) -> Option<PathView> {
    if base.is_prefix_of(p) {
        Some(p.skip(base.len() as int))
    } else {
        None
    }
}

/// `p` extended by `other`; an absolute `other` replaces `p`, and a leading
/// `.` of `other` disappears when it no longer starts the path.
pub open spec fn spec_join(p: PathView, other: PathView) -> PathView {
    if other.len() > 0 && other[0] == ComponentView::RootDir {
        other
    } else if p.len() > 0 && other.len() > 0 && other[0] == ComponentView::CurDir {
        p + other.skip(1)
    } else {
        p + other
    }
}

/// The last component when it is a name.
pub open spec fn spec_file_name(p: PathView) -> Option<Seq<char>> {
    if p.len() > 0 {
        match p.last() {
            ComponentView::Normal(n) => Some(n),
            _ => None,
        }
    } else {
        None
    }
}

/// The extension of a file name: the text after its last dot, provided that
/// dot is not the first character.
pub open spec fn spec_name_extension(name: Seq<char>) -> Option<Seq<char>> {
    let i = last_index_of(name, '.');
    if i <= 0 {
        None
    } else {
        Some(name.subrange(i + 1, name.len() as int))
    }
}

/// The stem of a file name: the name without its extension.
pub open spec fn spec_name_stem(name: Seq<char>) -> Seq<char> {
    let i = last_index_of(name, '.');
    if i <= 0 {
        name
    } else {
        name.subrange(0, i)
    }
}

/// The extension of the last component of `p`.
pub open spec fn spec_extension(p: PathView) -> Option<Seq<char>> {
    match spec_file_name(p) {
        Some(n) => spec_name_extension(n),
        None => None,
    }
}

/// `p` with the extension of its file name replaced by `ext` (removed when
/// `ext` is empty); unchanged when `p` does not end in a name.
pub open spec fn spec_with_extension(p: PathView, ext: Seq<char>) -> PathView {
    match spec_file_name(p) {
        Some(n) => p.drop_last().push(
            ComponentView::Normal(
                if ext.len() == 0 {
                    spec_name_stem(n)
                } else {
                    dotted(spec_name_stem(n), ext)
                },
            ),
        ),
        None => p,
    }
}

/// A filesystem path.
#[derive(Debug)]
pub struct PyPath {
    components: Vec<Component>,
}

impl View for PyPath {
    type V = PathView;

    closed spec fn view(&self) -> PathView {
        self.components@.map_values(|c: Component| c@)
    }
}

impl PyPath {
    /// The path made of `components`.
    pub fn new(components: Vec<Component>) -> (p: PyPath)
        ensures
            p@ == components@.map_values(|c: Component| c@),
    {
        PyPath { components }
    }

    /// The components of this path.
    pub fn components(&self) -> (c: &Vec<Component>)
        ensures
            c@.map_values(|x: Component| x@) == self@,
    {
        &self.components
    }

    /// Number of components.
    pub fn len(&self) -> (n: usize)
        ensures
            n == self@.len(),
    {
        self.components.len()
    }

    /// A copy of this path.
    pub fn duplicate(&self) -> (p: PyPath)
        ensures
            p@ == self@,
    {
        let mut v: Vec<Component> = Vec::new();
        let n = self.components.len();
        let mut i: usize = 0;
        while i < n
            invariant
                n == self.components@.len(),
                i <= n,
                v@.len() == i,
                forall|j: int| 0 <= j < i ==> v@[j]@ == self.components@[j]@,
            decreases n - i,
        {
            v.push(self.components[i].duplicate());
            i = i + 1;
        }
        let p = PyPath { components: v };
        assert(p@ =~= self@);
        p
    }

    /// Whether two paths are equal.
    pub fn same(&self, other: &PyPath) -> (b: bool)
        ensures
            b == (self@ == other@),
    {
        let n = self.components.len();
        if n != other.components.len() {
            proof {
                assert(self@.len() != other@.len());
            }
            return false;
        }
        let mut i: usize = 0;
        while i < n
            invariant
                n == self.components@.len() == other.components@.len(),
                i <= n,
                forall|j: int| 0 <= j < i ==> self@[j] == other@[j],
            decreases n - i,
        {
            if !self.components[i].same(&other.components[i]) {
                proof {
                    assert(self@[i as int] != other@[i as int]);
                }
                return false;
            }
            i = i + 1;
        }
        assert(self@ =~= other@);
        true
    }

    /// The components from index `from` on, as a path.
    fn tail_from(&self, from: usize) -> (p: PyPath)
        requires
            from <= self@.len(),
        ensures
            p@ == self@.skip(from as int),
    {
        let mut v: Vec<Component> = Vec::new();
        let n = self.components.len();
        let mut i: usize = from;
        while i < n
            invariant
                n == self.components@.len(),
                from <= i <= n,
                v@.len() == i - from,
                forall|j: int| 0 <= j < i - from ==> v@[j]@ == self.components@[j + from]@,
            decreases n - i,
        {
            v.push(self.components[i].duplicate());
            i = i + 1;
        }
        let p = PyPath { components: v };
        assert(p@ =~= self@.skip(from as int));
        p
    }

    /// The first `count` components, as a path.
    fn head_to(&self, count: usize) -> (p: PyPath)
        requires
            count <= self@.len(),
        ensures
            p@ == self@.take(count as int),
    {
        let mut v: Vec<Component> = Vec::new();
        let mut i: usize = 0;
        while i < count
            invariant
                count <= self.components@.len(),
                i <= count,
                v@.len() == i,
                forall|j: int| 0 <= j < i ==> v@[j]@ == self.components@[j]@,
            decreases count - i,
        {
            v.push(self.components[i].duplicate());
            i = i + 1;
        }
        let p = PyPath { components: v };
        assert(p@ =~= self@.take(count as int));
        p
    }

    /// The parent directory, if any.
    pub fn parent(&self) -> (r: Option<PyPath>)
        ensures
            match r {
                Some(p) => spec_parent(self@) == Some(p@),
                None => spec_parent(self@) is None,
            },
    {
        let n = self.components.len();
        if n == 0 {
            return None;
        }
        match &self.components[n - 1] {
            Component::RootDir => None,
            _ => {
                let p = self.head_to(n - 1);
                assert(self@.take(n - 1) =~= self@.drop_last());
                Some(p)
            },
        }
    }

    /// This path relative to `base`, when `base` is a leading part of it.
    pub fn strip_prefix(&self, base: &PyPath) -> (r: Option<PyPath>)
        ensures
            match r {
                Some(p) => spec_strip_prefix(self@, base@) == Some(p@),
                None => spec_strip_prefix(self@, base@) is None,
            },
    {
        let n = base.components.len();
        if n > self.components.len() {
            return None;
        }
        let mut i: usize = 0;
        while i < n
            invariant
                n == base@.len() <= self@.len(),
                n == base.components@.len(),
                self@.len() == self.components@.len(),
                i <= n,
                forall|j: int| 0 <= j < i ==> base@[j] == self@[j],
            decreases n - i,
        {
            if !base.components[i].same(&self.components[i]) {
                proof {
                    assert(base@[i as int] != self@[i as int]);
                }
                return None;
            }
            i = i + 1;
        }
        Some(self.tail_from(n))
    }

    /// This path extended by `other`.
    pub fn join(&self, other: &PyPath) -> (r: PyPath)
        ensures
            r@ == spec_join(self@, other@),
    {
        let m = other.components.len();
        if m > 0 {
            match &other.components[0] {
                Component::RootDir => {
                    return other.duplicate();
                },
                _ => {},
            }
        }
        let skip_first = self.components.len() > 0 && m > 0 && match &other.components[0] {
            Component::CurDir => true,
            _ => false,
        };
        let start: usize = if skip_first {
            1
        } else {
            0
        };
        let mut v: Vec<Component> = Vec::new();
        let n = self.components.len();
        let mut i: usize = 0;
        while i < n
            invariant
                n == self.components@.len(),
                i <= n,
                v@.len() == i,
                forall|j: int| 0 <= j < i ==> v@[j]@ == self.components@[j]@,
            decreases n - i,
        {
            v.push(self.components[i].duplicate());
            i = i + 1;
        }
        let mut k: usize = start;
        while k < m
            invariant
                n == self.components@.len(),
                m == other.components@.len(),
                start <= k <= m,
                start <= 1,
                start <= m,
                v@.len() == n + k - start,
                forall|j: int| 0 <= j < n ==> v@[j]@ == self.components@[j]@,
                forall|j: int| n <= j < n + k - start ==> v@[j]@ == other.components@[j - n + start]@,
            decreases m - k,
        {
            v.push(other.components[k].duplicate());
            k = k + 1;
        }
        let r = PyPath { components: v };
        if skip_first {
            assert(r@ =~= self@ + other@.skip(1));
        } else {
            assert(r@ =~= self@ + other@);
        }
        r
    }

    /// This path with the name `name` appended.
    pub fn join_name(&self, name: &str) -> (r: PyPath)
        ensures
            r@ == self@.push(ComponentView::Normal(name@)),
    {
        let mut p = self.duplicate();
        p.components.push(Component::Normal(String::from_str(name)));
        assert(p@ =~= self@.push(ComponentView::Normal(name@)));
        p
    }

    /// The last component, when it is a name.
    pub fn file_name(&self) -> (r: Option<String>)
        ensures
            match r {
                Some(s) => spec_file_name(self@) == Some(s@),
                None => spec_file_name(self@) is None,
            },
    {
        let n = self.components.len();
        if n == 0 {
            return None;
        }
        match &self.components[n - 1] {
            Component::Normal(s) => Some(s.clone()),
            _ => None,
        }
    }

    /// Whether the extension of this path is exactly `ext`.
    pub fn has_extension(&self, ext: &str) -> (b: bool)
        ensures
            b == (spec_extension(self@) == Some(ext@)),
    {
        match self.file_name() {
            None => false,
            Some(name) => {
                let s = name.as_str();
                let n = s.unicode_len();
                proof {
                    lemma_last_index_of(s@, '.');
                }
                match find_last_char(s, '.') {
                    None => false,
                    Some(i) => {
                        if i == 0 {
                            false
                        } else {
                            let e = String::from_str(s.substring_char(i + 1, n));
                            e == String::from_str(ext)
                        }
                    },
                }
            },
        }
    }

    /// This path with the extension of its file name replaced by `ext`.
    pub fn with_extension(&self, ext: &str) -> (r: PyPath)
        ensures
            r@ == spec_with_extension(self@, ext@),
    {
        match self.file_name() {
            None => self.duplicate(),
            Some(name) => {
                let s = name.as_str();
                proof {
                    lemma_last_index_of(s@, '.');
                }
                let stem = match find_last_char(s, '.') {
                    None => String::from_str(s),
                    Some(i) => {
                        if i == 0 {
                            String::from_str(s)
                        } else {
                            String::from_str(s.substring_char(0, i))
                        }
                    },
                };
                let new_name = if ext.unicode_len() == 0 {
                    stem
                } else {
                    join_dotted(stem.as_str(), ext)
                };
                let n = self.components.len();
                let mut p = self.head_to(n - 1);
                p.components.push(Component::Normal(new_name));
                assert(self@.take(n - 1) =~= self@.drop_last());
                assert(p@ =~= self@.drop_last().push(ComponentView::Normal(new_name@)));
                p
            },
        }
    }
}

} // verus!
