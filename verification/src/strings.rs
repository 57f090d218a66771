//! Character-level helpers on Python dotted names.

use vstd::prelude::*;

verus! {

/// Index of the last occurrence of `c` in `s`, or -1 when there is none.
pub open spec fn last_index_of(s: Seq<char>, c: char) -> int
    decreases s.len(),
{
    if s.len() == 0 {
        -1
    } else if s.last() == c {
        s.len() - 1
    } else {
        last_index_of(s.drop_last(), c)
    }
}

pub proof fn lemma_last_index_of(s: Seq<char>, c: char)
    ensures
        -1 <= last_index_of(s, c) < s.len(),
        last_index_of(s, c) >= 0 ==> s[last_index_of(s, c)] == c,
        forall|j: int| last_index_of(s, c) < j < s.len() ==> s[j] != c,
    decreases s.len(),
{
    if s.len() > 0 && s.last() != c {
        lemma_last_index_of(s.drop_last(), c);
        assert forall|j: int| last_index_of(s, c) < j < s.len() implies s[j] != c by {
            if j < s.len() - 1 {
                assert(s.drop_last()[j] == s[j]);
            }
        }
    }
}

/// The text after the last `.` of a dotted name (the whole name when it has no dot).
pub open spec fn spec_class_name(id: Seq<char>) -> Seq<char> {
    id.subrange(last_index_of(id, '.') + 1, id.len() as int)
}

/// Returns the position of the last `c` in `s`.
pub fn find_last_char(s: &str, c: char) -> (r: Option<usize>)
    ensures
        match r {
            Some(i) => i == last_index_of(s@, c),
            None => last_index_of(s@, c) == -1,
        },
{
    let n = s.unicode_len();
    let mut i = n;
    proof { lemma_last_index_of(s@, c); }
    while i > 0
        invariant
            i <= n == s@.len(),
            forall|j: int| i <= j < n ==> s@[j] != c,
            -1 <= last_index_of(s@, c) < n,
            last_index_of(s@, c) >= 0 ==> s@[last_index_of(s@, c)] == c,
            forall|j: int| last_index_of(s@, c) < j < n ==> s@[j] != c,
        decreases i,
    {
        if s.get_char(i - 1) == c {
            return Some(i - 1);
        }
        i = i - 1;
    }
    None
}

/// `a.b`: two names joined by a dot.
pub open spec fn dotted(a: Seq<char>, b: Seq<char>) -> Seq<char> {
    a + seq!['.'] + b
}

/// Whether `s` ends with `.py`.
pub open spec fn ends_with_py(s: Seq<char>) -> bool {
    &&& s.len() >= 3
    &&& s[s.len() - 3] == '.'
    &&& s[s.len() - 2] == 'p'
    &&& s[s.len() - 1] == 'y'
}

/// `s` with every trailing `.py` removed (`a.py.py` becomes `a`).
pub open spec fn trim_py(s: Seq<char>) -> Seq<char>
    decreases s.len(),
{
    if ends_with_py(s) {
        trim_py(s.subrange(0, s.len() - 3))
    } else {
        s
    }
}

/// The names of `parts` joined by dots, in order.
pub open spec fn join_dots(parts: Seq<Seq<char>>) -> Seq<char>
    decreases parts.len(),
{
    if parts.len() == 0 {
        Seq::empty()
    } else if parts.len() == 1 {
        parts[0]
    } else {
        dotted(join_dots(parts.drop_last()), parts.last())
    }
}

/// Operations on class identifiers (`package.module.ClassName`).
pub trait ClassIDExt: View<V = Seq<char>> {
    /// The class name: the part of the identifier after its last dot.
    fn class_name(&self) -> (r: &str)
        ensures
            r@ == spec_class_name(self@),
    ;
}

impl ClassIDExt for String {
    fn class_name(&self) -> (r: &str) {
        let s = self.as_str();
        let n = s.unicode_len();
        proof { lemma_last_index_of(s@, '.'); }
        match find_last_char(s, '.') {
            Some(i) => s.substring_char(i + 1, n),
            None => s.substring_char(0, n),
        }
    }
}

/// Joins two names with a dot.
pub fn join_dotted(a: &str, b: &str) -> (r: String)
    ensures
        r@ == dotted(a@, b@),
{
    let mut r = String::from_str(a);
    r.append(".");
    r.append(b);
    proof {
        reveal_strlit(".");
    }
    r
}

/// Removes every trailing `.py` from `s`.
pub fn trim_py_suffix(s: &str) -> (r: String)
    ensures
        r@ == trim_py(s@),
{
    let mut end = s.unicode_len();
    assert(s@.subrange(0, end as int) =~= s@);
    while end >= 3 && s.get_char(end - 3) == '.' && s.get_char(end - 2) == 'p' && s.get_char(
        end - 1,
    ) == 'y'
        invariant
            end <= s@.len(),
            trim_py(s@.subrange(0, end as int)) == trim_py(s@),
        decreases end,
    {
        assert(s@.subrange(0, end as int).subrange(0, end - 3) =~= s@.subrange(0, end - 3));
        end = end - 3;
    }
    String::from_str(s.substring_char(0, end))
}

/// Joins `parts` with dots.
pub fn join_with_dots(parts: &Vec<String>) -> (r: String)
    ensures
        r@ == join_dots(parts@.map_values(|p: String| p@)),
{
    let ghost views = parts@.map_values(|p: String| p@);
    let mut r = String::new();
    let n = parts.len();
    let mut i: usize = 0;
    assert(views.take(0) =~= Seq::<Seq<char>>::empty());
    while i < n
        invariant
            n == parts.len() == views.len(),
            i <= n,
            views == parts@.map_values(|p: String| p@),
            r@ == join_dots(views.take(i as int)),
        decreases n - i,
    {
        assert(views.take(i + 1).drop_last() =~= views.take(i as int));
        if i == 0 {
            assert(views.take(1) =~= seq![parts[0]@]);
            r = parts[0].clone();
        } else {
            r.append(".");
            r.append(parts[i].as_str());
            proof {
                reveal_strlit(".");
            }
        }
        i = i + 1;
    }
    assert(views.take(n as int) =~= views);
    r
}

} // verus!
