use vstd::prelude::*;

verus! {

/// Paths are plain strings with `/` as the separator.
pub open spec fn is_sep(c: char) -> bool {
    c == '/'
}

/// What a root contributes in front of the paths found under it: the root
/// itself, followed by a separator unless it is empty or already ends in one.
pub open spec fn root_prefix(root: Seq<char>) -> Seq<char> {
    if root.len() == 0 || is_sep(root.last()) {
        root
    } else {
        root.push('/')
    }
}

/// The path of `path` relative to `root`, when `path` lies strictly below it.
pub open spec fn relative_to(root: Seq<char>, path: Seq<char>) -> Option<Seq<char>> {
    let p = root_prefix(root);
    if path.len() > p.len() && path.take(p.len() as int) == p {
        Some(path.skip(p.len() as int))
    } else {
        None
    }
}

/// `rel` placed under `dir`.
pub open spec fn join(dir: Seq<char>, rel: Seq<char>) -> Seq<char> {
    root_prefix(dir) + rel
}

/// Where the last component of `p` starts: just after its last separator.
pub open spec fn name_start(p: Seq<char>) -> int
    decreases p.len(),
{
    if p.len() == 0 {
        0
    } else if is_sep(p.last()) {
        p.len() as int
    } else {
        name_start(p.drop_last())
    }
}

/// The last component of `p`: what follows its last separator.
pub open spec fn file_name_of(p: Seq<char>) -> Seq<char> {
    p.skip(name_start(p))
}

/// The directories in front of the last component of `p`, without the
/// separator that ends them.
pub open spec fn parent_of(p: Seq<char>) -> Seq<char> {
    if name_start(p) == 0 {
        Seq::empty()
    } else {
        p.take(name_start(p) - 1)
    }
}

/// The directory that must exist before `rel` can be written under `dir`.
pub open spec fn dir_for(dir: Seq<char>, rel: Seq<char>) -> Seq<char> {
    if name_start(rel) == 0 {
        dir
    } else {
        join(dir, parent_of(rel))
    }
}

/// Whether `p` has a `..` component.
pub open spec fn climbs_up(p: Seq<char>) -> bool {
    exists|i: int|
        0 <= i && i + 2 <= p.len() && #[trigger] p[i] == '.' && p[i + 1] == '.' && (i == 0
            || is_sep(p[i - 1])) && (i + 2 == p.len() || is_sep(p[i + 2]))
}

/// Whether `rel` names a file strictly below whatever root it is joined to:
/// not empty, not absolute, and never climbing out with `..`.
pub open spec fn stays_below(rel: Seq<char>) -> bool {
    rel.len() > 0 && !is_sep(rel[0]) && !climbs_up(rel)
}

proof fn lemma_name_start_bounds(p: Seq<char>)
    ensures
        0 <= name_start(p) <= p.len(),
        name_start(p) > 0 ==> is_sep(p[name_start(p) - 1]),
        forall|j: int| name_start(p) <= j < p.len() ==> !is_sep(#[trigger] p[j]),
    decreases p.len(),
{
    if p.len() > 0 && !is_sep(p.last()) {
        lemma_name_start_bounds(p.drop_last());
        assert forall|j: int| name_start(p) <= j < p.len() implies !is_sep(#[trigger] p[j]) by {
            if j < p.len() - 1 {
                assert(p[j] == p.drop_last()[j]);
            }
        }
    }
}

proof fn lemma_name_start_take(p: Seq<char>, i: int)
    requires
        0 <= i <= p.len(),
        forall|j: int| i <= j < p.len() ==> !is_sep(#[trigger] p[j]),
    ensures
        name_start(p) == name_start(p.take(i)),
    decreases p.len(),
{
    if i < p.len() {
        lemma_name_start_take(p.drop_last(), i);
        assert(p.drop_last().take(i) =~= p.take(i));
    } else {
        assert(p.take(i) =~= p);
    }
}

/// Index where the last component of `p` starts.
fn find_name_start(p: &str) -> (r: usize)
    ensures
        r == name_start(p@),
{
    let n = p.unicode_len();
    let mut i: usize = n;
    while i > 0 && p.get_char(i - 1) != '/'
        invariant
            i <= n == p@.len(),
            forall|j: int| i <= j < p@.len() ==> !is_sep(#[trigger] p@[j]),
        decreases i,
    {
        i = i - 1;
    }
    proof {
        lemma_name_start_take(p@, i as int);
        if i > 0 {
            assert(p@.take(i as int).last() == p@[i - 1]);
        }
    }
    i
}

/// The last component of `p`.
pub fn file_name(p: &str) -> (r: String)
    ensures
        r@ == file_name_of(p@),
{
    let s = find_name_start(p);
    proof {
        lemma_name_start_bounds(p@);
    }
    p.substring_char(s, p.unicode_len()).to_owned()
}

/// The path of `path` relative to `root`, or `None` when `path` does not lie
/// strictly below `root`.
pub fn relative_path(root: &str, path: &str) -> (r: Option<String>)
    ensures
        r matches Some(s) ==> relative_to(root@, path@) == Some(s@),
        r is None ==> relative_to(root@, path@) is None,
{
    let rn = root.unicode_len();
    let pn = path.unicode_len();
    let add_sep = rn > 0 && root.get_char(rn - 1) != '/';
    if rn >= pn || (add_sep && rn + 1 >= pn) {
        return None;
    }
    let mut i: usize = 0;
    while i < rn
        invariant
            i <= rn == root@.len() < pn == path@.len(),
            forall|j: int| 0 <= j < i ==> path@[j] == root@[j],
        decreases rn - i,
    {
        if path.get_char(i) != root.get_char(i) {
            proof {
                let p = root_prefix(root@);
                if path@.take(p.len() as int) == p {
                    assert(path@.take(p.len() as int)[i as int] == p[i as int]);
                }
            }
            return None;
        }
        i = i + 1;
    }
    let start = if add_sep {
        if path.get_char(rn) != '/' {
            proof {
                let p = root_prefix(root@);
                if path@.take(p.len() as int) == p {
                    assert(path@.take(p.len() as int)[rn as int] == p[rn as int]);
                }
            }
            return None;
        }
        rn + 1
    } else {
        rn
    };
    assert(path@.take(start as int) =~= root_prefix(root@));
    Some(path.substring_char(start, pn).to_owned())
}

/// `rel` placed under `dir`.
pub fn join_path(dir: &str, rel: &str) -> (r: String)
    ensures
        r@ == join(dir@, rel@),
{
    let mut s = dir.to_owned();
    let n = dir.unicode_len();
    if n > 0 && dir.get_char(n - 1) != '/' {
        proof {
            reveal_strlit("/");
        }
        s.append("/");
    }
    s.append(rel);
    s
}

/// The directory that must exist before `rel` can be written under `dir`.
pub fn dir_path(dir: &str, rel: &str) -> (r: String)
    ensures
        r@ == dir_for(dir@, rel@),
{
    let s = find_name_start(rel);
    proof {
        lemma_name_start_bounds(rel@);
    }
    if s == 0 {
        dir.to_owned()
    } else {
        join_path(dir, rel.substring_char(0, s - 1))
    }
}

/// Whether `rel` names a file strictly below whatever root it is joined to.
pub fn is_below(rel: &str) -> (r: bool)
    ensures
        r == stays_below(rel@),
{
    let n = rel.unicode_len();
    if n == 0 || rel.get_char(0) == '/' {
        return false;
    }
    if n == 1 {
        return true;
    }
    let mut i: usize = 0;
    while i < n - 1
        invariant
            2 <= n == rel@.len(),
            i <= n - 1,
            forall|j: int|
                0 <= j < i && j + 2 <= n ==> !(#[trigger] rel@[j] == '.' && rel@[j + 1] == '.'
                    && (j == 0 || is_sep(rel@[j - 1])) && (j + 2 == n || is_sep(rel@[j + 2]))),
        decreases n - i,
    {
        if rel.get_char(i) == '.' && rel.get_char(i + 1) == '.' && (i == 0 || rel.get_char(i - 1)
            == '/') && (i + 2 == n || rel.get_char(i + 2) == '/') {
            return false;
        }
        i = i + 1;
    }
    true
}

} // verus!
