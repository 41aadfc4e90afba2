use vstd::prelude::*;

use crate::entity::{files_view, FileView, SimpleFile};
use crate::error::PipelineError;
use crate::pipeline::Middleware;

verus! {

/// `globset::Glob`: one compiled pattern, carried opaquely.
#[verifier::external_type_specification]
#[verifier::external_body]
pub struct ExGlob(globset::Glob);

/// `globset::GlobSetBuilder`: the globs gathered before a set is built.
#[verifier::external_type_specification]
#[verifier::external_body]
pub struct ExGlobSetBuilder(globset::GlobSetBuilder);

/// `globset::GlobSet`: the globs matched together in one pass.
#[verifier::external_type_specification]
#[verifier::external_body]
pub struct ExGlobSet(globset::GlobSet);

/// `globset::Error`: why a pattern or a set was refused; mapped to `PipelineError`.
#[verifier::external_type_specification]
#[verifier::external_body]
pub struct ExGlobError(globset::Error);

/// Whether globset accepts `pattern` as a glob, with its default options
/// (whose backslash-escape setting is fixed per build target).
pub uninterp spec fn glob_compiles(pattern: Seq<char>) -> bool;

/// The pattern text that a compiled glob was built from.
pub uninterp spec fn glob_text(g: globset::Glob) -> Seq<char>;

/// The pattern texts of the globs that a set builder holds, in the order added.
pub uninterp spec fn builder_globs(b: globset::GlobSetBuilder) -> Seq<Seq<char>>;

/// The pattern texts of the globs that a built set holds, in the order added.
pub uninterp spec fn set_globs(s: globset::GlobSet) -> Seq<Seq<char>>;

/// Whether a set of globs with these pattern texts can be built into one matcher.
pub uninterp spec fn set_builds(globs: Seq<Seq<char>>) -> bool;

/// Whether the glob compiled from `pattern` matches `path`, by globset's rules
/// with its default options (whose backslash-escape setting is fixed per
/// build target).
pub uninterp spec fn glob_matches(pattern: Seq<char>, path: Seq<char>) -> bool;

/// Relies on `globset::Glob::new`: whether it accepts a pattern depends on the
/// text alone, and the glob it returns keeps that text (`Glob::glob`).
#[verifier::external_body]
fn new_glob(pattern: &str) -> (r: Result<globset::Glob, globset::Error>)
    ensures
        (r is Ok) <==> glob_compiles(pattern@),
        r matches Ok(g) ==> glob_text(g) == pattern@,
{
    globset::Glob::new(pattern)
}

/// Relies on `globset::GlobSetBuilder::new`: a builder that holds no glob.
#[verifier::external_body]
fn new_builder() -> (r: globset::GlobSetBuilder)
    ensures
        builder_globs(r) == Seq::<Seq<char>>::empty(),
{
    globset::GlobSetBuilder::new()
}

/// Relies on `globset::GlobSetBuilder::add`: the glob is appended to those held.
#[verifier::external_body]
fn add_glob(b: &mut globset::GlobSetBuilder, g: globset::Glob)
    ensures
        builder_globs(*final(b)) == builder_globs(*old(b)).push(glob_text(g)),
{
    b.add(g);
}

/// Relies on `globset::GlobSetBuilder::build` (through `GlobSet::new`):
/// whether it succeeds depends on the globs held alone, a builder with no
/// glob always gives the empty set, and a set that it builds holds the
/// builder's globs.
#[verifier::external_body]
fn build_set(b: &globset::GlobSetBuilder) -> (r: Result<globset::GlobSet, globset::Error>)
    ensures
        (r is Ok) <==> set_builds(builder_globs(*b)),
        builder_globs(*b).len() == 0 ==> r is Ok,
        r matches Ok(s) ==> set_globs(s) == builder_globs(*b),
{
    b.build()
}

/// Relies on `globset::GlobSet::is_match`: true exactly when some glob of the
/// set matches the path.
#[verifier::external_body]
fn set_is_match(s: &globset::GlobSet, path: &str) -> (r: bool)
    ensures
        r == (exists|i: int| 0 <= i < set_globs(*s).len() && glob_matches(set_globs(*s)[i], path@)),
{
    s.is_match(path)
}

/// Whether some pattern of `globs` matches `path`.
pub open spec fn matches_any(globs: Seq<Seq<char>>, path: Seq<char>) -> bool {
    exists|i: int| 0 <= i < globs.len() && glob_matches(#[trigger] globs[i], path)
}

/// The test that decides which files stay: no pattern matches the relative path.
pub open spec fn stays(globs: Seq<Seq<char>>) -> spec_fn(FileView) -> bool {
    |f: FileView| !matches_any(globs, f.rel_path)
}

/// The files that `globs` leave, in their order.
pub open spec fn unmatched(globs: Seq<Seq<char>>, files: Seq<FileView>) -> Seq<FileView> {
    files.filter(stays(globs))
}

/// The texts of a list of patterns.
pub open spec fn patterns_view(list: Seq<&str>) -> Seq<Seq<char>> {
    list.map_values(|p: &str| p@)
}

/// Middleware that drops every file whose relative path matches one of its
/// glob patterns.
pub struct Ignore {
    set: globset::GlobSet,
}

impl Ignore {
    /// The patterns this filter was built from.
    pub closed spec fn globs(&self) -> Seq<Seq<char>> {
        set_globs(self.set)
    }

    /// Whether some pattern of this filter matches `path`.
    pub fn is_ignored(&self, path: &str) -> (r: bool)
        ensures
            r == matches_any(self.globs(), path@),
    {
        set_is_match(&self.set, path)
    }
}

impl Middleware for Ignore {
    open spec fn transforms(&self, before: Seq<FileView>, after: Seq<FileView>) -> bool {
        after == unmatched(self.globs(), before)
    }

    fn apply(&mut self, files: &mut Vec<SimpleFile>) {
        self.filter(files);
    }
}

impl Ignore {
    /// Drops from `files` every file whose relative path one of the patterns
    /// matches; the others stay, unchanged and in their order. The filter
    /// itself is left as it was, so it can be applied again.
    pub fn filter(&self, files: &mut Vec<SimpleFile>)
        ensures
            files_view(final(files)@) == unmatched(self.globs(), files_view(old(files)@)),
    {
        let ghost orig = files@;
        let ghost p = stays(self.globs());
        let mut kept: Vec<SimpleFile> = Vec::new();
        let ghost mut k: int = 0;
        while files.len() > 0
            invariant
                0 <= k <= orig.len(),
                files@ == orig.skip(k),
                files_view(kept@) == files_view(orig).take(k).filter(p),
                p == stays(self.globs()),
            decreases files.len(),
        {
            let f = files.remove(0);
            assert(f == orig[k]);
            let drop = self.is_ignored(f.rel_path.as_str());
            proof {
                let v = files_view(orig);
                assert(v.take(k + 1).drop_last() =~= v.take(k));
                assert(v.take(k + 1).last() == f@);
                assert(p(f@) == !drop);
                assert(v.take(k + 1) =~= v.take(k).push(f@));
                v.take(k).lemma_filter_push(f@, p);
                assert(v.take(k + 1).filter(p) == if p(f@) {
                    v.take(k).filter(p).push(f@)
                } else {
                    v.take(k).filter(p)
                });
            }
            if !drop {
                let ghost before = kept@;
                kept.push(f);
                assert(files_view(kept@) =~= files_view(before).push(f@));
            }
            proof {
                assert(files@ =~= orig.skip(k + 1));
                k = k + 1;
            }
        }
        proof {
            assert(files_view(orig).take(k) =~= files_view(orig));
        }
        *files = kept;
    }
}

/// Whether every pattern of `list` compiles on its own.
pub open spec fn all_compile(list: Seq<Seq<char>>) -> bool {
    forall|i: int| 0 <= i < list.len() ==> glob_compiles(#[trigger] list[i])
}

/// Builds the filter for `list`. Fails on the first pattern that does not
/// compile, before any file is looked at; with no pattern at all it always
/// succeeds, and the filter then keeps every file.
pub fn ignore(list: Vec<&str>) -> (r: Result<Ignore, PipelineError>)
    ensures
        (r is Ok) <==> (all_compile(patterns_view(list@)) && set_builds(patterns_view(list@))),
        list@.len() == 0 ==> r is Ok,
        r matches Ok(f) ==> f.globs() == patterns_view(list@),
        r matches Err(PipelineError::Pattern { pattern }) ==> exists|i: int|
            0 <= i < list@.len() && !glob_compiles(#[trigger] list@[i]@) && pattern@ == list@[i]@
                && all_compile(patterns_view(list@).take(i)),
        r matches Err(PipelineError::PatternSet) ==> all_compile(patterns_view(list@))
            && !set_builds(patterns_view(list@)),
        !(r matches Err(PipelineError::PathConsistency { .. })),
{
    let mut builder = new_builder();
    let mut i: usize = 0;
    while i < list.len()
        invariant
            i <= list@.len(),
            builder_globs(builder) == patterns_view(list@).take(i as int),
            all_compile(patterns_view(list@).take(i as int)),
        decreases list.len() - i,
    {
        match new_glob(list[i]) {
            Ok(g) => {
                add_glob(&mut builder, g);
                assert(patterns_view(list@).take(i + 1) =~= patterns_view(list@).take(
                    i as int,
                ).push(list@[i as int]@));
            },
            Err(_) => {
                proof {
                    assert(patterns_view(list@)[i as int] == list@[i as int]@);
                }
                return Err(PipelineError::Pattern { pattern: list[i].to_owned() });
            },
        }
        i = i + 1;
    }
    assert(patterns_view(list@).take(i as int) =~= patterns_view(list@));
    match build_set(&builder) {
        Ok(set) => Ok(Ignore { set }),
        Err(_) => Err(PipelineError::PatternSet),
    }
}

/// The files of `files` that some pattern of `globs` matches.
pub open spec fn matched(globs: Seq<Seq<char>>, files: Seq<FileView>) -> Seq<FileView> {
    files.filter(|f: FileView| matches_any(globs, f.rel_path))
}

/// The ignore filter removes exactly the matching files: a file is left if
/// and only if it was there and no pattern matches its relative path; the
/// files left and the files removed together number as many as before.
pub proof fn lemma_ignore_exact(globs: Seq<Seq<char>>, before: Seq<FileView>)
    ensures
        forall|f: FileView|
            #[trigger] unmatched(globs, before).contains(f) <==> (before.contains(f)
                && !matches_any(globs, f.rel_path)),
        unmatched(globs, before).len() + matched(globs, before).len() == before.len(),
    decreases before.len(),
{
    let p = stays(globs);
    let q = |f: FileView| matches_any(globs, f.rel_path);
    if before.len() > 0 {
        let init = before.drop_last();
        let x = before.last();
        lemma_ignore_exact(globs, init);
        assert(before =~= init.push(x));
        init.lemma_filter_push(x, p);
        init.lemma_filter_push(x, q);
        assert forall|f: FileView|
            #[trigger] unmatched(globs, before).contains(f) <==> (before.contains(f)
                && !matches_any(globs, f.rel_path)) by {
            if before.contains(f) && f != x {
                let i = choose|i: int| 0 <= i < before.len() && before[i] == f;
                assert(init[i] == f);
            }
            if init.contains(f) {
                let i = choose|i: int| 0 <= i < init.len() && init[i] == f;
                assert(before[i] == f);
            }
            if unmatched(globs, before).contains(f) && f != x {
                assert(unmatched(globs, init).contains(f));
            }
            if f == x && p(x) {
                assert(unmatched(globs, before).last() == x);
            }
            assert(before.last() == x);
        }
    } else {
        assert(unmatched(globs, before) =~= Seq::<FileView>::empty());
    }
}

/// The order of the patterns, and patterns given twice, do not change which
/// files the filter keeps.
pub proof fn lemma_pattern_order_irrelevant(
    globs1: Seq<Seq<char>>,
    globs2: Seq<Seq<char>>,
    files: Seq<FileView>,
)
    requires
        globs1.to_set() == globs2.to_set(),
    ensures
        unmatched(globs1, files) == unmatched(globs2, files),
{
    assert forall|path: Seq<char>| matches_any(globs1, path) == matches_any(globs2, path) by {
        if matches_any(globs1, path) {
            let i = choose|i: int| 0 <= i < globs1.len() && glob_matches(#[trigger] globs1[i], path);
            assert(globs1.to_set().contains(globs1[i]));
            assert(globs2.to_set().contains(globs1[i]));
            let j = choose|j: int| 0 <= j < globs2.len() && globs2[j] == globs1[i];
            assert(glob_matches(globs2[j], path));
        }
        if matches_any(globs2, path) {
            let i = choose|i: int| 0 <= i < globs2.len() && glob_matches(#[trigger] globs2[i], path);
            assert(globs2.to_set().contains(globs2[i]));
            assert(globs1.to_set().contains(globs2[i]));
            let j = choose|j: int| 0 <= j < globs1.len() && globs1[j] == globs2[i];
            assert(glob_matches(globs1[j], path));
        }
    }
    assert(stays(globs1) =~= stays(globs2));
}

proof fn lemma_filter_twice(
    s: Seq<FileView>,
    p: spec_fn(FileView) -> bool,
    q: spec_fn(FileView) -> bool,
    r: spec_fn(FileView) -> bool,
)
    requires
        forall|x: FileView| #[trigger] r(x) == (p(x) && q(x)),
    ensures
        s.filter(p).filter(q) == s.filter(r),
    decreases s.len(),
{
    if s.len() == 0 {
        assert(s.filter(p) =~= s);
        assert(s.filter(p).filter(q) =~= s);
        assert(s.filter(r) =~= s);
    } else {
        let init = s.drop_last();
        let x = s.last();
        assert(s =~= init.push(x));
        lemma_filter_twice(init, p, q, r);
        init.lemma_filter_push(x, p);
        init.lemma_filter_push(x, r);
        init.filter(p).lemma_filter_push(x, q);
        assert(r(x) == (p(x) && q(x)));
    }
}

proof fn lemma_filter_keeps_all(s: Seq<FileView>, p: spec_fn(FileView) -> bool)
    requires
        forall|x: FileView| #[trigger] p(x),
    ensures
        s.filter(p) == s,
    decreases s.len(),
{
    if s.len() == 0 {
        assert(s.filter(p) =~= s);
    } else {
        let init = s.drop_last();
        assert(s =~= init.push(s.last()));
        lemma_filter_keeps_all(init, p);
        init.lemma_filter_push(s.last(), p);
        assert(p(s.last()));
    }
}

/// A filter with no pattern keeps every file, in its order.
pub proof fn lemma_no_patterns_keep_all(files: Seq<FileView>)
    ensures
        unmatched(Seq::empty(), files) == files,
{
    lemma_filter_keeps_all(files, stays(Seq::empty()));
}

/// Filtering twice with the same patterns leaves what filtering once left.
pub proof fn lemma_filter_idempotent(globs: Seq<Seq<char>>, files: Seq<FileView>)
    ensures
        unmatched(globs, unmatched(globs, files)) == unmatched(globs, files),
{
    let p = stays(globs);
    lemma_filter_twice(files, p, p, p);
}

/// Filtering by two lists of patterns together leaves what filtering by the
/// first and then by the second leaves.
pub proof fn lemma_union_is_sequence(
    globs1: Seq<Seq<char>>,
    globs2: Seq<Seq<char>>,
    files: Seq<FileView>,
)
    ensures
        unmatched(globs1 + globs2, files) == unmatched(globs2, unmatched(globs1, files)),
{
    let g = globs1 + globs2;
    assert forall|path: Seq<char>|
        #[trigger] matches_any(g, path) == (matches_any(globs1, path) || matches_any(
            globs2,
            path,
        )) by {
        if matches_any(g, path) {
            let i = choose|i: int| 0 <= i < g.len() && glob_matches(#[trigger] g[i], path);
            if i < globs1.len() {
                assert(glob_matches(globs1[i], path));
            } else {
                assert(glob_matches(globs2[i - globs1.len()], path));
            }
        }
        if matches_any(globs1, path) {
            let i = choose|i: int| 0 <= i < globs1.len() && glob_matches(#[trigger] globs1[i], path);
            assert(g[i] == globs1[i]);
        }
        if matches_any(globs2, path) {
            let i = choose|i: int| 0 <= i < globs2.len() && glob_matches(#[trigger] globs2[i], path);
            assert(g[globs1.len() + i] == globs2[i]);
        }
    }
    lemma_filter_twice(files, stays(globs1), stays(globs2), stays(g));
}

} // verus!
