use vstd::prelude::*;

use crate::entity::{files_view, FileView, SimpleFile};
use crate::error::PipelineError;
use crate::paths::{dir_for, dir_path, is_below, join, join_path, stays_below};
use crate::pipeline::{chain_relates, chain_steps, run_middleware, Middleware};

verus! {

/// One file to put on disk: make sure `dir` exists, then create or overwrite
/// the file at `path` with `content`.
#[derive(Debug, Clone)]
pub struct WriteOp {
    pub dir: String,
    pub path: String,
    pub content: String,
}

/// What a `WriteOp` holds, as mathematical values.
pub struct WriteView {
    pub dir: Seq<char>,
    pub path: Seq<char>,
    pub content: Seq<char>,
}

impl View for WriteOp {
    type V = WriteView;

    open spec fn view(&self) -> WriteView {
        WriteView { dir: self.dir@, path: self.path@, content: self.content@ }
    }
}

/// The write of one file under `dest`: at its relative path, with its
/// content and nothing else.
pub open spec fn write_of(dest: Seq<char>, f: FileView) -> WriteView {
    WriteView { dir: dir_for(dest, f.rel_path), path: join(dest, f.rel_path), content: f.content }
}

/// The writes of a whole collection, one per file, in the collection's order.
pub open spec fn plan_of(dest: Seq<char>, files: Seq<FileView>) -> Seq<WriteView> {
    files.map_values(|f: FileView| write_of(dest, f))
}

/// A list of writes, seen as values.
pub open spec fn ops_view(ops: Seq<WriteOp>) -> Seq<WriteView> {
    ops.map_values(|o: WriteOp| o@)
}

/// Whether every file's relative path stays below the root it is joined to.
pub open spec fn all_below(files: Seq<FileView>) -> bool {
    forall|i: int| 0 <= i < files.len() ==> stays_below(#[trigger] files[i].rel_path)
}

/// The outcome that `plan_writes` owes for `files` under `dest`.
pub open spec fn plan_result(
    dest: Seq<char>,
    files: Seq<FileView>,
    r: Result<Vec<WriteOp>, PipelineError>,
) -> bool {
    if all_below(files) {
        r matches Ok(ops) && ops_view(ops@) == plan_of(dest, files)
    } else {
        r matches Err(PipelineError::PathConsistency { path }) && exists|i: int|
            0 <= i < files.len() && !stays_below(#[trigger] files[i].rel_path) && path@
                == files[i].rel_path && all_below(files.take(i))
    }
}

/// The writes that lay `files` out under `destination`, one per file, each
/// at `destination` joined with the file's relative path. Fails, before any
/// write, on the first file whose relative path would leave the destination.
pub fn plan_writes(files: &Vec<SimpleFile>, destination: &str) -> (r: Result<
    Vec<WriteOp>,
    PipelineError,
>)
    ensures
        plan_result(destination@, files_view(files@), r),
{
    let ghost fv = files_view(files@);
    let mut ops: Vec<WriteOp> = Vec::new();
    let mut i: usize = 0;
    while i < files.len()
        invariant
            i <= files@.len(),
            fv == files_view(files@),
            all_below(fv.take(i as int)),
            ops_view(ops@) == plan_of(destination@, fv.take(i as int)),
        decreases files.len() - i,
    {
        let f = &files[i];
        if !is_below(f.rel_path.as_str()) {
            assert(fv[i as int].rel_path == f.rel_path@);
            assert(!all_below(fv));
            return Err(PipelineError::PathConsistency { path: f.rel_path.clone() });
        }
        let op = WriteOp {
            dir: dir_path(destination, f.rel_path.as_str()),
            path: join_path(destination, f.rel_path.as_str()),
            content: f.content.clone(),
        };
        let ghost before = ops@;
        ops.push(op);
        proof {
            assert(fv.take(i + 1) =~= fv.take(i as int).push(fv[i as int]));
            assert(ops_view(ops@) =~= ops_view(before).push(op@));
            assert(plan_of(destination@, fv.take(i + 1)) =~= plan_of(
                destination@,
                fv.take(i as int),
            ).push(write_of(destination@, fv[i as int])));
            assert forall|j: int| 0 <= j < i + 1 implies stays_below(
                #[trigger] fv.take(i + 1)[j].rel_path,
            ) by {
                if j < i {
                    assert(fv.take(i + 1)[j] == fv.take(i as int)[j]);
                }
            }
        }
        i = i + 1;
    }
    assert(fv.take(i as int) =~= fv);
    Ok(ops)
}

/// Everything a run does between reading and writing: the chain of
/// middleware on `files`, then the writes that lay the result out under
/// `destination`.
pub fn run_pipeline<M: Middleware>(
    chain: Vec<M>,
    files: &mut Vec<SimpleFile>,
    destination: &str,
) -> (r: Result<Vec<WriteOp>, PipelineError>)
    ensures
        chain_relates(chain@, files_view(old(files)@), files_view(final(files)@)),
        plan_result(destination@, files_view(final(files)@), r),
{
    run_middleware(chain, files);
    plan_writes(files, destination)
}

/// Metadata never reaches the disk: two collections that agree on every
/// file's relative path and content are written alike, whatever their
/// names, absolute paths and metadata.
pub proof fn lemma_plan_ignores_metadata(dest: Seq<char>, a: Seq<FileView>, b: Seq<FileView>)
    requires
        a.len() == b.len(),
        forall|i: int|
            0 <= i < a.len() ==> (#[trigger] a[i]).rel_path == b[i].rel_path && a[i].content
                == b[i].content,
    ensures
        plan_of(dest, a) == plan_of(dest, b),
{
    assert(plan_of(dest, a) =~= plan_of(dest, b));
}

/// A run with no middleware copies every file as it was read: the paths
/// still stay below the destination, so the writes are planned, one per
/// file, at the destination joined with its relative path, with its content.
pub proof fn lemma_empty_run_copies<M: Middleware>(
    dest: Seq<char>,
    before: Seq<FileView>,
    after: Seq<FileView>,
)
    requires
        chain_relates(Seq::<M>::empty(), before, after),
        all_below(before),
    ensures
        all_below(after),
        plan_of(dest, after).len() == before.len(),
        forall|i: int|
            0 <= i < before.len() ==> (#[trigger] plan_of(dest, after)[i]).path == join(
                dest,
                before[i].rel_path,
            ) && plan_of(dest, after)[i].content == before[i].content,
{
    crate::pipeline::lemma_empty_chain_keeps::<M>(before, after);
}

/// Whether two collections agree on every file's relative path and content.
pub open spec fn same_text(a: Seq<FileView>, b: Seq<FileView>) -> bool {
    &&& a.len() == b.len()
    &&& forall|j: int|
        0 <= j < a.len() ==> (#[trigger] a[j]).rel_path == b[j].rel_path && a[j].content
            == b[j].content
}

proof fn lemma_steps_keep_text<M: Middleware>(chain: Seq<M>, states: Seq<Seq<FileView>>, k: int)
    requires
        chain_steps(chain, states),
        0 <= k <= chain.len(),
        forall|i: int, x: Seq<FileView>, y: Seq<FileView>|
            0 <= i < chain.len() && #[trigger] chain[i].transforms(x, y) ==> same_text(x, y),
    ensures
        same_text(states[0], states[k]),
    decreases k,
{
    if k > 0 {
        lemma_steps_keep_text(chain, states, k - 1);
        let j = k - 1;
        assert(chain[j].transforms(states[j], states[j + 1]));
        assert(same_text(states[j], states[k]));
    }
}

/// Metadata never reaches the disk, across a whole run: when every step of
/// the chain changes at most names, absolute paths and metadata, the files
/// are written exactly as they were read.
pub proof fn lemma_metadata_steps_write_as_read<M: Middleware>(
    chain: Seq<M>,
    dest: Seq<char>,
    before: Seq<FileView>,
    after: Seq<FileView>,
)
    requires
        chain_relates(chain, before, after),
        forall|i: int, x: Seq<FileView>, y: Seq<FileView>|
            0 <= i < chain.len() && #[trigger] chain[i].transforms(x, y) ==> same_text(x, y),
    ensures
        same_text(before, after),
        plan_of(dest, after) == plan_of(dest, before),
{
    let states = choose|states: Seq<Seq<FileView>>|
        #[trigger] chain_steps(chain, states) && states[0] == before && states.last() == after;
    lemma_steps_keep_text(chain, states, chain.len() as int);
    lemma_plan_ignores_metadata(dest, after, before);
}

/// The last middleware's content is the one written: when the last step
/// always leaves `content` in the file at `index`, the planned write of that
/// file carries `content`.
pub proof fn lemma_last_writer_written<M: Middleware>(
    chain: Seq<M>,
    dest: Seq<char>,
    before: Seq<FileView>,
    after: Seq<FileView>,
    index: int,
    content: Seq<char>,
)
    requires
        chain.len() > 0,
        chain_relates(chain, before, after),
        forall|x: Seq<FileView>, y: Seq<FileView>|
            #[trigger] chain.last().transforms(x, y) ==> 0 <= index < y.len() && y[index].content
                == content,
    ensures
        0 <= index < plan_of(dest, after).len(),
        plan_of(dest, after)[index].path == join(dest, after[index].rel_path),
        plan_of(dest, after)[index].content == content,
{
    crate::pipeline::lemma_last_writer_wins(chain, before, after, index, content);
}

} // verus!
