use vstd::prelude::*;

use crate::entity::{files_view, FileView, SimpleFile};

verus! {

/// A step of the pipeline: it takes the whole collection and changes it in
/// place (contents, metadata, membership, order). What a step does is stated
/// by `transforms`, a relation between the collection before and after it;
/// a step that states nothing may leave any collection.
pub trait Middleware {
    /// Whether this step may turn `before` into `after`.
    open spec fn transforms(&self, before: Seq<FileView>, after: Seq<FileView>) -> bool {
        true
    }

    /// Runs the step on `files`.
    fn apply(&mut self, files: &mut Vec<SimpleFile>)
        ensures
            old(self).transforms(files_view(old(files)@), files_view(final(files)@)),
    ;
}

/// `states` records a run of `chain`: one collection before each step and
/// one after the last, each step turning its state into the next.
pub open spec fn chain_steps<M: Middleware>(chain: Seq<M>, states: Seq<Seq<FileView>>) -> bool {
    &&& states.len() == chain.len() + 1
    &&& forall|i: int| 0 <= i < chain.len() ==> #[trigger] chain[i].transforms(states[i], states[i + 1])
}

/// Running `chain` in order, each step on what the one before left, may
/// turn `before` into `after`.
pub open spec fn chain_relates<M: Middleware>(
    chain: Seq<M>,
    before: Seq<FileView>,
    after: Seq<FileView>,
) -> bool {
    exists|states: Seq<Seq<FileView>>|
        #[trigger] chain_steps(chain, states) && states[0] == before && states.last() == after
}

/// Boxes a middleware value so that it can be kept in a chain.
pub fn create_middleware<T>(x: T) -> (r: Box<T>)
    ensures
        *r == x,
{
    Box::new(x)
}

/// Runs every middleware of `chain` on `files`, in the order of the chain,
/// each one to completion before the next starts.
pub fn run_middleware<M: Middleware>(chain: Vec<M>, files: &mut Vec<SimpleFile>)
    ensures
        chain_relates(chain@, files_view(old(files)@), files_view(final(files)@)),
{
    let ghost all = chain@;
    let ghost start = files_view(files@);
    let ghost mut states: Seq<Seq<FileView>> = seq![start];
    let ghost mut k: int = 0;
    let mut rest = chain;
    while rest.len() > 0
        invariant
            0 <= k <= all.len(),
            rest@ == all.skip(k),
            states.len() == k + 1,
            states[0] == start,
            states.last() == files_view(files@),
            forall|i: int| 0 <= i < k ==> #[trigger] all[i].transforms(states[i], states[i + 1]),
        decreases rest.len(),
    {
        let mut m = rest.remove(0);
        let ghost prev = states;
        assert(m == all[k]);
        m.apply(files);
        proof {
            states = states.push(files_view(files@));
            assert forall|i: int| 0 <= i < k + 1 implies #[trigger] all[i].transforms(
                states[i],
                states[i + 1],
            ) by {
                if i < k {
                    assert(states[i] == prev[i] && states[i + 1] == prev[i + 1]);
                }
            }
            assert(rest@ =~= all.skip(k + 1));
            k = k + 1;
        }
    }
    proof {
        assert(all.skip(k).len() == 0);
        assert(chain_steps(all, states));
    }
}

/// A chain with no middleware leaves the collection as it was.
pub proof fn lemma_empty_chain_keeps<M: Middleware>(before: Seq<FileView>, after: Seq<FileView>)
    requires
        chain_relates(Seq::<M>::empty(), before, after),
    ensures
        after == before,
{
}

/// Of the middleware of a chain, the last one has the final word: when it
/// always leaves `content` as the content of the entity at `index`, that is
/// the content there after the whole chain, whatever the steps before it set.
pub proof fn lemma_last_writer_wins<M: Middleware>(
    chain: Seq<M>,
    before: Seq<FileView>,
    after: Seq<FileView>,
    index: int,
    content: Seq<char>,
)
    requires
        chain.len() > 0,
        chain_relates(chain, before, after),
        forall|x: Seq<FileView>, y: Seq<FileView>|
            #[trigger] chain.last().transforms(x, y) ==> 0 <= index < y.len() && y[index].content
                == content,
    ensures
        0 <= index < after.len(),
        after[index].content == content,
{
    let states = choose|states: Seq<Seq<FileView>>|
        #[trigger] chain_steps(chain, states) && states[0] == before && states.last() == after;
    let n = chain.len() - 1;
    assert(chain[n].transforms(states[n], states[n + 1]));
    assert(chain.last().transforms(states[n], states[n + 1]));
    assert(states.last() == states[n + 1]);
}

/// What a step stores in a file's metadata is what the next step is handed:
/// when step `i` always leaves `value` under `key` in the metadata of the
/// file at `index`, the collection that step `i + 1` receives holds exactly
/// `value` there.
pub proof fn lemma_metadata_reaches_next_step<M: Middleware>(
    chain: Seq<M>,
    states: Seq<Seq<FileView>>,
    i: int,
    index: int,
    key: Seq<char>,
    value: Seq<char>,
)
    requires
        chain_steps(chain, states),
        0 <= i < chain.len(),
        forall|x: Seq<FileView>, y: Seq<FileView>|
            #[trigger] chain[i].transforms(x, y) ==> 0 <= index < y.len()
                && y[index].metadata.contains_key(key) && y[index].metadata[key] == value,
    ensures
        0 <= index < states[i + 1].len(),
        states[i + 1][index].metadata.contains_key(key),
        states[i + 1][index].metadata[key] == value,
{
    assert(chain[i].transforms(states[i], states[i + 1]));
}

} // verus!
