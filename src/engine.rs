//! A builder around the merge: documents, then a policy, then the result.

use vstd::prelude::*;
use crate::filter::{FilterPolicy, IncludeExcludeFilter, entry_set};
use crate::member::{AbiDocument, AbiDocumentView, OverloadsView};
use crate::copy::{copy_documents, documents_copy, lemma_exact_copy};
use crate::merger::{docs_view, merge_documents, merged};

verus! {

/// The empty document.
pub open spec fn empty_document<P>() -> AbiDocumentView<P> {
    AbiDocumentView { functions: Seq::empty(), events: Seq::empty(), errors: Seq::empty() }
}

fn new_document<P>() -> (r: AbiDocument<P>)
    ensures
        r@ == empty_document::<P>(),
{
    let r = AbiDocument { functions: Vec::new(), events: Vec::new(), errors: Vec::new() };
    assert(r@.functions =~= Seq::<OverloadsView<P>>::empty());
    assert(r@.events =~= Seq::<OverloadsView<P>>::empty());
    assert(r@.errors =~= Seq::<OverloadsView<P>>::empty());
    r
}

/// Collects the documents and the policy of one merge and holds its result.
pub struct Engine<P> {
    /// The documents to merge.
    pub abis: Vec<AbiDocument<P>>,
    /// The policy over the merged functions.
    pub filter: IncludeExcludeFilter,
    /// The merged document; empty until [`Engine::merge`] runs.
    pub result: AbiDocument<P>,
}

impl<P> Engine<P> {
    /// An engine over `abis` with the unrestricted policy.
    pub fn new(abis: Vec<AbiDocument<P>>) -> (r: Self)
        ensures
            r.abis@ == abis@,
            r.filter@ == FilterPolicy::Include(Set::<Seq<char>>::empty()),
            r.result@ == empty_document::<P>(),
    {
        Engine { abis, filter: IncludeExcludeFilter::default(), result: new_document() }
    }

    /// Keeps only the function groups named by `names` (all when empty).
    pub fn with_include(self, names: Vec<String>) -> (r: Self)
        ensures
            r.abis@ == self.abis@,
            r.filter@ == FilterPolicy::Include(entry_set(names@)),
            r.result@ == self.result@,
    {
        Engine { abis: self.abis, filter: IncludeExcludeFilter::from_include(names), result: self.result }
    }

    /// Drops the function groups named by `names`.
    pub fn with_exclude(self, names: Vec<String>) -> (r: Self)
        ensures
            r.abis@ == self.abis@,
            r.filter@ == FilterPolicy::Exclude(entry_set(names@)),
            r.result@ == self.result@,
    {
        Engine { abis: self.abis, filter: IncludeExcludeFilter::from_exclude(names), result: self.result }
    }

    /// The merged document.
    pub fn finish(self) -> (r: AbiDocument<P>)
        ensures
            r@ == self.result@,
    {
        self.result
    }
}

impl<P: Clone> Engine<P> {
    /// Merges the documents under the policy into `result`. The documents
    /// and the policy stay as they are, so merging again gives the same
    /// result; the merged members carry clones of the payloads.
    pub fn merge(&mut self)
        ensures
            final(self).abis == old(self).abis,
            final(self).filter == old(self).filter,
            exists|c: Seq<AbiDocumentView<P>>| documents_copy(docs_view(old(self).abis@), c)
                && #[trigger] merged(old(self).filter@, c) == final(self).result@,
            (forall|x: P, y: P| cloned(x, y) ==> x == y)
                ==> final(self).result@ == merged(old(self).filter@, docs_view(old(self).abis@)),
    {
        let docs = copy_documents(&self.abis);
        let ghost c = docs_view(docs@);
        self.result = merge_documents(&self.filter, docs);
        proof {
            if forall|x: P, y: P| cloned(x, y) ==> x == y {
                lemma_exact_copy(docs_view(self.abis@), c);
            }
        }
    }
}

} // verus!
