//! The merge of several interface documents into one.

use vstd::prelude::*;
use crate::filter::{FilterPolicy, IncludeExcludeFilter, retains};
use crate::flatten::{
    SignatureMap, group_by_name, members_of, put_all, unflatten_by_name,
};
use crate::member::{
    AbiDocument, AbiDocumentView, MemberView, Overloads, OverloadsView, groups_view, names_of,
    lemma_groups_view_push, lemma_groups_view_remove,
};

verus! {

/// The three sections of an interface document.
pub enum Section {
    Functions,
    Events,
    Errors,
}

/// One section of a document.
pub open spec fn section_of<P>(d: AbiDocumentView<P>, s: Section) -> Seq<OverloadsView<P>> {
    match s {
        Section::Functions => d.functions,
        Section::Events => d.events,
        Section::Errors => d.errors,
    }
}

/// The members of one section of all documents, document after document.
pub open spec fn section_members<P>(docs: Seq<AbiDocumentView<P>>, s: Section) -> Seq<MemberView<P>>
    decreases docs.len(),
{
    if docs.len() == 0 {
        Seq::empty()
    } else {
        section_members(docs.drop_last(), s) + members_of(section_of(docs.last(), s))
    }
}

/// The names of one section over all documents.
pub open spec fn section_names<P>(docs: Seq<AbiDocumentView<P>>, s: Section) -> Set<Seq<char>> {
    Set::new(|n: Seq<char>| exists|d: int| 0 <= d < docs.len() && names_of(section_of(docs[d], s)).contains(n))
}

/// One section of all documents keyed by signature, ordered by signature; of
/// several members with one signature the one of the last document stays.
pub open spec fn flattened<P>(docs: Seq<AbiDocumentView<P>>, s: Section) -> Seq<MemberView<P>> {
    put_all(Seq::empty(), section_members(docs, s))
}

/// The groups of `gs` that `policy` keeps, in their order.
pub open spec fn kept_groups<P>(policy: FilterPolicy, gs: Seq<OverloadsView<P>>) -> Seq<OverloadsView<P>>
    decreases gs.len(),
{
    if gs.len() == 0 {
        gs
    } else if retains(policy, gs.last().members) {
        kept_groups(policy, gs.drop_last()).push(gs.last())
    } else {
        kept_groups(policy, gs.drop_last())
    }
}

/// The merge of `docs` under `policy`: each section flattened and grouped
/// again by name; of the functions only the groups that the policy keeps.
pub open spec fn merged<P>(policy: FilterPolicy, docs: Seq<AbiDocumentView<P>>) -> AbiDocumentView<P> {
    AbiDocumentView {
        functions: kept_groups(policy, group_by_name(flattened(docs, Section::Functions))),
        events: group_by_name(flattened(docs, Section::Events)),
        errors: group_by_name(flattened(docs, Section::Errors)),
    }
}

/// The values of a sequence of documents.
pub open spec fn docs_view<P>(docs: Seq<AbiDocument<P>>) -> Seq<AbiDocumentView<P>> {
    docs.map_values(|d: AbiDocument<P>| d@)
}

pub proof fn lemma_put_all_append<P>(l: Seq<MemberView<P>>, a: Seq<MemberView<P>>, b: Seq<MemberView<P>>)
    ensures
        put_all(l, a + b) == put_all(put_all(l, a), b),
    decreases b.len(),
{
    if b.len() == 0 {
        assert(a + b =~= a);
    } else {
        lemma_put_all_append(l, a, b.drop_last());
        assert((a + b).drop_last() =~= a + b.drop_last());
        assert((a + b).last() == b.last());
    }
}

/// Flattens each section of all documents (see [`flattened`]).
fn flatten_contracts<P>(abis: Vec<AbiDocument<P>>) -> (r: (SignatureMap<P>, SignatureMap<P>, SignatureMap<P>))
    ensures
        r.0.wf(),
        r.1.wf(),
        r.2.wf(),
        r.0@ == flattened(docs_view(abis@), Section::Functions),
        r.1@ == flattened(docs_view(abis@), Section::Events),
        r.2@ == flattened(docs_view(abis@), Section::Errors),
{
    let ghost ds = docs_view(abis@);
    let mut abis = abis;
    let mut functions = SignatureMap::new();
    let mut events = SignatureMap::new();
    let mut errors = SignatureMap::new();
    let ghost mut k: int = 0;
    assert(ds.subrange(0, 0) =~= Seq::<AbiDocumentView<P>>::empty());
    assert(docs_view(abis@) =~= ds.subrange(0, ds.len() as int));
    while abis.len() > 0
        invariant
            0 <= k <= ds.len(),
            docs_view(abis@) == ds.subrange(k, ds.len() as int),
            functions.wf(),
            events.wf(),
            errors.wf(),
            functions@ == flattened(ds.subrange(0, k), Section::Functions),
            events@ == flattened(ds.subrange(0, k), Section::Events),
            errors@ == flattened(ds.subrange(0, k), Section::Errors),
        decreases abis.len(),
    {
        let ghost rest = abis@;
        let abi = abis.remove(0);
        proof {
            assert(docs_view(rest)[0] == abi@);
            assert(docs_view(abis@) =~= docs_view(rest).drop_first());
            assert(docs_view(abis@) =~= ds.subrange(k + 1, ds.len() as int));
            let pre = ds.subrange(0, k);
            let next = ds.subrange(0, k + 1);
            assert(next.drop_last() =~= pre);
            assert(next.last() == abi@);
            lemma_put_all_append(Seq::empty(), section_members(pre, Section::Functions), members_of(abi@.functions));
            lemma_put_all_append(Seq::empty(), section_members(pre, Section::Events), members_of(abi@.events));
            lemma_put_all_append(Seq::empty(), section_members(pre, Section::Errors), members_of(abi@.errors));
        }
        functions.insert_groups(abi.functions);
        events.insert_groups(abi.events);
        errors.insert_groups(abi.errors);
        proof {
            k = k + 1;
        }
    }
    assert(ds.subrange(0, k) =~= ds);
    (functions, events, errors)
}

/// The groups that `filter` keeps (see [`kept_groups`]).
fn filter_groups<P>(filter: &IncludeExcludeFilter, groups: Vec<Overloads<P>>) -> (r: Vec<Overloads<P>>)
    ensures
        groups_view(r@) == kept_groups(filter@, groups_view(groups@)),
{
    let ghost gs = groups_view(groups@);
    let mut groups = groups;
    let mut kept: Vec<Overloads<P>> = Vec::new();
    let ghost mut k: int = 0;
    assert(gs.subrange(0, 0) =~= Seq::<OverloadsView<P>>::empty());
    assert(groups_view(kept@) =~= Seq::<OverloadsView<P>>::empty());
    assert(groups_view(groups@) =~= gs.subrange(0, gs.len() as int));
    while groups.len() > 0
        invariant
            0 <= k <= gs.len(),
            groups_view(groups@) == gs.subrange(k, gs.len() as int),
            groups_view(kept@) == kept_groups(filter@, gs.subrange(0, k)),
        decreases groups.len(),
    {
        let ghost rest = groups@;
        let g = groups.remove(0);
        proof {
            lemma_groups_view_remove(rest, 0);
            assert(groups_view(groups@) =~= gs.subrange(k + 1, gs.len() as int));
            assert(gs.subrange(0, k + 1).drop_last() =~= gs.subrange(0, k));
            assert(gs.subrange(0, k + 1).last() == g@);
        }
        if filter.filter(&g.members) {
            let ghost before = kept@;
            kept.push(g);
            proof {
                lemma_groups_view_push(before, g);
            }
        }
        proof {
            k = k + 1;
        }
    }
    assert(gs.subrange(0, k) =~= gs);
    kept
}

/// Merges interface documents under an include/exclude policy.
pub struct DiamondMerger {
    pub filter: IncludeExcludeFilter,
}

impl DiamondMerger {
    /// A merger that applies `filter` to the merged functions.
    pub fn new(filter: IncludeExcludeFilter) -> (r: Self)
        ensures
            r.filter@ == filter@,
    {
        DiamondMerger { filter }
    }

    /// Merges `abis` into one document (see [`merged`]): members with equal
    /// signatures collapse into one, the one of the later document; the
    /// function groups that the policy rejects are left out. Constructor,
    /// fallback and receive markers are not carried over.
    pub fn merge<P>(&self, abis: Vec<AbiDocument<P>>) -> (r: AbiDocument<P>)
        ensures
            r@ == merged(self.filter@, docs_view(abis@)),
    {
        merge_documents(&self.filter, abis)
    }
}

/// Merges `abis` under `filter` (see [`merged`]).
pub fn merge_documents<P>(filter: &IncludeExcludeFilter, abis: Vec<AbiDocument<P>>) -> (r: AbiDocument<P>)
    ensures
        r@ == merged(filter@, docs_view(abis@)),
{
    let (functions, events, errors) = flatten_contracts(abis);
    let functions = filter_groups(filter, unflatten_by_name(functions));
    AbiDocument { functions, events: unflatten_by_name(events), errors: unflatten_by_name(errors) }
}

} // verus!
