//! Copies of members and documents, with a clone of each payload.

use vstd::prelude::*;
use crate::member::{
    AbiDocument, AbiDocumentView, Member, MemberView, Overloads, OverloadsView, groups_view,
    members_view, lemma_groups_view_push, lemma_members_view_push,
};
use crate::merger::docs_view;

verus! {

/// `b` is a copy of `a`: the same kind, name and parameter types, and a
/// clone of the payload.
pub open spec fn member_copy<P: Clone>(a: MemberView<P>, b: MemberView<P>) -> bool {
    a.kind == b.kind && a.name == b.name && a.types == b.types && cloned(a.payload, b.payload)
}

/// `b` holds copies of the members of `a`, in the same order.
pub open spec fn members_copy<P: Clone>(a: Seq<MemberView<P>>, b: Seq<MemberView<P>>) -> bool {
    a.len() == b.len() && forall|k: int| 0 <= k < a.len() ==> member_copy(#[trigger] a[k], b[k])
}

/// `b` holds copies of the groups of `a`, in the same order.
pub open spec fn groups_copy<P: Clone>(a: Seq<OverloadsView<P>>, b: Seq<OverloadsView<P>>) -> bool {
    a.len() == b.len() && forall|i: int| 0 <= i < a.len() ==> (#[trigger] a[i]).name == b[i].name
        && members_copy(a[i].members, b[i].members)
}

/// `b` is a copy of the document `a`.
pub open spec fn document_copy<P: Clone>(a: AbiDocumentView<P>, b: AbiDocumentView<P>) -> bool {
    groups_copy(a.functions, b.functions) && groups_copy(a.events, b.events) && groups_copy(a.errors, b.errors)
}

/// `b` holds copies of the documents of `a`, in the same order.
pub open spec fn documents_copy<P: Clone>(a: Seq<AbiDocumentView<P>>, b: Seq<AbiDocumentView<P>>) -> bool {
    a.len() == b.len() && forall|i: int| 0 <= i < a.len() ==> document_copy(#[trigger] a[i], b[i])
}

impl<P: Clone> Member<P> {
    /// A copy of the member (see [`member_copy`]).
    pub fn copy(&self) -> (r: Self)
        ensures
            member_copy(self@, r@),
    {
        let mut types: Vec<String> = Vec::new();
        let mut i: usize = 0;
        while i < self.input_types.len()
            invariant
                i <= self.input_types.len(),
                types@.len() == i,
                forall|j: int| 0 <= j < i ==> types@[j] == self.input_types@[j],
            decreases self.input_types.len() - i,
        {
            types.push(self.input_types[i].clone());
            i = i + 1;
        }
        let r = Member { kind: self.kind, name: self.name.clone(), input_types: types, payload: self.payload.clone() };
        assert(r@.types =~= self@.types);
        r
    }
}

fn copy_members<P: Clone>(ms: &Vec<Member<P>>) -> (r: Vec<Member<P>>)
    ensures
        members_copy(members_view(ms@), members_view(r@)),
{
    let mut r: Vec<Member<P>> = Vec::new();
    let mut i: usize = 0;
    while i < ms.len()
        invariant
            i <= ms.len(),
            r@.len() == i,
            forall|j: int| 0 <= j < i ==> member_copy(#[trigger] members_view(ms@)[j], members_view(r@)[j]),
        decreases ms.len() - i,
    {
        let m = ms[i].copy();
        let ghost before = r@;
        r.push(m);
        proof {
            lemma_members_view_push(before, m);
            assert(members_view(ms@)[i as int] == ms@[i as int]@);
            assert forall|j: int| 0 <= j < i + 1 implies member_copy(#[trigger] members_view(ms@)[j], members_view(r@)[j]) by {
                if j < i {
                    assert(members_view(r@)[j] == members_view(before)[j]);
                }
            }
        }
        i = i + 1;
    }
    r
}

fn copy_groups<P: Clone>(gs: &Vec<Overloads<P>>) -> (r: Vec<Overloads<P>>)
    ensures
        groups_copy(groups_view(gs@), groups_view(r@)),
{
    let mut r: Vec<Overloads<P>> = Vec::new();
    let mut i: usize = 0;
    while i < gs.len()
        invariant
            i <= gs.len(),
            r@.len() == i,
            forall|j: int| 0 <= j < i ==> (#[trigger] groups_view(gs@)[j]).name == groups_view(r@)[j].name
                && members_copy(groups_view(gs@)[j].members, groups_view(r@)[j].members),
        decreases gs.len() - i,
    {
        let g = Overloads { name: gs[i].name.clone(), members: copy_members(&gs[i].members) };
        let ghost before = r@;
        r.push(g);
        proof {
            lemma_groups_view_push(before, g);
            assert(groups_view(gs@)[i as int] == gs@[i as int]@);
            assert forall|j: int| 0 <= j < i + 1 implies (#[trigger] groups_view(gs@)[j]).name == groups_view(r@)[j].name
                && members_copy(groups_view(gs@)[j].members, groups_view(r@)[j].members) by {
                if j < i {
                    assert(groups_view(r@)[j] == groups_view(before)[j]);
                }
            }
        }
        i = i + 1;
    }
    r
}

impl<P: Clone> AbiDocument<P> {
    /// A copy of the document (see [`document_copy`]).
    pub fn copy(&self) -> (r: Self)
        ensures
            document_copy(self@, r@),
    {
        AbiDocument {
            functions: copy_groups(&self.functions),
            events: copy_groups(&self.events),
            errors: copy_groups(&self.errors),
        }
    }
}

/// Copies of the documents of `docs`, in order.
pub fn copy_documents<P: Clone>(docs: &Vec<AbiDocument<P>>) -> (r: Vec<AbiDocument<P>>)
    ensures
        documents_copy(docs_view(docs@), docs_view(r@)),
{
    let mut r: Vec<AbiDocument<P>> = Vec::new();
    let mut i: usize = 0;
    while i < docs.len()
        invariant
            i <= docs.len(),
            r@.len() == i,
            forall|j: int| 0 <= j < i ==> document_copy(#[trigger] docs_view(docs@)[j], docs_view(r@)[j]),
        decreases docs.len() - i,
    {
        let d = docs[i].copy();
        let ghost before = r@;
        r.push(d);
        proof {
            assert(docs_view(docs@)[i as int] == docs@[i as int]@);
            assert(docs_view(r@)[i as int] == d@);
            assert forall|j: int| 0 <= j < i + 1 implies document_copy(#[trigger] docs_view(docs@)[j], docs_view(r@)[j]) by {
                if j < i {
                    assert(r@[j] == before[j]);
                }
            }
        }
        i = i + 1;
    }
    r
}

/// Where cloning a payload gives an equal value, a copy of documents equals
/// them.
pub proof fn lemma_exact_copy<P: Clone>(a: Seq<AbiDocumentView<P>>, b: Seq<AbiDocumentView<P>>)
    requires
        documents_copy(a, b),
        forall|x: P, y: P| cloned(x, y) ==> x == y,
    ensures
        a == b,
{
    assert forall|i: int| 0 <= i < a.len() implies a[i] == b[i] by {
        let (da, db) = (a[i], b[i]);
        assert(document_copy(da, db));
        lemma_exact_groups(da.functions, db.functions);
        lemma_exact_groups(da.events, db.events);
        lemma_exact_groups(da.errors, db.errors);
    }
    assert(a =~= b);
}

proof fn lemma_exact_groups<P: Clone>(a: Seq<OverloadsView<P>>, b: Seq<OverloadsView<P>>)
    requires
        groups_copy(a, b),
        forall|x: P, y: P| cloned(x, y) ==> x == y,
    ensures
        a == b,
{
    assert forall|i: int| 0 <= i < a.len() implies a[i] == b[i] by {
        let (ga, gb) = (a[i], b[i]);
        assert(members_copy(ga.members, gb.members));
        assert forall|k: int| 0 <= k < ga.members.len() implies ga.members[k] == gb.members[k] by {
            assert(member_copy(ga.members[k], gb.members[k]));
        }
        assert(ga.members =~= gb.members);
    }
    assert(a =~= b);
}

} // verus!
