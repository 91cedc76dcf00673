//! Interface members (functions, events, errors), their signatures, and
//! name-grouped interface documents.

use vstd::prelude::*;

verus! {

/// Which of the three member variants an entry is.
#[derive(Clone, Copy, Debug, PartialEq, Eq, Structural)]
pub enum MemberKind {
    Function,
    Event,
    Error,
}

/// One function, event or error of an interface description.
///
/// `input_types` holds the canonical type string of each parameter, in
/// declaration order; `payload` is carried through unchanged (the full
/// description of the member, as the caller represents it).
pub struct Member<P> {
    pub kind: MemberKind,
    pub name: String,
    pub input_types: Vec<String>,
    pub payload: P,
}

/// The mathematical value of a [`Member`].
pub struct MemberView<P> {
    pub kind: MemberKind,
    pub name: Seq<char>,
    pub types: Seq<Seq<char>>,
    pub payload: P,
}

impl<P> View for Member<P> {
    type V = MemberView<P>;

    open spec fn view(&self) -> MemberView<P> {
        MemberView {
            kind: self.kind,
            name: self.name@,
            types: self.input_types@.map_values(|t: String| t@),
            payload: self.payload,
        }
    }
}

/// The parameter types joined by `,`, without spaces.
pub open spec fn join_types(ts: Seq<Seq<char>>) -> Seq<char>
    decreases ts.len(),
{
    if ts.len() == 0 {
        Seq::empty()
    } else if ts.len() == 1 {
        ts[0]
    } else {
        join_types(ts.drop_last()) + seq![','] + ts.last()
    }
}

/// The canonical identity of a member: `name(type1,type2,...)` for functions
/// and events, the bare name for errors.
pub open spec fn sig<P>(m: MemberView<P>) -> Seq<char> {
    if m.kind == MemberKind::Error {
        m.name
    } else {
        m.name + seq!['('] + join_types(m.types) + seq![')']
    }
}

impl<P> Member<P> {
    /// The member's signature (see [`sig`]).
    pub fn signature(&self) -> (r: String)
        ensures
            r@ == sig(self@),
    {
        let mut s = self.name.clone();
        if self.kind == MemberKind::Error {
            return s;
        }
        proof {
            reveal_strlit("(");
            reveal_strlit(")");
            reveal_strlit(",");
        }
        s.append("(");
        let ghost types = self@.types;
        let mut i: usize = 0;
        while i < self.input_types.len()
            invariant
                i <= self.input_types.len(),
                types == self@.types,
                types.len() == self.input_types.len(),
                s@ == self.name@ + seq!['('] + join_types(types.subrange(0, i as int)),
            decreases self.input_types.len() - i,
        {
            let ghost before = s@;
            if i > 0 {
                s.append(",");
            }
            s.append(self.input_types[i].as_str());
            proof {
                reveal_strlit(",");
                let pre = types.subrange(0, i as int);
                let next = types.subrange(0, i + 1);
                assert(next.drop_last() =~= pre);
                assert(next.last() == self.input_types@[i as int]@);
                if i == 0 {
                    assert(pre =~= Seq::<Seq<char>>::empty());
                    assert(s@ =~= self.name@ + seq!['('] + join_types(next));
                } else {
                    assert(join_types(next) == join_types(pre) + seq![','] + next.last());
                    assert(s@ =~= self.name@ + seq!['('] + join_types(next));
                }
            }
            i = i + 1;
        }
        assert(types.subrange(0, i as int) =~= types);
        s.append(")");
        s
    }
}

/// All overloads of one name.
pub struct Overloads<P> {
    pub name: String,
    pub members: Vec<Member<P>>,
}

/// The mathematical value of an [`Overloads`] group.
pub struct OverloadsView<P> {
    pub name: Seq<char>,
    pub members: Seq<MemberView<P>>,
}

impl<P> View for Overloads<P> {
    type V = OverloadsView<P>;

    open spec fn view(&self) -> OverloadsView<P> {
        OverloadsView { name: self.name@, members: members_view(self.members@) }
    }
}

/// The values of a sequence of members.
pub open spec fn members_view<P>(ms: Seq<Member<P>>) -> Seq<MemberView<P>> {
    ms.map_values(|m: Member<P>| m@)
}

pub proof fn lemma_members_view_remove_first<P>(s: Seq<Member<P>>)
    requires
        s.len() > 0,
    ensures
        members_view(s.remove(0)) == members_view(s).drop_first(),
        members_view(s)[0] == s[0]@,
{
    assert(members_view(s.remove(0)) =~= members_view(s).drop_first());
}

pub proof fn lemma_members_view_push<P>(s: Seq<Member<P>>, m: Member<P>)
    ensures
        members_view(s.push(m)) == members_view(s).push(m@),
{
    assert(members_view(s.push(m)) =~= members_view(s).push(m@));
}

/// The values of a sequence of groups.
pub open spec fn groups_view<P>(gs: Seq<Overloads<P>>) -> Seq<OverloadsView<P>> {
    gs.map_values(|g: Overloads<P>| g@)
}

pub proof fn lemma_groups_view_remove<P>(s: Seq<Overloads<P>>, i: int)
    requires
        0 <= i < s.len(),
    ensures
        groups_view(s.remove(i)) == groups_view(s).remove(i),
        groups_view(s)[i] == s[i]@,
{
    assert(groups_view(s.remove(i)) =~= groups_view(s).remove(i));
}

pub proof fn lemma_groups_view_insert<P>(s: Seq<Overloads<P>>, i: int, g: Overloads<P>)
    requires
        0 <= i <= s.len(),
    ensures
        groups_view(s.insert(i, g)) == groups_view(s).insert(i, g@),
{
    assert(groups_view(s.insert(i, g)) =~= groups_view(s).insert(i, g@));
}

pub proof fn lemma_groups_view_push<P>(s: Seq<Overloads<P>>, g: Overloads<P>)
    ensures
        groups_view(s.push(g)) == groups_view(s).push(g@),
{
    assert(groups_view(s.push(g)) =~= groups_view(s).push(g@));
}

/// An interface document: functions, events and errors, each grouped by name.
pub struct AbiDocument<P> {
    pub functions: Vec<Overloads<P>>,
    pub events: Vec<Overloads<P>>,
    pub errors: Vec<Overloads<P>>,
}

/// The mathematical value of an [`AbiDocument`].
pub struct AbiDocumentView<P> {
    pub functions: Seq<OverloadsView<P>>,
    pub events: Seq<OverloadsView<P>>,
    pub errors: Seq<OverloadsView<P>>,
}

impl<P> View for AbiDocument<P> {
    type V = AbiDocumentView<P>;

    open spec fn view(&self) -> AbiDocumentView<P> {
        AbiDocumentView {
            functions: groups_view(self.functions@),
            events: groups_view(self.events@),
            errors: groups_view(self.errors@),
        }
    }
}

/// Every group holds at least one member, and its members carry the
/// group's name.
pub open spec fn groups_named<P>(gs: Seq<OverloadsView<P>>) -> bool {
    forall|i: int| 0 <= i < gs.len() ==> (#[trigger] gs[i]).members.len() > 0
        && forall|k: int| 0 <= k < gs[i].members.len() ==> (#[trigger] gs[i].members[k]).name == gs[i].name
}

/// A well-formed document: no empty group, each member under its own name.
pub open spec fn document_wf<P>(d: AbiDocumentView<P>) -> bool {
    groups_named(d.functions) && groups_named(d.events) && groups_named(d.errors)
}

/// The names of a sequence of groups.
pub open spec fn names_of<P>(gs: Seq<OverloadsView<P>>) -> Set<Seq<char>> {
    Set::new(|n: Seq<char>| exists|i: int| 0 <= i < gs.len() && gs[i].name == n)
}

} // verus!
