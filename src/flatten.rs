//! Conversions between the name-grouped shape of an interface description and
//! a signature-keyed mapping, ordered by signature.

use vstd::prelude::*;
use crate::member::{
    sig, Member, MemberView, Overloads, OverloadsView, groups_view, members_view,
    lemma_members_view_remove_first, lemma_members_view_push, lemma_groups_view_remove,
    lemma_groups_view_insert, lemma_groups_view_push,
};
use crate::order::{lex_lt, lex_less, lemma_lex_irreflexive, lemma_lex_asymmetric, lemma_lex_total};
use crate::laws::{lemma_group_by_name_contents, lemma_group_by_name_wf, lemma_put_sorted};

verus! {

/// Inserts `m` into the signature-ordered sequence `l`: an entry with the same
/// signature is replaced, otherwise `m` goes before the first entry whose
/// signature is greater.
pub open spec fn put<P>(l: Seq<MemberView<P>>, m: MemberView<P>) -> Seq<MemberView<P>>
    decreases l.len(),
{
    if l.len() == 0 {
        seq![m]
    } else if sig(m) == sig(l[0]) {
        seq![m] + l.drop_first()
    } else if lex_lt(sig(m), sig(l[0])) {
        seq![m] + l
    } else {
        seq![l[0]] + put(l.drop_first(), m)
    }
}

/// Inserts each member of `ms` in turn, so that a later member replaces an
/// earlier one with the same signature.
pub open spec fn put_all<P>(l: Seq<MemberView<P>>, ms: Seq<MemberView<P>>) -> Seq<MemberView<P>>
    decreases ms.len(),
{
    if ms.len() == 0 {
        l
    } else {
        put(put_all(l, ms.drop_last()), ms.last())
    }
}

/// The members of all groups, group after group.
pub open spec fn members_of<P>(gs: Seq<OverloadsView<P>>) -> Seq<MemberView<P>>
    decreases gs.len(),
{
    if gs.len() == 0 {
        Seq::empty()
    } else {
        members_of(gs.drop_last()) + gs.last().members
    }
}

/// Adds `m` to the name-ordered groups `gs`: at the end of the group of its
/// name, or as a new group before the first group whose name is greater.
pub open spec fn add_to_groups<P>(gs: Seq<OverloadsView<P>>, m: MemberView<P>) -> Seq<OverloadsView<P>>
    decreases gs.len(),
{
    if gs.len() == 0 {
        seq![OverloadsView { name: m.name, members: seq![m] }]
    } else if m.name == gs[0].name {
        seq![OverloadsView { name: gs[0].name, members: gs[0].members.push(m) }] + gs.drop_first()
    } else if lex_lt(m.name, gs[0].name) {
        seq![OverloadsView { name: m.name, members: seq![m] }] + gs
    } else {
        seq![gs[0]] + add_to_groups(gs.drop_first(), m)
    }
}

/// The members of `ms` grouped by name, in order of name; within a group in
/// the order of `ms`.
pub open spec fn group_by_name<P>(ms: Seq<MemberView<P>>) -> Seq<OverloadsView<P>>
    decreases ms.len(),
{
    if ms.len() == 0 {
        Seq::empty()
    } else {
        add_to_groups(group_by_name(ms.drop_last()), ms.last())
    }
}

/// Entries strictly increasing by signature.
pub open spec fn sorted_by_sig<P>(l: Seq<MemberView<P>>) -> bool {
    forall|i: int, j: int| 0 <= i < j < l.len() ==> lex_lt(#[trigger] sig(l[i]), #[trigger] sig(l[j]))
}

/// Groups strictly increasing by name, each non-empty, holding members of
/// its name strictly increasing by signature.
pub open spec fn grouping_wf<P>(gs: Seq<OverloadsView<P>>) -> bool {
    &&& forall|i: int, j: int| 0 <= i < j < gs.len() ==> lex_lt(#[trigger] gs[i].name, #[trigger] gs[j].name)
    &&& forall|i: int| 0 <= i < gs.len() ==> (#[trigger] gs[i]).members.len() > 0
    &&& forall|i: int| 0 <= i < gs.len() ==> sorted_by_sig(#[trigger] gs[i].members)
    &&& forall|i: int, k: int| 0 <= i < gs.len() && 0 <= k < gs[i].members.len() ==> (#[trigger] gs[i].members[k]).name == gs[i].name
}

/// Members keyed by signature, in increasing order of signature.
pub struct SignatureMap<P> {
    entries: Vec<(String, Member<P>)>,
}

impl<P> View for SignatureMap<P> {
    type V = Seq<MemberView<P>>;

    closed spec fn view(&self) -> Seq<MemberView<P>> {
        entries_view(self.entries@)
    }
}

spec fn entries_view<P>(es: Seq<(String, Member<P>)>) -> Seq<MemberView<P>> {
    es.map_values(|e: (String, Member<P>)| e.1@)
}

proof fn lemma_entries_view_remove_first<P>(s: Seq<(String, Member<P>)>)
    requires
        s.len() > 0,
    ensures
        entries_view(s.remove(0)) == entries_view(s).drop_first(),
        entries_view(s)[0] == s[0].1@,
{
    assert(entries_view(s.remove(0)) =~= entries_view(s).drop_first());
}

proof fn lemma_put_step<P>(v: Seq<MemberView<P>>, i: int, m: MemberView<P>)
    requires
        0 <= i < v.len(),
        lex_lt(sig(v[i]), sig(m)),
    ensures
        v.subrange(0, i) + put(v.subrange(i, v.len() as int), m)
            == v.subrange(0, i + 1) + put(v.subrange(i + 1, v.len() as int), m),
{
    let w = v.subrange(i, v.len() as int);
    lemma_lex_irreflexive(sig(m));
    lemma_lex_asymmetric(sig(v[i]), sig(m));
    assert(w[0] == v[i]);
    assert(w.drop_first() =~= v.subrange(i + 1, v.len() as int));
    assert(v.subrange(0, i) + (seq![v[i]] + put(v.subrange(i + 1, v.len() as int), m))
        =~= v.subrange(0, i + 1) + put(v.subrange(i + 1, v.len() as int), m));
}

impl<P> SignatureMap<P> {
    /// Every entry is keyed by its member's signature, and the entries are
    /// strictly increasing by signature, so no signature occurs twice.
    pub closed spec fn wf(&self) -> bool {
        &&& forall|i: int| 0 <= i < self.entries@.len() ==> #[trigger] self.entries@[i].0@ == sig(self.entries@[i].1@)
        &&& sorted_by_sig(self@)
    }

    /// The entries are strictly increasing by signature.
    pub proof fn lemma_sorted(&self)
        requires
            self.wf(),
        ensures
            sorted_by_sig(self@),
    {
    }

    /// The empty mapping.
    pub fn new() -> (r: Self)
        ensures
            r.wf(),
            r@ == Seq::<MemberView<P>>::empty(),
    {
        let r = SignatureMap { entries: Vec::new() };
        assert(r@ =~= Seq::<MemberView<P>>::empty());
        r
    }

    /// The number of entries.
    pub fn len(&self) -> (r: usize)
        ensures
            r == self@.len(),
    {
        self.entries.len()
    }

    /// Inserts `m` under its signature, replacing an entry with the same
    /// signature.
    pub fn insert(&mut self, m: Member<P>)
        requires
            old(self).wf(),
        ensures
            final(self).wf(),
            final(self)@ == put(old(self)@, m@),
    {
        let key = m.signature();
        let ghost v = self@;
        proof {
            lemma_put_sorted(v, m@);
        }
        let n = self.entries.len();
        let mut i: usize = 0;
        let mut go = true;
        assert(v.subrange(0, 0) + put(v.subrange(0, n as int), m@) =~= put(v, m@)) by {
            assert(v.subrange(0, n as int) =~= v);
        }
        while go && i < n
            invariant
                self.wf(),
                self@ == v,
                key@ == sig(m@),
                n == v.len(),
                i <= n,
                v.subrange(0, i as int) + put(v.subrange(i as int, n as int), m@) == put(v, m@),
                !go ==> i < n && !lex_lt(sig(v[i as int]), sig(m@)),
            decreases n - i + (if go { 1int } else { 0int }),
        {
            assert(v[i as int] == self.entries@[i as int].1@);
            assert(self.entries@[i as int].0@ == sig(v[i as int]));
            if lex_less(self.entries[i].0.as_str(), key.as_str()) {
                proof {
                    lemma_put_step(v, i as int, m@);
                }
                i = i + 1;
            } else {
                go = false;
            }
        }
        let ghost w = v.subrange(i as int, n as int);
        if i == n {
            assert(w =~= Seq::<MemberView<P>>::empty());
            self.entries.push((key, m));
            assert(self@ =~= v.subrange(0, i as int) + seq![m@]);
        } else if self.entries[i].0 == key {
            assert(w[0] == v[i as int]);
            self.entries.remove(i);
            self.entries.insert(i, (key, m));
            assert(w.drop_first() =~= v.subrange(i + 1, n as int));
            assert(self@ =~= v.subrange(0, i as int) + (seq![m@] + w.drop_first()));
        } else {
            assert(w[0] == v[i as int]);
            proof {
                lemma_lex_total(sig(m@), sig(v[i as int]));
            }
            self.entries.insert(i, (key, m));
            assert(self@ =~= v.subrange(0, i as int) + (seq![m@] + w));
        }
    }

    /// Inserts the members of `groups`, group after group and in order within
    /// a group.
    pub fn insert_groups(&mut self, groups: Vec<Overloads<P>>)
        requires
            old(self).wf(),
        ensures
            final(self).wf(),
            final(self)@ == put_all(old(self)@, members_of(groups_view(groups@))),
    {
        let ghost gs = groups_view(groups@);
        let ghost start = self@;
        let ghost mut k: int = 0;
        let mut groups = groups;
        assert(gs.subrange(0, 0) =~= Seq::<OverloadsView<P>>::empty());
        assert(members_of(gs.subrange(0, 0)) =~= Seq::<MemberView<P>>::empty());
        assert(groups_view(groups@) =~= gs.subrange(0, gs.len() as int));
        while groups.len() > 0
            invariant
                self.wf(),
                0 <= k <= gs.len(),
                groups_view(groups@) == gs.subrange(k, gs.len() as int),
                self@ == put_all(start, members_of(gs.subrange(0, k))),
            decreases groups.len(),
        {
            let ghost rest = groups@;
            let g = groups.remove(0);
            proof {
                assert(groups_view(rest) == gs.subrange(k, gs.len() as int));
                assert(rest.len() > 0);
                assert(groups_view(rest).len() == rest.len());
                assert(gs.len() - k == rest.len());
                assert(groups_view(groups@).len() == gs.len() - k - 1);
                assert(groups_view(rest)[0] == rest[0]@);
                assert forall|i: int| 0 <= i < groups@.len() implies groups_view(groups@)[i] == groups_view(rest)[i + 1] by {
                    assert(groups@[i] == rest[i + 1]);
                }
                assert(groups_view(groups@) =~= gs.subrange(k + 1, gs.len() as int));
            }
            let ghost before = members_of(gs.subrange(0, k));
            let ghost gm = g@.members;
            let ghost mut j: int = 0;
            let mut members = g.members;
            assert(gm.subrange(0, 0) =~= Seq::<MemberView<P>>::empty());
            assert(before + gm.subrange(0, 0) =~= before);
            assert(members_view(members@) =~= gm.subrange(0, gm.len() as int));
            while members.len() > 0
                invariant
                    self.wf(),
                    0 <= j <= gm.len(),
                    members_view(members@) == gm.subrange(j, gm.len() as int),
                    self@ == put_all(start, before + gm.subrange(0, j)),
                decreases members.len(),
            {
                let ghost before_remove = members@;
                let m = members.remove(0);
                proof {
                    lemma_members_view_remove_first(before_remove);
                    assert(members_view(members@) =~= gm.subrange(j + 1, gm.len() as int));
                }
                self.insert(m);
                proof {
                    let next = before + gm.subrange(0, j + 1);
                    assert(next.drop_last() =~= before + gm.subrange(0, j));
                    assert(next.last() == gm[j]);
                    j = j + 1;
                }
            }
            proof {
                assert(gs.subrange(0, k + 1).drop_last() =~= gs.subrange(0, k));
                assert(gm.subrange(0, j) =~= gm);
                k = k + 1;
            }
        }
        assert(gs.subrange(0, k) =~= gs);
    }
}

/// The members of `groups` keyed by signature; of several members with one
/// signature the last one stays.
pub fn flatten_by_signature<P>(groups: Vec<Overloads<P>>) -> (r: SignatureMap<P>)
    ensures
        r.wf(),
        r@ == put_all(Seq::empty(), members_of(groups_view(groups@))),
{
    let mut r = SignatureMap::new();
    r.insert_groups(groups);
    r
}

proof fn lemma_add_step<P>(v: Seq<OverloadsView<P>>, i: int, m: MemberView<P>)
    requires
        0 <= i < v.len(),
        lex_lt(v[i].name, m.name),
    ensures
        v.subrange(0, i) + add_to_groups(v.subrange(i, v.len() as int), m)
            == v.subrange(0, i + 1) + add_to_groups(v.subrange(i + 1, v.len() as int), m),
{
    let w = v.subrange(i, v.len() as int);
    lemma_lex_irreflexive(m.name);
    lemma_lex_asymmetric(v[i].name, m.name);
    assert(w[0] == v[i]);
    assert(w.drop_first() =~= v.subrange(i + 1, v.len() as int));
    assert(v.subrange(0, i) + (seq![v[i]] + add_to_groups(v.subrange(i + 1, v.len() as int), m))
        =~= v.subrange(0, i + 1) + add_to_groups(v.subrange(i + 1, v.len() as int), m));
}

/// Adds `m` to the name-ordered `groups` (see [`add_to_groups`]).
fn add_member<P>(groups: &mut Vec<Overloads<P>>, m: Member<P>)
    ensures
        groups_view(final(groups)@) == add_to_groups(groups_view(old(groups)@), m@),
{
    let ghost v = groups_view(groups@);
    let n = groups.len();
    let mut i: usize = 0;
    let mut go = true;
    assert(v.subrange(0, 0) + add_to_groups(v.subrange(0, n as int), m@) =~= add_to_groups(v, m@)) by {
        assert(v.subrange(0, n as int) =~= v);
    }
    while go && i < n
        invariant
            groups_view(groups@) == v,
            n == v.len(),
            i <= n,
            v.subrange(0, i as int) + add_to_groups(v.subrange(i as int, n as int), m@) == add_to_groups(v, m@),
            !go ==> i < n && !lex_lt(v[i as int].name, m@.name),
        decreases n - i + (if go { 1int } else { 0int }),
    {
        assert(v[i as int] == groups@[i as int]@);
        if lex_less(groups[i].name.as_str(), m.name.as_str()) {
            proof {
                lemma_add_step(v, i as int, m@);
            }
            i = i + 1;
        } else {
            go = false;
        }
    }
    let ghost w = v.subrange(i as int, n as int);
    if i == n {
        assert(w =~= Seq::<OverloadsView<P>>::empty());
        let name = m.name.clone();
        let mut members = Vec::new();
        members.push(m);
        let ghost before_push = groups@;
        let g = Overloads { name, members };
        assert(g@.members =~= seq![m@]);
        groups.push(g);
        proof {
            lemma_groups_view_push(before_push, g);
        }
        assert(groups_view(groups@) =~= v.subrange(0, i as int) + add_to_groups(w, m@));
    } else if groups[i].name == m.name {
        assert(w[0] == v[i as int]);
        let ghost before_remove = groups@;
        let g = groups.remove(i);
        proof {
            lemma_groups_view_remove(before_remove, i as int);
        }
        let ghost old_members = g.members@;
        let mut members = g.members;
        members.push(m);
        proof {
            lemma_members_view_push(old_members, m);
        }
        let ghost before_insert = groups@;
        let ng = Overloads { name: g.name, members };
        groups.insert(i, ng);
        proof {
            lemma_groups_view_insert(before_insert, i as int, ng);
        }
        assert(w.drop_first() =~= v.subrange(i + 1, n as int));
        assert(groups@[i as int]@.members =~= v[i as int].members.push(m@));
        assert(groups_view(groups@) =~= v.subrange(0, i as int) + add_to_groups(w, m@));
    } else {
        assert(w[0] == v[i as int]);
        proof {
            lemma_lex_total(m@.name, v[i as int].name);
        }
        let name = m.name.clone();
        let mut members = Vec::new();
        members.push(m);
        let ghost before_insert = groups@;
        let g = Overloads { name, members };
        assert(g@.members =~= seq![m@]);
        groups.insert(i, g);
        proof {
            lemma_groups_view_insert(before_insert, i as int, g);
        }
        assert(groups_view(groups@) =~= v.subrange(0, i as int) + add_to_groups(w, m@));
    }
}

/// The entries of `items` grouped by name, in order of name; within a group
/// in order of signature. The groups hold exactly the entries.
pub fn unflatten_by_name<P>(items: SignatureMap<P>) -> (r: Vec<Overloads<P>>)
    requires
        items.wf(),
    ensures
        groups_view(r@) == group_by_name(items@),
        grouping_wf(groups_view(r@)),
        forall|x: MemberView<P>| #[trigger] members_of(groups_view(r@)).contains(x) <==> items@.contains(x),
{
    proof {
        lemma_group_by_name_wf(items@);
        lemma_group_by_name_contents(items@);
    }
    let ghost v = items@;
    let mut entries = items.entries;
    let mut groups: Vec<Overloads<P>> = Vec::new();
    let ghost mut k: int = 0;
    assert(v.subrange(0, 0) =~= Seq::<MemberView<P>>::empty());
    assert(groups_view(groups@) =~= Seq::<OverloadsView<P>>::empty());
    assert(entries_view(entries@) =~= v.subrange(0, v.len() as int));
    while entries.len() > 0
        invariant
            0 <= k <= v.len(),
            entries_view(entries@) == v.subrange(k, v.len() as int),
            groups_view(groups@) == group_by_name(v.subrange(0, k)),
        decreases entries.len(),
    {
        let ghost before_remove = entries@;
        let (_, m) = entries.remove(0);
        proof {
            lemma_entries_view_remove_first(before_remove);
            assert(entries_view(entries@) =~= v.subrange(k + 1, v.len() as int));
        }
        add_member(&mut groups, m);
        proof {
            assert(v.subrange(0, k + 1).drop_last() =~= v.subrange(0, k));
            k = k + 1;
        }
    }
    assert(v.subrange(0, k) =~= v);
    groups
}

} // verus!
