//! Properties of the merge that relate several calls or hold of all inputs.

use vstd::prelude::*;
use crate::filter::{FilterPolicy, in_filter_set, retains};
use crate::flatten::{add_to_groups, group_by_name, grouping_wf, members_of, put, put_all, sorted_by_sig};
use crate::member::{
    join_types, sig, AbiDocumentView, MemberKind, MemberView, OverloadsView, document_wf, groups_named, names_of,
};
use crate::merger::{Section, flattened, kept_groups, merged, section_members, section_names, section_of};
use crate::order::{lex_lt, lemma_lex_irreflexive, lemma_lex_asymmetric, lemma_lex_transitive, lemma_lex_total};

verus! {

proof fn lemma_kept_all<P>(policy: FilterPolicy, gs: Seq<OverloadsView<P>>)
    requires
        forall|ms: Seq<MemberView<P>>| #[trigger] retains(policy, ms),
    ensures
        kept_groups(policy, gs) == gs,
    decreases gs.len(),
{
    if gs.len() > 0 {
        lemma_kept_all(policy, gs.drop_last());
        assert(gs.drop_last().push(gs.last()) =~= gs);
    }
}

/// An empty include list keeps every function group: the merge is the
/// merge with no policy applied to the functions at all.
pub proof fn include_empty_keeps_all<P>(docs: Seq<AbiDocumentView<P>>)
    ensures
        merged(FilterPolicy::Include(Set::empty()), docs).functions
            == group_by_name(flattened(docs, Section::Functions)),
{
    lemma_kept_all(FilterPolicy::Include(Set::<Seq<char>>::empty()), group_by_name(flattened(docs, Section::Functions)));
}

/// An empty exclude list drops no function group: the merge equals the
/// unrestricted one.
pub proof fn exclude_empty_keeps_all<P>(docs: Seq<AbiDocumentView<P>>)
    ensures
        merged(FilterPolicy::Exclude(Set::empty()), docs).functions
            == group_by_name(flattened(docs, Section::Functions)),
        merged(FilterPolicy::Exclude(Set::empty()), docs)
            == merged(FilterPolicy::Include(Set::empty()), docs),
{
    let e = FilterPolicy::Exclude(Set::<Seq<char>>::empty());
    assert forall|ms: Seq<MemberView<P>>| #[trigger] retains(e, ms) by {
        if ms.len() != 1 {
            assert(!in_filter_set(Set::<Seq<char>>::empty(), ms));
        }
    }
    lemma_kept_all(e, group_by_name(flattened(docs, Section::Functions)));
    include_empty_keeps_all(docs);
}

/// Some entry of `l` has signature `k`.
pub open spec fn has_sig<P>(l: Seq<MemberView<P>>, k: Seq<char>) -> bool {
    exists|j: int| 0 <= j < l.len() && sig(#[trigger] l[j]) == k
}

pub(crate) proof fn lemma_put_sorted<P>(l: Seq<MemberView<P>>, m: MemberView<P>)
    requires
        sorted_by_sig(l),
    ensures
        sorted_by_sig(put(l, m)),
        put(l, m).contains(m),
        forall|x: MemberView<P>| #[trigger] put(l, m).contains(x) ==> x == m || l.contains(x),
        forall|i: int| 0 <= i < l.len() && sig(l[i]) != sig(m) ==> put(l, m).contains(#[trigger] l[i]),
    decreases l.len(),
{
    let r = put(l, m);
    lemma_lex_irreflexive(sig(m));
    if l.len() == 0 {
        assert(r[0] == m);
    } else {
        let t = l.drop_first();
        assert forall|i: int| 0 <= i < t.len() implies lex_lt(sig(l[0]), #[trigger] sig(t[i])) by {
            assert(t[i] == l[i + 1]);
        }
        assert forall|i: int, j: int| 0 <= i < j < t.len() implies lex_lt(#[trigger] sig(t[i]), #[trigger] sig(t[j])) by {
            assert(t[i] == l[i + 1] && t[j] == l[j + 1]);
        }
        if sig(m) == sig(l[0]) {
            assert(r == seq![m] + t);
            assert forall|i: int, j: int| 0 <= i < j < r.len() implies lex_lt(#[trigger] sig(r[i]), #[trigger] sig(r[j])) by {
                if i == 0 {
                    assert(r[j] == t[j - 1]);
                } else {
                    assert(r[i] == t[i - 1] && r[j] == t[j - 1]);
                }
            }
            assert(r[0] == m);
            assert forall|x: MemberView<P>| #[trigger] r.contains(x) implies x == m || l.contains(x) by {
                if x != m {
                    let j = choose|j: int| 0 <= j < r.len() && r[j] == x;
                    assert(l[j] == x);
                }
            }
            assert forall|i: int| 0 <= i < l.len() && sig(l[i]) != sig(m) implies r.contains(#[trigger] l[i]) by {
                assert(r[i] == l[i]);
            }
        } else if lex_lt(sig(m), sig(l[0])) {
            assert(r == seq![m] + l);
            assert forall|i: int, j: int| 0 <= i < j < r.len() implies lex_lt(#[trigger] sig(r[i]), #[trigger] sig(r[j])) by {
                if i == 0 {
                    assert(r[j] == l[j - 1]);
                    if j > 1 {
                        lemma_lex_transitive(sig(m), sig(l[0]), sig(l[j - 1]));
                    }
                } else {
                    assert(r[i] == l[i - 1] && r[j] == l[j - 1]);
                }
            }
            assert(r[0] == m);
            assert forall|x: MemberView<P>| #[trigger] r.contains(x) implies x == m || l.contains(x) by {
                if x != m {
                    let j = choose|j: int| 0 <= j < r.len() && r[j] == x;
                    assert(l[j - 1] == x);
                }
            }
            assert forall|i: int| 0 <= i < l.len() && sig(l[i]) != sig(m) implies r.contains(#[trigger] l[i]) by {
                assert(r[i + 1] == l[i]);
            }
        } else {
            lemma_lex_total(sig(m), sig(l[0]));
            lemma_put_sorted(t, m);
            let pt = put(t, m);
            assert(r == seq![l[0]] + pt);
            assert forall|k: int| 0 <= k < pt.len() implies lex_lt(sig(l[0]), #[trigger] sig(pt[k])) by {
                assert(pt.contains(pt[k]));
                if pt[k] != m {
                    let i = choose|i: int| 0 <= i < t.len() && t[i] == pt[k];
                }
            }
            assert forall|i: int, j: int| 0 <= i < j < r.len() implies lex_lt(#[trigger] sig(r[i]), #[trigger] sig(r[j])) by {
                if i == 0 {
                    assert(r[j] == pt[j - 1]);
                } else {
                    assert(r[i] == pt[i - 1] && r[j] == pt[j - 1]);
                }
            }
            assert(pt.contains(m));
            let jm = choose|j: int| 0 <= j < pt.len() && pt[j] == m;
            assert(r[jm + 1] == m);
            assert forall|x: MemberView<P>| #[trigger] r.contains(x) implies x == m || l.contains(x) by {
                if x != m && x != l[0] {
                    let j = choose|j: int| 0 <= j < r.len() && r[j] == x;
                    assert(pt[j - 1] == x);
                    assert(pt.contains(x));
                    let i = choose|i: int| 0 <= i < t.len() && t[i] == x;
                    assert(l[i + 1] == x);
                } else if x == l[0] {
                    assert(l[0] == x);
                }
            }
            assert forall|i: int| 0 <= i < l.len() && sig(l[i]) != sig(m) implies r.contains(#[trigger] l[i]) by {
                if i == 0 {
                    assert(r[0] == l[0]);
                } else {
                    assert(t[i - 1] == l[i]);
                    assert(pt.contains(t[i - 1]));
                    let j = choose|j: int| 0 <= j < pt.len() && pt[j] == t[i - 1];
                    assert(r[j + 1] == l[i]);
                }
            }
        }
    }
}

/// Flattening yields entries strictly increasing by signature, drawn from
/// the members inserted, with every signature inserted present.
pub proof fn lemma_put_all_sorted<P>(l: Seq<MemberView<P>>, ms: Seq<MemberView<P>>)
    requires
        sorted_by_sig(l),
    ensures
        sorted_by_sig(put_all(l, ms)),
        forall|x: MemberView<P>| #[trigger] put_all(l, ms).contains(x) ==> l.contains(x) || ms.contains(x),
        forall|i: int| 0 <= i < ms.len() ==> has_sig(put_all(l, ms), sig(#[trigger] ms[i])),
    decreases ms.len(),
{
    if ms.len() > 0 {
        let pre = ms.drop_last();
        let m = ms.last();
        let a = put_all(l, pre);
        lemma_put_all_sorted(l, pre);
        lemma_put_sorted(a, m);
        let r = put(a, m);
        assert forall|x: MemberView<P>| #[trigger] r.contains(x) implies l.contains(x) || ms.contains(x) by {
            if x == m {
                assert(ms[ms.len() - 1] == m);
            } else {
                assert(a.contains(x));
                if !l.contains(x) {
                    assert(pre.contains(x));
                    let i = choose|i: int| 0 <= i < pre.len() && pre[i] == x;
                    assert(ms[i] == x);
                }
            }
        }
        assert(r.contains(m));
        let jm = choose|j: int| 0 <= j < r.len() && r[j] == m;
        assert forall|i: int| 0 <= i < ms.len() implies has_sig(r, sig(#[trigger] ms[i])) by {
            if i == ms.len() - 1 || sig(ms[i]) == sig(m) {
                assert(sig(r[jm]) == sig(ms[i]));
            } else {
                assert(pre[i] == ms[i]);
                assert(has_sig(a, sig(pre[i])));
                let j = choose|j: int| 0 <= j < a.len() && sig(#[trigger] a[j]) == sig(pre[i]);
                assert(r.contains(a[j]));
                let k = choose|k: int| 0 <= k < r.len() && r[k] == a[j];
                assert(sig(r[k]) == sig(ms[i]));
            }
        }
    }
}

proof fn lemma_sorted_tail<P>(a: Seq<MemberView<P>>)
    requires
        sorted_by_sig(a),
        a.len() > 0,
    ensures
        sorted_by_sig(a.drop_first()),
        forall|x: MemberView<P>| #[trigger] a.drop_first().contains(x) <==> a.contains(x) && x != a[0],
{
    let t = a.drop_first();
    assert forall|i: int, j: int| 0 <= i < j < t.len() implies lex_lt(#[trigger] sig(t[i]), #[trigger] sig(t[j])) by {
        assert(t[i] == a[i + 1] && t[j] == a[j + 1]);
    }
    assert forall|x: MemberView<P>| #[trigger] t.contains(x) <==> a.contains(x) && x != a[0] by {
        if t.contains(x) {
            let i = choose|i: int| 0 <= i < t.len() && t[i] == x;
            assert(a[i + 1] == x);
            lemma_lex_irreflexive(sig(a[0]));
        }
        if a.contains(x) && x != a[0] {
            let i = choose|i: int| 0 <= i < a.len() && a[i] == x;
            assert(t[i - 1] == x);
        }
    }
}

/// Two sequences strictly increasing by signature with the same entries are
/// equal.
pub proof fn lemma_sorted_unique<P>(a: Seq<MemberView<P>>, b: Seq<MemberView<P>>)
    requires
        sorted_by_sig(a),
        sorted_by_sig(b),
        forall|x: MemberView<P>| a.contains(x) <==> b.contains(x),
    ensures
        a == b,
    decreases a.len(),
{
    if a.len() == 0 {
        if b.len() > 0 {
            assert(b.contains(b[0]));
        }
        assert(a =~= b);
    } else {
        assert(a.contains(a[0]));
        assert(b.len() > 0);
        assert(b.contains(b[0]));
        if a[0] != b[0] {
            let j = choose|j: int| 0 <= j < b.len() && b[j] == a[0];
            let i = choose|i: int| 0 <= i < a.len() && a[i] == b[0];
            assert(lex_lt(sig(b[0]), sig(b[j])));
            assert(lex_lt(sig(a[0]), sig(a[i])));
            lemma_lex_asymmetric(sig(a[0]), sig(b[0]));
        }
        lemma_sorted_tail(a);
        lemma_sorted_tail(b);
        lemma_sorted_unique(a.drop_first(), b.drop_first());
        assert(a =~= seq![a[0]] + a.drop_first());
        assert(b =~= seq![b[0]] + b.drop_first());
    }
}

/// Grouping a signature-keyed mapping by name depends on the mapping alone:
/// any two listings of the same entries in order of signature give the same
/// groups, with the overloads of each group in the same order.
pub proof fn unflatten_order_stable<P>(a: Seq<MemberView<P>>, b: Seq<MemberView<P>>)
    requires
        sorted_by_sig(a),
        sorted_by_sig(b),
        forall|x: MemberView<P>| a.contains(x) <==> b.contains(x),
    ensures
        group_by_name(a) == group_by_name(b),
{
    lemma_sorted_unique(a, b);
}

proof fn lemma_members_of_cons<P>(g: OverloadsView<P>, rest: Seq<OverloadsView<P>>)
    ensures
        members_of(seq![g] + rest) == g.members + members_of(rest),
    decreases rest.len(),
{
    if rest.len() == 0 {
        assert(seq![g] + rest =~= seq![g]);
        assert(seq![g].drop_last() =~= Seq::<OverloadsView<P>>::empty());
        assert(seq![g].last() == g);
        assert(members_of(Seq::<OverloadsView<P>>::empty()) == Seq::<MemberView<P>>::empty());
        assert(members_of(rest) == Seq::<MemberView<P>>::empty());
        assert(members_of(seq![g]) == members_of(seq![g].drop_last()) + g.members);
        assert(g.members + members_of(rest) =~= g.members);
        assert(Seq::<MemberView<P>>::empty() + g.members =~= g.members);
    } else {
        lemma_members_of_cons(g, rest.drop_last());
        assert((seq![g] + rest).drop_last() =~= seq![g] + rest.drop_last());
        assert((seq![g] + rest).last() == rest.last());
        assert(g.members + members_of(rest.drop_last()) + rest.last().members
            =~= g.members + (members_of(rest.drop_last()) + rest.last().members));
    }
}

proof fn lemma_add_to_groups_multiset<P>(gs: Seq<OverloadsView<P>>, m: MemberView<P>)
    ensures
        members_of(add_to_groups(gs, m)).to_multiset() == members_of(gs).to_multiset().insert(m),
    decreases gs.len(),
{
    broadcast use vstd::seq_lib::group_to_multiset_ensures, vstd::seq_lib::lemma_multiset_commutative;

    let r = add_to_groups(gs, m);
    if gs.len() == 0 {
        let g = OverloadsView { name: m.name, members: seq![m] };
        lemma_members_of_cons(g, Seq::empty());
        assert(seq![g] + Seq::<OverloadsView<P>>::empty() =~= seq![g]);
        assert(seq![m] =~= Seq::<MemberView<P>>::empty().push(m));
        assert(members_of(r) =~= seq![m] + members_of(gs));
        assert(members_of(gs) =~= Seq::<MemberView<P>>::empty());
    } else {
        let g0 = gs[0];
        let t = gs.drop_first();
        assert(gs =~= seq![g0] + t);
        lemma_members_of_cons(g0, t);
        if m.name == g0.name {
            let g = OverloadsView { name: g0.name, members: g0.members.push(m) };
            lemma_members_of_cons(g, t);
            assert(g0.members.push(m) + members_of(t) =~= (g0.members + members_of(t)).insert(g0.members.len() as int, m));
        } else if lex_lt(m.name, g0.name) {
            let g = OverloadsView { name: m.name, members: seq![m] };
            lemma_members_of_cons(g, gs);
            assert(seq![m] + members_of(gs) =~= members_of(gs).insert(0, m));
        } else {
            lemma_add_to_groups_multiset(t, m);
            lemma_members_of_cons(g0, add_to_groups(t, m));
        }
    }
}

proof fn lemma_group_by_name_multiset<P>(l: Seq<MemberView<P>>)
    ensures
        members_of(group_by_name(l)).to_multiset() == l.to_multiset(),
    decreases l.len(),
{
    broadcast use vstd::seq_lib::group_to_multiset_ensures;

    if l.len() == 0 {
        assert(members_of(group_by_name(l)) =~= Seq::<MemberView<P>>::empty());
    } else {
        lemma_group_by_name_multiset(l.drop_last());
        lemma_add_to_groups_multiset(group_by_name(l.drop_last()), l.last());
        assert(l.drop_last().push(l.last()) =~= l);
    }
}

proof fn lemma_sorted_count<P>(l: Seq<MemberView<P>>, x: MemberView<P>)
    requires
        sorted_by_sig(l),
    ensures
        l.to_multiset().count(x) <= 1,
    decreases l.len(),
{
    broadcast use vstd::seq_lib::group_to_multiset_ensures;

    if l.len() > 0 {
        let pre = l.drop_last();
        assert forall|i: int, j: int| 0 <= i < j < pre.len() implies lex_lt(#[trigger] sig(pre[i]), #[trigger] sig(pre[j])) by {
            assert(pre[i] == l[i] && pre[j] == l[j]);
        }
        lemma_sorted_count(pre, x);
        assert(pre.push(l.last()) =~= l);
        if x == l.last() && pre.contains(x) {
            let i = choose|i: int| 0 <= i < pre.len() && pre[i] == x;
            assert(lex_lt(sig(l[i]), sig(l[l.len() - 1])));
            lemma_lex_irreflexive(sig(x));
        }
    }
}

/// A function with the same name and parameter types in two documents
/// occurs exactly once in their unrestricted merge: one member carries its
/// signature, and it occurs once.
pub proof fn duplicate_function_merged_once<P>(
    d1: AbiDocumentView<P>,
    d2: AbiDocumentView<P>,
    f1: MemberView<P>,
    f2: MemberView<P>,
)
    requires
        members_of(d1.functions).contains(f1),
        members_of(d2.functions).contains(f2),
        f1.kind == MemberKind::Function,
        f2.kind == MemberKind::Function,
        f1.name == f2.name,
        f1.types == f2.types,
    ensures
        ({
            let fs = members_of(merged(FilterPolicy::Include(Set::empty()), seq![d1, d2]).functions);
            exists|x: MemberView<P>|
                sig(x) == sig(f2) && fs.to_multiset().count(x) == 1
                && forall|i: int| 0 <= i < fs.len() && sig(#[trigger] fs[i]) == sig(f2) ==> fs[i] == x
        }),
{
    broadcast use vstd::seq_lib::group_to_multiset_ensures;

    let docs = seq![d1, d2];
    assert(docs.drop_last() =~= seq![d1]);
    assert(seq![d1].drop_last() =~= Seq::<AbiDocumentView<P>>::empty());
    let ms = section_members(docs, Section::Functions);
    assert(seq![d1].last() == d1);
    assert(docs.last() == d2);
    assert(section_members(Seq::<AbiDocumentView<P>>::empty(), Section::Functions) == Seq::<MemberView<P>>::empty());
    assert(section_members(seq![d1], Section::Functions) =~= members_of(d1.functions));
    assert(ms == members_of(d1.functions) + members_of(d2.functions));
    let i2 = choose|i: int| 0 <= i < members_of(d2.functions).len() && members_of(d2.functions)[i] == f2;
    assert(ms[members_of(d1.functions).len() + i2] == f2);
    let l = flattened(docs, Section::Functions);
    lemma_put_all_sorted(Seq::empty(), ms);
    assert(has_sig(l, sig(ms[members_of(d1.functions).len() + i2])));
    let j = choose|j: int| 0 <= j < l.len() && sig(#[trigger] l[j]) == sig(f2);
    let x = l[j];
    include_empty_keeps_all(docs);
    let fs = members_of(merged(FilterPolicy::Include(Set::empty()), docs).functions);
    lemma_group_by_name_multiset(l);
    assert(fs.to_multiset() == l.to_multiset());
    lemma_sorted_count(l, x);
    assert(l.contains(x));
    assert forall|i: int| 0 <= i < fs.len() && sig(#[trigger] fs[i]) == sig(f2) implies fs[i] == x by {
        assert(fs.contains(fs[i]));
        assert(l.to_multiset().count(fs[i]) > 0);
        let k = choose|k: int| 0 <= k < l.len() && l[k] == fs[i];
        if k != j {
            lemma_lex_irreflexive(sig(f2));
            if k < j {
                assert(lex_lt(sig(l[k]), sig(l[j])));
            } else {
                assert(lex_lt(sig(l[j]), sig(l[k])));
            }
        }
    }
}

proof fn lemma_members_of_index<P>(gs: Seq<OverloadsView<P>>, x: MemberView<P>)
    ensures
        members_of(gs).contains(x) <==> exists|i: int, k: int| 0 <= i < gs.len() && 0 <= k < gs[i].members.len() && #[trigger] gs[i].members[k] == x,
    decreases gs.len(),
{
    if gs.len() > 0 {
        let pre = gs.drop_last();
        let last = gs.last();
        lemma_members_of_index(pre, x);
        let ms = members_of(gs);
        assert(ms == members_of(pre) + last.members);
        if ms.contains(x) {
            let p = choose|p: int| 0 <= p < ms.len() && ms[p] == x;
            if p < members_of(pre).len() {
                assert(members_of(pre)[p] == x);
                let (i, k) = choose|i: int, k: int| 0 <= i < pre.len() && 0 <= k < pre[i].members.len() && #[trigger] pre[i].members[k] == x;
                assert(gs[i] == pre[i]);
            } else {
                let k = p - members_of(pre).len();
                assert(last.members[k] == x);
                assert(gs[gs.len() - 1].members[k] == x);
            }
        }
        if exists|i: int, k: int| 0 <= i < gs.len() && 0 <= k < gs[i].members.len() && #[trigger] gs[i].members[k] == x {
            let (i, k) = choose|i: int, k: int| 0 <= i < gs.len() && 0 <= k < gs[i].members.len() && #[trigger] gs[i].members[k] == x;
            if i < gs.len() - 1 {
                assert(pre[i].members[k] == x);
                assert(members_of(pre).contains(x));
                let p = choose|p: int| 0 <= p < members_of(pre).len() && members_of(pre)[p] == x;
                assert(ms[p] == x);
            } else {
                assert(ms[members_of(pre).len() + k] == x);
            }
        }
    }
}

proof fn lemma_add_wf<P>(gs: Seq<OverloadsView<P>>, m: MemberView<P>)
    requires
        grouping_wf(gs),
        forall|x: MemberView<P>| #[trigger] members_of(gs).contains(x) ==> lex_lt(sig(x), sig(m)),
    ensures
        grouping_wf(add_to_groups(gs, m)),
        add_to_groups(gs, m).len() > 0,
        add_to_groups(gs, m)[0].name == m.name || (gs.len() > 0 && add_to_groups(gs, m)[0].name == gs[0].name),
    decreases gs.len(),
{
    let r = add_to_groups(gs, m);
    if gs.len() == 0 {
        assert(r[0].members =~= seq![m]);
    } else {
        let g0 = gs[0];
        let t = gs.drop_first();
        assert(gs =~= seq![g0] + t);
        lemma_members_of_cons(g0, t);
        assert forall|k: int| 0 <= k < g0.members.len() implies lex_lt(sig(#[trigger] g0.members[k]), sig(m)) by {
            lemma_members_of_index(gs, g0.members[k]);
            assert(gs[0].members[k] == g0.members[k]);
        }
        assert forall|i: int, j: int| 0 <= i < j < t.len() implies lex_lt(#[trigger] t[i].name, #[trigger] t[j].name) by {
            assert(t[i] == gs[i + 1] && t[j] == gs[j + 1]);
        }
        assert forall|i: int| 0 <= i < t.len() implies (#[trigger] t[i]).members.len() > 0 && sorted_by_sig(t[i].members) by {
            assert(t[i] == gs[i + 1]);
        }
        assert forall|i: int, k: int| 0 <= i < t.len() && 0 <= k < t[i].members.len() implies (#[trigger] t[i].members[k]).name == t[i].name by {
            assert(t[i] == gs[i + 1]);
            assert(gs[i + 1].members[k].name == gs[i + 1].name);
        }
        if m.name == g0.name {
            let g = OverloadsView { name: g0.name, members: g0.members.push(m) };
            assert(r == seq![g] + t);
            assert forall|a: int, b: int| 0 <= a < b < g.members.len() implies lex_lt(#[trigger] sig(g.members[a]), #[trigger] sig(g.members[b])) by {
                if b == g0.members.len() {
                    assert(g.members[a] == g0.members[a]);
                } else {
                    assert(g.members[a] == g0.members[a] && g.members[b] == g0.members[b]);
                }
            }
            assert forall|i: int, j: int| 0 <= i < j < r.len() implies lex_lt(#[trigger] r[i].name, #[trigger] r[j].name) by {
                if i == 0 {
                    assert(r[j] == gs[j]);
                } else {
                    assert(r[i] == gs[i] && r[j] == gs[j]);
                }
            }
            assert forall|i: int| 0 <= i < r.len() implies (#[trigger] r[i]).members.len() > 0 && sorted_by_sig(r[i].members) by {
                if i > 0 {
                    assert(r[i] == gs[i]);
                }
            }
            assert forall|i: int, k: int| 0 <= i < r.len() && 0 <= k < r[i].members.len() implies (#[trigger] r[i].members[k]).name == r[i].name by {
                if i > 0 {
                    assert(r[i] == gs[i]);
                } else if k < g0.members.len() {
                    assert(g.members[k] == g0.members[k]);
                    assert(gs[0].members[k].name == gs[0].name);
                }
            }
        } else if lex_lt(m.name, g0.name) {
            let g = OverloadsView { name: m.name, members: seq![m] };
            assert(r == seq![g] + gs);
            assert forall|i: int, j: int| 0 <= i < j < r.len() implies lex_lt(#[trigger] r[i].name, #[trigger] r[j].name) by {
                if i == 0 {
                    assert(r[j] == gs[j - 1]);
                    if j > 1 {
                        lemma_lex_transitive(m.name, g0.name, gs[j - 1].name);
                    }
                } else {
                    assert(r[i] == gs[i - 1] && r[j] == gs[j - 1]);
                }
            }
            assert forall|i: int| 0 <= i < r.len() implies (#[trigger] r[i]).members.len() > 0 && sorted_by_sig(r[i].members) by {
                if i > 0 {
                    assert(r[i] == gs[i - 1]);
                }
            }
            assert forall|i: int, k: int| 0 <= i < r.len() && 0 <= k < r[i].members.len() implies (#[trigger] r[i].members[k]).name == r[i].name by {
                if i > 0 {
                    assert(r[i] == gs[i - 1]);
                    assert(gs[i - 1].members[k].name == gs[i - 1].name);
                }
            }
        } else {
            lemma_lex_total(m.name, g0.name);
            assert forall|x: MemberView<P>| #[trigger] members_of(t).contains(x) implies lex_lt(sig(x), sig(m)) by {
                let p = choose|p: int| 0 <= p < members_of(t).len() && members_of(t)[p] == x;
                assert(members_of(gs)[g0.members.len() + p] == x);
                assert(members_of(gs).contains(x));
            }
            lemma_add_wf(t, m);
            let rt = add_to_groups(t, m);
            assert(r == seq![g0] + rt);
            if t.len() > 0 && rt[0].name == t[0].name {
                assert(t[0] == gs[1]);
            }
            assert forall|i: int, j: int| 0 <= i < j < r.len() implies lex_lt(#[trigger] r[i].name, #[trigger] r[j].name) by {
                if i == 0 {
                    assert(r[j] == rt[j - 1]);
                    if j > 1 {
                        lemma_lex_transitive(g0.name, rt[0].name, rt[j - 1].name);
                    }
                } else {
                    assert(r[i] == rt[i - 1] && r[j] == rt[j - 1]);
                }
            }
            assert forall|i: int| 0 <= i < r.len() implies (#[trigger] r[i]).members.len() > 0 && sorted_by_sig(r[i].members) by {
                if i > 0 {
                    assert(r[i] == rt[i - 1]);
                }
            }
            assert forall|i: int, k: int| 0 <= i < r.len() && 0 <= k < r[i].members.len() implies (#[trigger] r[i].members[k]).name == r[i].name by {
                if i > 0 {
                    assert(r[i] == rt[i - 1]);
                    assert(rt[i - 1].members[k].name == rt[i - 1].name);
                } else {
                    assert(gs[0].members[k].name == gs[0].name);
                }
            }
        }
    }
}

pub(crate) proof fn lemma_group_by_name_wf<P>(l: Seq<MemberView<P>>)
    requires
        sorted_by_sig(l),
    ensures
        grouping_wf(group_by_name(l)),
    decreases l.len(),
{
    broadcast use vstd::seq_lib::group_to_multiset_ensures;

    if l.len() > 0 {
        let pre = l.drop_last();
        assert forall|i: int, j: int| 0 <= i < j < pre.len() implies lex_lt(#[trigger] sig(pre[i]), #[trigger] sig(pre[j])) by {
            assert(pre[i] == l[i] && pre[j] == l[j]);
        }
        lemma_group_by_name_wf(pre);
        lemma_group_by_name_multiset(pre);
        assert forall|x: MemberView<P>| #[trigger] members_of(group_by_name(pre)).contains(x) implies lex_lt(sig(x), sig(l.last())) by {
            assert(members_of(group_by_name(pre)).to_multiset().count(x) > 0);
            assert(pre.contains(x));
            let i = choose|i: int| 0 <= i < pre.len() && pre[i] == x;
            assert(l[i] == x);
        }
        lemma_add_wf(group_by_name(pre), l.last());
    }
}

proof fn lemma_concat_contains<A>(a: Seq<A>, b: Seq<A>, x: A)
    ensures
        (a + b).contains(x) <==> a.contains(x) || b.contains(x),
{
    if (a + b).contains(x) {
        let p = choose|p: int| 0 <= p < (a + b).len() && (a + b)[p] == x;
        if p < a.len() {
            assert(a[p] == x);
        } else {
            assert(b[p - a.len()] == x);
        }
    }
    if a.contains(x) {
        let p = choose|p: int| 0 <= p < a.len() && a[p] == x;
        assert((a + b)[p] == x);
    }
    if b.contains(x) {
        let p = choose|p: int| 0 <= p < b.len() && b[p] == x;
        assert((a + b)[a.len() + p] == x);
    }
}

proof fn lemma_kept_wf<P>(policy: FilterPolicy, gs: Seq<OverloadsView<P>>)
    requires
        grouping_wf(gs),
    ensures
        grouping_wf(kept_groups(policy, gs)),
        forall|g: OverloadsView<P>| #[trigger] kept_groups(policy, gs).contains(g) ==> gs.contains(g),
        forall|x: MemberView<P>| #[trigger] members_of(kept_groups(policy, gs)).contains(x) ==> members_of(gs).contains(x),
    decreases gs.len(),
{
    if gs.len() > 0 {
        let pre = gs.drop_last();
        let last = gs.last();
        assert forall|i: int, j: int| 0 <= i < j < pre.len() implies lex_lt(#[trigger] pre[i].name, #[trigger] pre[j].name) by {
            assert(pre[i] == gs[i] && pre[j] == gs[j]);
        }
        assert forall|i: int| 0 <= i < pre.len() implies (#[trigger] pre[i]).members.len() > 0 && sorted_by_sig(pre[i].members) by {
            assert(pre[i] == gs[i]);
        }
        assert forall|i: int, k: int| 0 <= i < pre.len() && 0 <= k < pre[i].members.len() implies (#[trigger] pre[i].members[k]).name == pre[i].name by {
            assert(pre[i] == gs[i]);
            assert(gs[i].members[k].name == gs[i].name);
        }
        lemma_kept_wf(policy, pre);
        let kp = kept_groups(policy, pre);
        let k = kept_groups(policy, gs);
        assert(members_of(gs) == members_of(pre) + last.members);
        assert forall|x: MemberView<P>| #[trigger] members_of(pre).contains(x) implies members_of(gs).contains(x) by {
            lemma_concat_contains(members_of(pre), last.members, x);
        }
        assert forall|g: OverloadsView<P>| #[trigger] pre.contains(g) implies gs.contains(g) by {
            let j = choose|j: int| 0 <= j < pre.len() && pre[j] == g;
            assert(gs[j] == g);
        }
        if retains(policy, last.members) {
            assert(k == kp.push(last));
            assert forall|i: int, j: int| 0 <= i < j < k.len() implies lex_lt(#[trigger] k[i].name, #[trigger] k[j].name) by {
                if j < kp.len() {
                    assert(k[i] == kp[i] && k[j] == kp[j]);
                } else {
                    assert(k[i] == kp[i]);
                    assert(kp.contains(kp[i]));
                    let a = choose|a: int| 0 <= a < pre.len() && pre[a] == kp[i];
                    assert(gs[a] == k[i]);
                    assert(k[j] == gs[gs.len() - 1]);
                }
            }
            assert forall|i: int| 0 <= i < k.len() implies (#[trigger] k[i]).members.len() > 0 && sorted_by_sig(k[i].members) by {
                if i < kp.len() {
                    assert(k[i] == kp[i]);
                } else {
                    assert(k[i] == gs[gs.len() - 1]);
                }
            }
            assert forall|i: int, m: int| 0 <= i < k.len() && 0 <= m < k[i].members.len() implies (#[trigger] k[i].members[m]).name == k[i].name by {
                if i < kp.len() {
                    assert(k[i] == kp[i]);
                    assert(kp[i].members[m].name == kp[i].name);
                } else {
                    assert(k[i] == gs[gs.len() - 1]);
                    assert(gs[gs.len() - 1].members[m].name == gs[gs.len() - 1].name);
                }
            }
            assert forall|g: OverloadsView<P>| #[trigger] k.contains(g) implies gs.contains(g) by {
                let j = choose|j: int| 0 <= j < k.len() && k[j] == g;
                if j < kp.len() {
                    assert(kp[j] == g);
                    assert(kp.contains(g));
                } else {
                    assert(gs[gs.len() - 1] == g);
                }
            }
            assert(members_of(k) == members_of(kp) + last.members) by {
                assert(k.drop_last() =~= kp);
            }
            assert forall|x: MemberView<P>| #[trigger] members_of(k).contains(x) implies members_of(gs).contains(x) by {
                lemma_concat_contains(members_of(kp), last.members, x);
                lemma_concat_contains(members_of(pre), last.members, x);
            }
        }
    }
}

proof fn lemma_wf_tail<P>(gs: Seq<OverloadsView<P>>)
    requires
        grouping_wf(gs),
        gs.len() > 0,
    ensures
        grouping_wf(gs.drop_first()),
        forall|x: MemberView<P>| #[trigger] members_of(gs).contains(x) <==>
            (gs[0].members.contains(x) || members_of(gs.drop_first()).contains(x)),
        forall|x: MemberView<P>| #[trigger] members_of(gs).contains(x) ==> (gs[0].members.contains(x) <==> x.name == gs[0].name),
        forall|x: MemberView<P>| #[trigger] members_of(gs.drop_first()).contains(x) ==> x.name != gs[0].name,
{
    let t = gs.drop_first();
    assert forall|i: int, j: int| 0 <= i < j < t.len() implies lex_lt(#[trigger] t[i].name, #[trigger] t[j].name) by {
        assert(t[i] == gs[i + 1] && t[j] == gs[j + 1]);
    }
    assert forall|i: int| 0 <= i < t.len() implies (#[trigger] t[i]).members.len() > 0 && sorted_by_sig(t[i].members) by {
        assert(t[i] == gs[i + 1]);
    }
    assert forall|i: int, k: int| 0 <= i < t.len() && 0 <= k < t[i].members.len() implies (#[trigger] t[i].members[k]).name == t[i].name by {
        assert(t[i] == gs[i + 1]);
        assert(gs[i + 1].members[k].name == gs[i + 1].name);
    }
    assert(gs =~= seq![gs[0]] + t);
    lemma_members_of_cons(gs[0], t);
    assert forall|x: MemberView<P>| #[trigger] members_of(gs).contains(x) <==>
        (gs[0].members.contains(x) || members_of(t).contains(x)) by {
        let a = gs[0].members;
        let b = members_of(t);
        if (a + b).contains(x) {
            let p = choose|p: int| 0 <= p < (a + b).len() && (a + b)[p] == x;
            if p < a.len() {
                assert(a[p] == x);
            } else {
                assert(b[p - a.len()] == x);
            }
        }
        if a.contains(x) {
            let p = choose|p: int| 0 <= p < a.len() && a[p] == x;
            assert((a + b)[p] == x);
        }
        if b.contains(x) {
            let p = choose|p: int| 0 <= p < b.len() && b[p] == x;
            assert((a + b)[a.len() + p] == x);
        }
    }
    assert forall|x: MemberView<P>| #[trigger] members_of(gs).contains(x) implies (gs[0].members.contains(x) <==> x.name == gs[0].name) by {
        if gs[0].members.contains(x) {
            let k = choose|k: int| 0 <= k < gs[0].members.len() && gs[0].members[k] == x;
            assert(gs[0].members[k].name == gs[0].name);
        } else {
            lemma_members_of_index(t, x);
            let (i, k) = choose|i: int, k: int| 0 <= i < t.len() && 0 <= k < t[i].members.len() && #[trigger] t[i].members[k] == x;
            assert(t[i] == gs[i + 1]);
            assert(gs[i + 1].members[k].name == gs[i + 1].name);
            assert(lex_lt(gs[0].name, gs[i + 1].name));
            lemma_lex_irreflexive(gs[0].name);
        }
    }
    assert forall|x: MemberView<P>| #[trigger] members_of(t).contains(x) implies x.name != gs[0].name by {
        lemma_members_of_index(t, x);
        let (i, k) = choose|i: int, k: int| 0 <= i < t.len() && 0 <= k < t[i].members.len() && #[trigger] t[i].members[k] == x;
        assert(t[i] == gs[i + 1]);
        assert(gs[i + 1].members[k].name == gs[i + 1].name);
        assert(lex_lt(gs[0].name, gs[i + 1].name));
        lemma_lex_irreflexive(gs[0].name);
    }
}

/// Two well-formed groupings with the same members are equal.
proof fn lemma_grouping_unique<P>(g1: Seq<OverloadsView<P>>, g2: Seq<OverloadsView<P>>)
    requires
        grouping_wf(g1),
        grouping_wf(g2),
        forall|x: MemberView<P>| members_of(g1).contains(x) <==> members_of(g2).contains(x),
    ensures
        g1 == g2,
    decreases g1.len(),
{
    if g1.len() == 0 || g2.len() == 0 {
        if g1.len() > 0 {
            lemma_members_of_index(g1, g1[0].members[0]);
            lemma_members_of_index(g2, g1[0].members[0]);
        }
        if g2.len() > 0 {
            lemma_members_of_index(g1, g2[0].members[0]);
            lemma_members_of_index(g2, g2[0].members[0]);
        }
        assert(g1 =~= g2);
    } else {
        let a = g1[0];
        let b = g2[0];
        lemma_members_of_index(g1, a.members[0]);
        lemma_members_of_index(g2, a.members[0]);
        lemma_members_of_index(g1, b.members[0]);
        lemma_members_of_index(g2, b.members[0]);
        let (j, k) = choose|j: int, k: int| 0 <= j < g2.len() && 0 <= k < g2[j].members.len() && #[trigger] g2[j].members[k] == a.members[0];
        assert(g2[j].members[k].name == g2[j].name);
        assert(g1[0].members[0].name == g1[0].name);
        let (j2, k2) = choose|j: int, k: int| 0 <= j < g1.len() && 0 <= k < g1[j].members.len() && #[trigger] g1[j].members[k] == b.members[0];
        assert(g1[j2].members[k2].name == g1[j2].name);
        assert(g2[0].members[0].name == g2[0].name);
        if a.name != b.name {
            assert(j != 0 && j2 != 0);
            assert(lex_lt(g2[0].name, g2[j].name));
            assert(lex_lt(g1[0].name, g1[j2].name));
            lemma_lex_asymmetric(a.name, b.name);
        }
        lemma_wf_tail(g1);
        lemma_wf_tail(g2);
        assert forall|x: MemberView<P>| a.members.contains(x) <==> b.members.contains(x) by {
            if a.members.contains(x) {
                assert(members_of(g1).contains(x));
            }
            if b.members.contains(x) {
                assert(members_of(g2).contains(x));
            }
        }
        lemma_sorted_unique(a.members, b.members);
        assert(a == b);
        assert forall|x: MemberView<P>| members_of(g1.drop_first()).contains(x) <==> members_of(g2.drop_first()).contains(x) by {
            if members_of(g1.drop_first()).contains(x) {
                assert(members_of(g1).contains(x));
                if b.members.contains(x) {
                    let q = choose|q: int| 0 <= q < b.members.len() && b.members[q] == x;
                    assert(g2[0].members[q].name == g2[0].name);
                }
            }
            if members_of(g2.drop_first()).contains(x) {
                assert(members_of(g2).contains(x));
                if a.members.contains(x) {
                    let q = choose|q: int| 0 <= q < a.members.len() && a.members[q] == x;
                    assert(g1[0].members[q].name == g1[0].name);
                }
            }
        }
        lemma_grouping_unique(g1.drop_first(), g2.drop_first());
        assert(g1 =~= seq![a] + g1.drop_first());
        assert(g2 =~= seq![b] + g2.drop_first());
    }
}

pub(crate) proof fn lemma_group_by_name_contents<P>(l: Seq<MemberView<P>>)
    ensures
        forall|x: MemberView<P>| #[trigger] members_of(group_by_name(l)).contains(x) <==> l.contains(x),
{
    broadcast use vstd::seq_lib::group_to_multiset_ensures;

    lemma_group_by_name_multiset(l);
    assert forall|x: MemberView<P>| #[trigger] members_of(group_by_name(l)).contains(x) <==> l.contains(x) by {
        assert(members_of(group_by_name(l)).to_multiset().count(x) == l.to_multiset().count(x));
    }
}

/// Flattening the members of groups drawn from a signature-ordered listing
/// keeps exactly those members.
proof fn lemma_flatten_contents<P>(gs: Seq<OverloadsView<P>>, l: Seq<MemberView<P>>)
    requires
        sorted_by_sig(l),
        forall|x: MemberView<P>| #[trigger] members_of(gs).contains(x) ==> l.contains(x),
    ensures
        sorted_by_sig(put_all(Seq::empty(), members_of(gs))),
        forall|x: MemberView<P>| #[trigger] members_of(gs).contains(x) <==> put_all(Seq::empty(), members_of(gs)).contains(x),
{
    let ms = members_of(gs);
    let k = put_all(Seq::<MemberView<P>>::empty(), ms);
    lemma_put_all_sorted(Seq::<MemberView<P>>::empty(), ms);
    assert forall|x: MemberView<P>| #[trigger] ms.contains(x) <==> k.contains(x) by {
        if k.contains(x) {
            assert(!Seq::<MemberView<P>>::empty().contains(x));
        }
        if ms.contains(x) {
            let i = choose|i: int| 0 <= i < ms.len() && ms[i] == x;
            assert(has_sig(k, sig(ms[i])));
            let j = choose|j: int| 0 <= j < k.len() && sig(#[trigger] k[j]) == sig(x);
            let y = k[j];
            assert(k.contains(y));
            assert(!Seq::<MemberView<P>>::empty().contains(y));
            assert(ms.contains(y));
            assert(l.contains(x) && l.contains(y));
            let a = choose|a: int| 0 <= a < l.len() && l[a] == x;
            let b = choose|b: int| 0 <= b < l.len() && l[b] == y;
            if a != b {
                lemma_lex_irreflexive(sig(x));
                if a < b {
                    assert(lex_lt(sig(l[a]), sig(l[b])));
                } else {
                    assert(lex_lt(sig(l[b]), sig(l[a])));
                }
            }
        }
    }
}

/// Flattening a well-formed grouping whose members are entries of a
/// signature-ordered listing, and grouping the result again, gives the same
/// grouping back.
proof fn lemma_regroup<P>(gs: Seq<OverloadsView<P>>, l: Seq<MemberView<P>>)
    requires
        sorted_by_sig(l),
        grouping_wf(gs),
        forall|x: MemberView<P>| #[trigger] members_of(gs).contains(x) ==> l.contains(x),
    ensures
        group_by_name(put_all(Seq::empty(), members_of(gs))) == gs,
{
    let k = put_all(Seq::<MemberView<P>>::empty(), members_of(gs));
    lemma_flatten_contents(gs, l);
    lemma_group_by_name_wf(k);
    lemma_group_by_name_contents(k);
    lemma_grouping_unique(group_by_name(k), gs);
}

/// Grouping a signature-keyed mapping by name and flattening the groups
/// again gives the same mapping back.
pub proof fn flatten_unflatten_round_trip<P>(l: Seq<MemberView<P>>)
    requires
        sorted_by_sig(l),
    ensures
        put_all(Seq::empty(), members_of(group_by_name(l))) == l,
{
    let gs = group_by_name(l);
    lemma_group_by_name_contents(l);
    lemma_flatten_contents(gs, l);
    let k = put_all(Seq::<MemberView<P>>::empty(), members_of(gs));
    assert forall|x: MemberView<P>| k.contains(x) <==> l.contains(x) by {
        assert(members_of(gs).contains(x) <==> k.contains(x));
        assert(members_of(gs).contains(x) <==> l.contains(x));
    }
    lemma_sorted_unique(k, l);
}

/// Merging the result of a merge again, alone and without restriction,
/// gives the same document back.
pub proof fn remerge_is_identity<P>(policy: FilterPolicy, docs: Seq<AbiDocumentView<P>>)
    ensures
        merged(FilterPolicy::Include(Set::empty()), seq![merged(policy, docs)]) == merged(policy, docs),
{
    let d = merged(policy, docs);
    let one = seq![d];
    assert(one.drop_last() =~= Seq::<AbiDocumentView<P>>::empty());
    assert(one.last() == d);
    let empty = Seq::<MemberView<P>>::empty();
    let nodocs = Seq::<AbiDocumentView<P>>::empty();

    let lf = flattened(docs, Section::Functions);
    lemma_put_all_sorted(empty, section_members(docs, Section::Functions));
    lemma_group_by_name_wf(lf);
    lemma_group_by_name_contents(lf);
    lemma_kept_wf(policy, group_by_name(lf));
    assert(section_members(nodocs, Section::Functions) == empty);
    assert(section_members(one, Section::Functions) =~= members_of(d.functions));
    lemma_regroup(d.functions, lf);
    let inc = FilterPolicy::Include(Set::<Seq<char>>::empty());
    assert forall|ms: Seq<MemberView<P>>| #[trigger] retains(inc, ms) by {}
    lemma_kept_all(inc, group_by_name(flattened(one, Section::Functions)));

    let le = flattened(docs, Section::Events);
    lemma_put_all_sorted(empty, section_members(docs, Section::Events));
    lemma_group_by_name_wf(le);
    lemma_group_by_name_contents(le);
    assert(section_members(nodocs, Section::Events) == empty);
    assert(section_members(one, Section::Events) =~= members_of(d.events));
    lemma_regroup(d.events, le);

    let lr = flattened(docs, Section::Errors);
    lemma_put_all_sorted(empty, section_members(docs, Section::Errors));
    lemma_group_by_name_wf(lr);
    lemma_group_by_name_contents(lr);
    assert(section_members(nodocs, Section::Errors) == empty);
    assert(section_members(one, Section::Errors) =~= members_of(d.errors));
    lemma_regroup(d.errors, lr);
}

/// A parameter type string that is not empty and holds no comma.
pub open spec fn simple_type(t: Seq<char>) -> bool {
    t.len() > 0 && !t.contains(',')
}

proof fn lemma_join_shape(ts: Seq<Seq<char>>)
    requires
        forall|i: int| 0 <= i < ts.len() ==> simple_type(#[trigger] ts[i]),
    ensures
        ts.len() == 0 <==> join_types(ts).len() == 0,
        ts.len() == 1 ==> !join_types(ts).contains(','),
        ts.len() >= 2 ==> join_types(ts) == join_types(ts.drop_last()) + seq![','] + ts.last(),
{
    if ts.len() == 1 {
        assert(simple_type(ts[0]));
    }
    if ts.len() >= 2 {
        assert(simple_type(ts[ts.len() - 1]));
        assert(join_types(ts).len() > 0);
    }
}

proof fn lemma_join_contains_comma(ts: Seq<Seq<char>>)
    requires
        ts.len() >= 2,
    ensures
        join_types(ts).contains(','),
{
    let s = join_types(ts);
    let a = join_types(ts.drop_last());
    assert(s[a.len() as int] == ',');
}

proof fn lemma_split_last_comma(a1: Seq<char>, b1: Seq<char>, a2: Seq<char>, b2: Seq<char>)
    requires
        a1 + seq![','] + b1 == a2 + seq![','] + b2,
        !b1.contains(','),
        !b2.contains(','),
    ensures
        a1 == a2,
        b1 == b2,
{
    let s = a1 + seq![','] + b1;
    let t = a2 + seq![','] + b2;
    assert(s.len() == t.len());
    if b1.len() < b2.len() {
        let p = a1.len() as int;
        assert(s[p] == ',');
        assert(t[p] == b2[p - a2.len() - 1]);
        assert(b2.contains(','));
    } else if b2.len() < b1.len() {
        let p = a2.len() as int;
        assert(t[p] == ',');
        assert(s[p] == b1[p - a1.len() - 1]);
        assert(b1.contains(','));
    }
    assert(a1.len() == a2.len());
    assert forall|i: int| 0 <= i < a1.len() implies a1[i] == a2[i] by {
        assert(s[i] == t[i]);
    }
    assert forall|i: int| 0 <= i < b1.len() implies b1[i] == b2[i] by {
        assert(s[a1.len() + 1 + i] == t[a2.len() + 1 + i]);
    }
    assert(a1 =~= a2);
    assert(b1 =~= b2);
}

/// Lists of non-empty, comma-free parameter types are told apart by their
/// joined form.
pub proof fn lemma_join_injective(ts1: Seq<Seq<char>>, ts2: Seq<Seq<char>>)
    requires
        forall|i: int| 0 <= i < ts1.len() ==> simple_type(#[trigger] ts1[i]),
        forall|i: int| 0 <= i < ts2.len() ==> simple_type(#[trigger] ts2[i]),
        join_types(ts1) == join_types(ts2),
    ensures
        ts1 == ts2,
    decreases ts1.len(),
{
    lemma_join_shape(ts1);
    lemma_join_shape(ts2);
    if ts1.len() >= 2 {
        lemma_join_contains_comma(ts1);
    }
    if ts2.len() >= 2 {
        lemma_join_contains_comma(ts2);
    }
    if ts1.len() == 0 || ts2.len() == 0 {
        assert(ts1 =~= ts2);
    } else if ts1.len() == 1 || ts2.len() == 1 {
        assert(ts1.len() == 1 && ts2.len() == 1);
        assert(ts1 =~= ts2);
    } else {
        lemma_split_last_comma(join_types(ts1.drop_last()), ts1.last(), join_types(ts2.drop_last()), ts2.last());
        assert(simple_type(ts1[ts1.len() - 1]) && simple_type(ts2[ts2.len() - 1]));
        assert forall|i: int| 0 <= i < ts1.drop_last().len() implies simple_type(#[trigger] ts1.drop_last()[i]) by {
            assert(ts1.drop_last()[i] == ts1[i]);
        }
        assert forall|i: int| 0 <= i < ts2.drop_last().len() implies simple_type(#[trigger] ts2.drop_last()[i]) by {
            assert(ts2.drop_last()[i] == ts2[i]);
        }
        lemma_join_injective(ts1.drop_last(), ts2.drop_last());
        assert(ts1 =~= ts2.drop_last().push(ts2.last()));
        assert(ts2 =~= ts2.drop_last().push(ts2.last()));
    }
}

/// Two functions of one name with different lists of parameter types both
/// survive an unrestricted merge, as two members. The exception is two lists
/// that join to the same text (`a,b` against `a` and `b`); lists of
/// non-empty, comma-free types never do (see [`lemma_join_injective`]).
pub proof fn overloads_kept_apart<P>(docs: Seq<AbiDocumentView<P>>, f1: MemberView<P>, f2: MemberView<P>)
    requires
        section_members(docs, Section::Functions).contains(f1),
        section_members(docs, Section::Functions).contains(f2),
        f1.kind == MemberKind::Function,
        f2.kind == MemberKind::Function,
        f1.name == f2.name,
        f1.types != f2.types,
        join_types(f1.types) != join_types(f2.types),
    ensures
        sig(f1) != sig(f2),
        ({
            let fs = members_of(merged(FilterPolicy::Include(Set::empty()), docs).functions);
            (exists|i: int| 0 <= i < fs.len() && sig(#[trigger] fs[i]) == sig(f1))
            && (exists|i: int| 0 <= i < fs.len() && sig(#[trigger] fs[i]) == sig(f2))
        }),
{
    if sig(f1) == sig(f2) {
        let pre = f1.name + seq!['('];
        assert(sig(f1) == pre + join_types(f1.types) + seq![')']);
        assert(sig(f2) == pre + join_types(f2.types) + seq![')']);
        assert(join_types(f1.types) =~= sig(f1).subrange(pre.len() as int, sig(f1).len() - 1));
        assert(join_types(f2.types) =~= sig(f2).subrange(pre.len() as int, sig(f2).len() - 1));
    }
    let ms = section_members(docs, Section::Functions);
    let l = flattened(docs, Section::Functions);
    lemma_put_all_sorted(Seq::empty(), ms);
    include_empty_keeps_all(docs);
    lemma_group_by_name_contents(l);
    let fs = members_of(merged(FilterPolicy::Include(Set::empty()), docs).functions);
    let i1 = choose|i: int| 0 <= i < ms.len() && ms[i] == f1;
    let i2 = choose|i: int| 0 <= i < ms.len() && ms[i] == f2;
    assert(has_sig(l, sig(ms[i1])));
    assert(has_sig(l, sig(ms[i2])));
    let j1 = choose|j: int| 0 <= j < l.len() && sig(#[trigger] l[j]) == sig(f1);
    let j2 = choose|j: int| 0 <= j < l.len() && sig(#[trigger] l[j]) == sig(f2);
    assert(l.contains(l[j1]) && l.contains(l[j2]));
    assert(fs.contains(l[j1]) && fs.contains(l[j2]));
    let k1 = choose|k: int| 0 <= k < fs.len() && fs[k] == l[j1];
    let k2 = choose|k: int| 0 <= k < fs.len() && fs[k] == l[j2];
    assert(sig(fs[k1]) == sig(f1));
    assert(sig(fs[k2]) == sig(f2));
}

/// Every section of a merge is well formed: names in increasing order, no
/// name with an empty list of overloads, each member under its own name, and
/// the overloads of a name in increasing order of signature.
pub proof fn merge_output_well_formed<P>(policy: FilterPolicy, docs: Seq<AbiDocumentView<P>>)
    ensures
        grouping_wf(merged(policy, docs).functions),
        grouping_wf(merged(policy, docs).events),
        grouping_wf(merged(policy, docs).errors),
{
    let empty = Seq::<MemberView<P>>::empty();
    lemma_put_all_sorted(empty, section_members(docs, Section::Functions));
    lemma_put_all_sorted(empty, section_members(docs, Section::Events));
    lemma_put_all_sorted(empty, section_members(docs, Section::Errors));
    lemma_group_by_name_wf(flattened(docs, Section::Functions));
    lemma_group_by_name_wf(flattened(docs, Section::Events));
    lemma_group_by_name_wf(flattened(docs, Section::Errors));
    lemma_kept_wf(policy, group_by_name(flattened(docs, Section::Functions)));
}

/// Members with one signature carry one name.
pub open spec fn signatures_determine_names<P>(ms: Seq<MemberView<P>>) -> bool {
    forall|i: int, j: int| 0 <= i < ms.len() && 0 <= j < ms.len() && sig(#[trigger] ms[i]) == sig(#[trigger] ms[j])
        ==> ms[i].name == ms[j].name
}

proof fn lemma_section_members_contains<P>(docs: Seq<AbiDocumentView<P>>, s: Section, x: MemberView<P>)
    ensures
        section_members(docs, s).contains(x) <==> exists|d: int| 0 <= d < docs.len()
            && #[trigger] members_of(section_of(docs[d], s)).contains(x),
    decreases docs.len(),
{
    if docs.len() > 0 {
        let pre = docs.drop_last();
        lemma_section_members_contains(pre, s, x);
        lemma_concat_contains(section_members(pre, s), members_of(section_of(docs.last(), s)), x);
        if exists|d: int| 0 <= d < docs.len() && #[trigger] members_of(section_of(docs[d], s)).contains(x) {
            let d = choose|d: int| 0 <= d < docs.len() && #[trigger] members_of(section_of(docs[d], s)).contains(x);
            if d < docs.len() - 1 {
                assert(pre[d] == docs[d]);
            }
        }
        if exists|d: int| 0 <= d < pre.len() && #[trigger] members_of(section_of(pre[d], s)).contains(x) {
            let d = choose|d: int| 0 <= d < pre.len() && #[trigger] members_of(section_of(pre[d], s)).contains(x);
            assert(pre[d] == docs[d]);
        }
    }
}

proof fn lemma_names_via_members<P>(gs: Seq<OverloadsView<P>>, n: Seq<char>)
    requires
        groups_named(gs),
    ensures
        names_of(gs).contains(n) <==> exists|x: MemberView<P>| #[trigger] members_of(gs).contains(x) && x.name == n,
{
    if names_of(gs).contains(n) {
        let i = choose|i: int| 0 <= i < gs.len() && gs[i].name == n;
        let x = gs[i].members[0];
        assert(gs[i].members[0].name == gs[i].name);
        lemma_members_of_index(gs, x);
        assert(members_of(gs).contains(x));
    }
    if exists|x: MemberView<P>| #[trigger] members_of(gs).contains(x) && x.name == n {
        let x = choose|x: MemberView<P>| #[trigger] members_of(gs).contains(x) && x.name == n;
        lemma_members_of_index(gs, x);
        let (i, k) = choose|i: int, k: int| 0 <= i < gs.len() && 0 <= k < gs[i].members.len() && #[trigger] gs[i].members[k] == x;
        assert(gs[i].members[k].name == gs[i].name);
    }
}

proof fn lemma_grouped_names<P>(docs: Seq<AbiDocumentView<P>>, s: Section)
    requires
        forall|d: int| 0 <= d < docs.len() ==> groups_named(section_of(#[trigger] docs[d], s)),
        signatures_determine_names(section_members(docs, s)),
    ensures
        names_of(group_by_name(flattened(docs, s))) == section_names(docs, s),
{
    let ms = section_members(docs, s);
    let l = flattened(docs, s);
    let g = group_by_name(l);
    lemma_put_all_sorted(Seq::empty(), ms);
    lemma_group_by_name_wf(l);
    lemma_group_by_name_contents(l);
    assert forall|n: Seq<char>| names_of(g).contains(n) <==> section_names(docs, s).contains(n) by {
        lemma_names_via_members(g, n);
        if names_of(g).contains(n) {
            let x = choose|x: MemberView<P>| #[trigger] members_of(g).contains(x) && x.name == n;
            assert(l.contains(x));
            assert(!Seq::<MemberView<P>>::empty().contains(x));
            assert(ms.contains(x));
            lemma_section_members_contains(docs, s, x);
            let d = choose|d: int| 0 <= d < docs.len() && #[trigger] members_of(section_of(docs[d], s)).contains(x);
            lemma_names_via_members(section_of(docs[d], s), n);
        }
        if section_names(docs, s).contains(n) {
            let d = choose|d: int| 0 <= d < docs.len() && names_of(section_of(docs[d], s)).contains(n);
            lemma_names_via_members(section_of(docs[d], s), n);
            let x = choose|x: MemberView<P>| #[trigger] members_of(section_of(docs[d], s)).contains(x) && x.name == n;
            lemma_section_members_contains(docs, s, x);
            let i = choose|i: int| 0 <= i < ms.len() && ms[i] == x;
            assert(has_sig(l, sig(ms[i])));
            let j = choose|j: int| 0 <= j < l.len() && sig(#[trigger] l[j]) == sig(x);
            assert(l.contains(l[j]));
            assert(!Seq::<MemberView<P>>::empty().contains(l[j]));
            assert(ms.contains(l[j]));
            let k = choose|k: int| 0 <= k < ms.len() && ms[k] == l[j];
            assert(l[j].name == n);
            assert(members_of(g).contains(l[j]));
        }
    }
    assert(names_of(g) =~= section_names(docs, s));
}

/// The names of an unrestricted merge are the union of the names of its
/// inputs, section by section, for well-formed documents in which members
/// with one signature carry one name (names holding parentheses can make
/// two names share a signature, and then one of them may vanish).
pub proof fn merge_names_are_input_names<P>(docs: Seq<AbiDocumentView<P>>)
    requires
        forall|d: int| 0 <= d < docs.len() ==> document_wf(#[trigger] docs[d]),
        signatures_determine_names(section_members(docs, Section::Functions)),
        signatures_determine_names(section_members(docs, Section::Events)),
        signatures_determine_names(section_members(docs, Section::Errors)),
    ensures
        names_of(merged(FilterPolicy::Include(Set::empty()), docs).functions) == section_names(docs, Section::Functions),
        names_of(merged(FilterPolicy::Include(Set::empty()), docs).events) == section_names(docs, Section::Events),
        names_of(merged(FilterPolicy::Include(Set::empty()), docs).errors) == section_names(docs, Section::Errors),
{
    assert forall|d: int| 0 <= d < docs.len() implies groups_named(section_of(#[trigger] docs[d], Section::Functions))
        && groups_named(section_of(docs[d], Section::Events)) && groups_named(section_of(docs[d], Section::Errors)) by {
        assert(document_wf(docs[d]));
    }
    lemma_grouped_names(docs, Section::Functions);
    lemma_grouped_names(docs, Section::Events);
    lemma_grouped_names(docs, Section::Errors);
    include_empty_keeps_all(docs);
}

/// Every input function stays in a merge with an empty include or exclude
/// list, under its own name and with its signature, where members with one
/// signature carry one name.
pub proof fn unrestricted_merge_keeps_each_function<P>(docs: Seq<AbiDocumentView<P>>, f: MemberView<P>)
    requires
        section_members(docs, Section::Functions).contains(f),
        signatures_determine_names(section_members(docs, Section::Functions)),
    ensures
        ({
            let out = merged(FilterPolicy::Exclude(Set::empty()), docs).functions;
            exists|i: int, k: int| 0 <= i < out.len() && 0 <= k < out[i].members.len()
                && out[i].name == f.name && sig(#[trigger] out[i].members[k]) == sig(f)
        }),
        merged(FilterPolicy::Exclude(Set::empty()), docs) == merged(FilterPolicy::Include(Set::empty()), docs),
{
    exclude_empty_keeps_all(docs);
    let ms = section_members(docs, Section::Functions);
    let l = flattened(docs, Section::Functions);
    let g = group_by_name(l);
    lemma_put_all_sorted(Seq::empty(), ms);
    lemma_group_by_name_wf(l);
    lemma_group_by_name_contents(l);
    let i = choose|i: int| 0 <= i < ms.len() && ms[i] == f;
    assert(has_sig(l, sig(ms[i])));
    let j = choose|j: int| 0 <= j < l.len() && sig(#[trigger] l[j]) == sig(f);
    let y = l[j];
    assert(l.contains(y));
    assert(!Seq::<MemberView<P>>::empty().contains(y));
    let k = choose|k: int| 0 <= k < ms.len() && ms[k] == y;
    assert(y.name == f.name);
    assert(members_of(g).contains(y));
    lemma_members_of_index(g, y);
    let (a, b) = choose|a: int, b: int| 0 <= a < g.len() && 0 <= b < g[a].members.len() && #[trigger] g[a].members[b] == y;
    assert(g[a].members[b].name == g[a].name);
}

} // verus!
