//! The include/exclude policy over groups of same-named functions.

use vstd::prelude::*;
use crate::member::{sig, Member, MemberView, members_view};

verus! {

/// Which functions a merge keeps.
///
/// An entry of either list is a bare function name or a full signature. A
/// name with a single overload matches an entry equal to its name or to its
/// signature. A name with several overloads matches only through the
/// signatures of its overloads: a bare name does not single out one overload,
/// so it matches none of them.
pub enum IncludeExcludeFilter {
    /// Keep the groups that match; with an empty list, keep everything.
    Include(Vec<String>),
    /// Drop the groups that match; with an empty list, drop nothing.
    Exclude(Vec<String>),
}

/// The mathematical value of an [`IncludeExcludeFilter`].
pub enum FilterPolicy {
    Include(Set<Seq<char>>),
    Exclude(Set<Seq<char>>),
}

/// The strings of a list, as a set.
pub open spec fn entry_set(v: Seq<String>) -> Set<Seq<char>> {
    Set::new(|s: Seq<char>| exists|i: int| 0 <= i < v.len() && v[i]@ == s)
}

impl View for IncludeExcludeFilter {
    type V = FilterPolicy;

    open spec fn view(&self) -> FilterPolicy {
        match self {
            IncludeExcludeFilter::Include(v) => FilterPolicy::Include(entry_set(v@)),
            IncludeExcludeFilter::Exclude(v) => FilterPolicy::Exclude(entry_set(v@)),
        }
    }
}

/// Whether the overload group `ms` is named by `set`: by name or signature
/// when it has one overload, by the signature of some overload otherwise.
pub open spec fn in_filter_set<P>(set: Set<Seq<char>>, ms: Seq<MemberView<P>>) -> bool {
    if ms.len() == 1 {
        set.contains(ms[0].name) || set.contains(sig(ms[0]))
    } else {
        exists|i: int| 0 <= i < ms.len() && set.contains(sig(ms[i]))
    }
}

/// Whether `policy` keeps the overload group `ms`.
pub open spec fn retains<P>(policy: FilterPolicy, ms: Seq<MemberView<P>>) -> bool {
    match policy {
        FilterPolicy::Include(set) => set == Set::<Seq<char>>::empty() || in_filter_set(set, ms),
        FilterPolicy::Exclude(set) => !in_filter_set(set, ms),
    }
}

/// Whether `s` is one of the strings of `set`.
fn contains(set: &Vec<String>, s: &String) -> (r: bool)
    ensures
        r == entry_set(set@).contains(s@),
{
    let mut i: usize = 0;
    while i < set.len()
        invariant
            i <= set.len(),
            forall|j: int| 0 <= j < i ==> set@[j]@ != s@,
        decreases set.len() - i,
    {
        if set[i] == *s {
            return true;
        }
        i = i + 1;
    }
    false
}

/// Whether the overload group `methods` is named by `filter_set` (see
/// [`in_filter_set`]).
pub fn is_in_filter_set<P>(filter_set: &Vec<String>, methods: &Vec<Member<P>>) -> (r: bool)
    ensures
        r == in_filter_set(entry_set(filter_set@), members_view(methods@)),
{
    let ghost ms = members_view(methods@);
    if methods.len() == 1 {
        assert(ms[0] == methods@[0]@);
        return contains(filter_set, &methods[0].name) || contains(filter_set, &methods[0].signature());
    }
    let mut i: usize = 0;
    while i < methods.len()
        invariant
            i <= methods.len(),
            ms == members_view(methods@),
            forall|j: int| 0 <= j < i ==> !entry_set(filter_set@).contains(sig(#[trigger] ms[j])),
        decreases methods.len() - i,
    {
        assert(ms[i as int] == methods@[i as int]@);
        if contains(filter_set, &methods[i].signature()) {
            return true;
        }
        i = i + 1;
    }
    false
}

impl IncludeExcludeFilter {
    /// Whether the policy keeps the overload group `methods` (see [`retains`]).
    pub fn filter<P>(&self, methods: &Vec<Member<P>>) -> (r: bool)
        ensures
            r == retains(self@, members_view(methods@)),
    {
        match self {
            IncludeExcludeFilter::Include(set) => {
                if set.len() == 0 {
                    assert(entry_set(set@) =~= Set::<Seq<char>>::empty());
                    true
                } else {
                    assert(entry_set(set@).contains(set@[0]@));
                    is_in_filter_set(set, methods)
                }
            },
            IncludeExcludeFilter::Exclude(set) => !is_in_filter_set(set, methods),
        }
    }

    /// A policy that keeps the groups named by `names` (everything when it
    /// is empty).
    pub fn from_include(names: Vec<String>) -> (r: Self)
        ensures
            r@ == FilterPolicy::Include(entry_set(names@)),
    {
        IncludeExcludeFilter::Include(names)
    }

    /// A policy that drops the groups named by `names`.
    pub fn from_exclude(names: Vec<String>) -> (r: Self)
        ensures
            r@ == FilterPolicy::Exclude(entry_set(names@)),
    {
        IncludeExcludeFilter::Exclude(names)
    }
}

impl Default for IncludeExcludeFilter {
    /// The unrestricted policy: an empty include list.
    fn default() -> (r: Self)
        ensures
            r@ == FilterPolicy::Include(Set::<Seq<char>>::empty()),
    {
        let r = IncludeExcludeFilter::Include(Vec::new());
        assert(entry_set(Seq::<String>::empty()) =~= Set::<Seq<char>>::empty());
        r
    }
}

} // verus!
