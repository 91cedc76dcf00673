//! Arguments of the merge task and the choice of policy they make.

use vstd::prelude::*;
use crate::filter::{FilterPolicy, IncludeExcludeFilter, entry_set};

verus! {

/// Output directory used when none is given.
pub const DEFAULT_OUT_DIR: &'static str = "artifacts/contracts";

/// Name of the merged contract when none is given.
pub const DEFAULT_OUT_CONTRACT_NAME: &'static str = "DiamondProxy";

/// Arguments of the merge task.
pub struct DiamondMergeArgs {
    /// Names or signatures of the methods to keep or to drop.
    pub filtered_methods: Option<Vec<String>>,
    /// Keep only the listed methods.
    pub include_flag: bool,
    /// Drop the listed methods.
    pub exclude_flag: bool,
    pub out_dir: Option<String>,
    /// The name of the merged contract.
    pub out_contract_name: Option<String>,
    /// Whether to render an interface stub too.
    pub create_interface: bool,
}

/// Arguments of the task that lists artifact names; it has none.
pub struct NamesArgs {}

/// Why the merge task arguments were refused.
#[derive(Debug, PartialEq, Eq, Structural)]
pub enum DiamondMergeError {
    /// Both `include_flag` and `exclude_flag` were set.
    OnlyOneFilter,
}

/// The policy that the arguments select: none listed means no restriction;
/// a list is kept with `include_flag`, dropped otherwise; both flags with a list
/// are refused.
pub open spec fn selected_policy(methods: Option<Seq<String>>, include_flag: bool, exclude_flag: bool) -> Result<FilterPolicy, DiamondMergeError> {
    match methods {
        None => Ok(FilterPolicy::Include(Set::empty())),
        Some(v) => if include_flag && exclude_flag {
            Err(DiamondMergeError::OnlyOneFilter)
        } else if include_flag {
            Ok(FilterPolicy::Include(entry_set(v)))
        } else {
            Ok(FilterPolicy::Exclude(entry_set(v)))
        },
    }
}

impl Default for DiamondMergeArgs {
    fn default() -> (r: Self)
        ensures
            r.filtered_methods is None,
            !r.include_flag,
            !r.exclude_flag,
            r.out_dir matches Some(d) && d@ == DEFAULT_OUT_DIR@,
            r.out_contract_name matches Some(n) && n@ == DEFAULT_OUT_CONTRACT_NAME@,
            r.create_interface,
    {
        DiamondMergeArgs {
            filtered_methods: None,
            include_flag: false,
            exclude_flag: false,
            out_dir: Some(String::from_str(DEFAULT_OUT_DIR)),
            out_contract_name: Some(String::from_str(DEFAULT_OUT_CONTRACT_NAME)),
            create_interface: true,
        }
    }
}

impl DiamondMergeArgs {
    /// The policy that the arguments select (see [`selected_policy`]); the
    /// list of methods is handed over.
    pub fn filter(&mut self) -> (r: Result<IncludeExcludeFilter, DiamondMergeError>)
        ensures
            match selected_policy(
                match old(self).filtered_methods { Some(v) => Some(v@), None => None },
                old(self).include_flag,
                old(self).exclude_flag,
            ) {
                Ok(p) => r matches Ok(f) && f@ == p,
                Err(e) => r == Err::<IncludeExcludeFilter, DiamondMergeError>(e),
            },
            r is Ok ==> final(self).filtered_methods is None,
            r is Err ==> final(self).filtered_methods == old(self).filtered_methods,
            final(self).include_flag == old(self).include_flag,
            final(self).exclude_flag == old(self).exclude_flag,
            final(self).out_dir == old(self).out_dir,
            final(self).out_contract_name == old(self).out_contract_name,
            final(self).create_interface == old(self).create_interface,
    {
        if self.filtered_methods.is_some() && self.include_flag && self.exclude_flag {
            return Err(DiamondMergeError::OnlyOneFilter);
        }
        let mut methods = None;
        core::mem::swap(&mut methods, &mut self.filtered_methods);
        match methods {
            None => Ok(IncludeExcludeFilter::default()),
            Some(set) => if self.include_flag {
                Ok(IncludeExcludeFilter::from_include(set))
            } else {
                Ok(IncludeExcludeFilter::from_exclude(set))
            },
        }
    }
}

} // verus!
