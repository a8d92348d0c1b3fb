use vstd::prelude::*;

verus! {

/// What the library's ordered maps need: the behaviour of `BTreeMap` and the fact that
/// integer pairs are totally ordered.
pub broadcast group ordered_map_laws {
    vstd::std_specs::btree::group_btree_axioms,
    vstd::laws_cmp::group_laws_cmp,
}

} // verus!
