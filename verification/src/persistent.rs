//! The display modes and node filters that users define, as they are saved between sessions.
//!
//! Built-in modes and filters are not saved: they are added back when saved data is loaded.
//! Reading and writing the file is left to the caller.

use vstd::prelude::*;

use crate::node_filter::{builtin_filter, builtin_filters, NodeFilter};
use crate::structured_modes::{
    builtin_structured_modes, is_block_production_mode, is_chain_mode, is_everything_mode, StructuredMode,
};

verus! {

/// Persistent data structure that holds user-defined display modes and node filters.
/// If the data structure changes, it should be versioned to maintain compatibility with data saved
/// using older versions of traviz.
#[derive(Debug, Clone)]
pub enum PersistentData {
    V1(PersistentDataV1),
}

#[derive(Debug, Clone)]
pub struct PersistentDataV1 {
    display_modes: Vec<StructuredMode>,
    node_filters: Vec<NodeFilter>,
}

impl PersistentDataV1 {
    /// Data that holds the given modes and filters.
    pub fn new(display_modes: Vec<StructuredMode>, node_filters: Vec<NodeFilter>) -> (r: PersistentDataV1)
        ensures
            r.modes() == display_modes@,
            r.filters() == node_filters@,
    {
        PersistentDataV1 { display_modes, node_filters }
    }

    /// The saved display modes.
    pub closed spec fn modes(self) -> Seq<StructuredMode> {
        self.display_modes@
    }

    /// The saved node filters.
    pub closed spec fn filters(self) -> Seq<NodeFilter> {
        self.node_filters@
    }

    /// The saved display modes.
    pub fn display_modes(&self) -> (r: &Vec<StructuredMode>)
        ensures
            r@ == self.modes(),
    {
        &self.display_modes
    }

    /// The saved node filters.
    pub fn node_filters(&self) -> (r: &Vec<NodeFilter>)
        ensures
            r@ == self.filters(),
    {
        &self.node_filters
    }
}

impl PersistentData {
    /// Empty data: no user modes and no user filters.
    pub fn default() -> (r: PersistentData)
        ensures
            r matches PersistentData::V1(d) && d.modes().len() == 0 && d.filters().len() == 0,
    {
        PersistentData::V1(PersistentDataV1 { display_modes: Vec::new(), node_filters: Vec::new() })
    }
}

/// The modes that are saved: those that are not built in, in their order.
pub open spec fn user_modes(modes: Seq<StructuredMode>) -> Seq<StructuredMode>
    decreases modes.len(),
{
    if modes.len() == 0 {
        modes
    } else if modes.last().is_builtin {
        user_modes(modes.drop_last())
    } else {
        user_modes(modes.drop_last()).push(modes.last())
    }
}

/// The filters that are saved: the editable ones, in their order (built-in filters are not editable).
pub open spec fn user_filters(filters: Seq<NodeFilter>) -> Seq<NodeFilter>
    decreases filters.len(),
{
    if filters.len() == 0 {
        filters
    } else if !filters.last().is_editable {
        user_filters(filters.drop_last())
    } else {
        user_filters(filters.drop_last()).push(filters.last())
    }
}

/// The data to save for the given modes and filters: those that are not built in.
pub fn save_persistent_data(display_modes: Vec<StructuredMode>, node_filters: Vec<NodeFilter>) -> (r: PersistentData)
    ensures
        r matches PersistentData::V1(d) && d.modes() == user_modes(display_modes@)
            && d.filters() == user_filters(node_filters@),
{
    let ghost all_modes = display_modes@;
    let mut dmodes: Vec<StructuredMode> = Vec::new();
    let mut i: usize = 0;
    for mode in it: display_modes
        invariant
            it.seq() == all_modes,
            dmodes@ == user_modes(all_modes.take(it.index() as int)),
    {
        assert(all_modes.take(it.index() + 1).drop_last() =~= all_modes.take(it.index() as int));
        if !mode.is_builtin {
            dmodes.push(mode);
        }
    }
    assert(all_modes.take(all_modes.len() as int) =~= all_modes);
    let ghost all_filters = node_filters@;
    let mut filters: Vec<NodeFilter> = Vec::new();
    for filter in it: node_filters
        invariant
            it.seq() == all_filters,
            filters@ == user_filters(all_filters.take(it.index() as int)),
    {
        assert(all_filters.take(it.index() + 1).drop_last() =~= all_filters.take(it.index() as int));
        if filter.is_editable {
            filters.push(filter);
        }
    }
    assert(all_filters.take(all_filters.len() as int) =~= all_filters);
    PersistentData::V1(PersistentDataV1 { display_modes: dmodes, node_filters: filters })
}

/// The modes and filters after loading: the built-in ones first, then those that were saved.
pub open spec fn loaded(builtin: Seq<StructuredMode>, saved: Seq<StructuredMode>, result: Seq<StructuredMode>) -> bool {
    result == builtin + saved
}

/// Replaces the modes and filters with the built-in ones followed by those of the loaded data.
pub fn load_persistent_data(
    display_modes: &mut Vec<StructuredMode>,
    node_filters: &mut Vec<NodeFilter>,
    data: PersistentData,
)
    ensures
        final(display_modes)@.len() == 3 + data->V1_0.modes().len(),
        final(display_modes)@.skip(3) == data->V1_0.modes(),
        is_chain_mode(final(display_modes)@[0]),
        is_everything_mode(final(display_modes)@[1]),
        is_block_production_mode(final(display_modes)@[2]),
        final(node_filters)@.len() == 2 + data->V1_0.filters().len(),
        final(node_filters)@.skip(2) == data->V1_0.filters(),
        builtin_filter(final(node_filters)@[0], "Show all"@, true),
        builtin_filter(final(node_filters)@[1], "Show none"@, false),
{
    let (modes, filters) = match data {
        PersistentData::V1(d) => (d.display_modes, d.node_filters),
    };
    let mut all_modes = builtin_structured_modes();
    let ghost b = all_modes@;
    let mut m = modes;
    all_modes.append(&mut m);
    assert(all_modes@.skip(3) =~= modes@);
    *display_modes = all_modes;
    let mut all_filters = builtin_filters();
    let mut f = filters;
    all_filters.append(&mut f);
    assert(all_filters@.skip(2) =~= filters@);
    *node_filters = all_filters;
}

/// Saving and then loading keeps the user's modes and filters in their order, after the
/// built-in ones: no built-in mode is kept twice and no editable filter is lost.
pub proof fn lemma_save_load_roundtrip(
    modes: Seq<StructuredMode>,
    filters: Seq<NodeFilter>,
    saved: PersistentDataV1,
    loaded_modes: Seq<StructuredMode>,
    loaded_filters: Seq<NodeFilter>,
)
    requires
        saved.modes() == user_modes(modes),
        saved.filters() == user_filters(filters),
        loaded_modes.len() == 3 + saved.modes().len(),
        loaded_modes.skip(3) == saved.modes(),
        loaded_filters.len() == 2 + saved.filters().len(),
        loaded_filters.skip(2) == saved.filters(),
    ensures
        loaded_modes.skip(3) == user_modes(modes),
        forall|i: int| 0 <= i < loaded_modes.len() - 3 ==> !(#[trigger] loaded_modes[i + 3]).is_builtin,
        loaded_filters.skip(2) == user_filters(filters),
        forall|i: int| 0 <= i < loaded_filters.len() - 2 ==> (#[trigger] loaded_filters[i + 2]).is_editable,
{
    lemma_user_modes_not_builtin(modes);
    lemma_user_filters_editable(filters);
    assert forall|i: int| 0 <= i < loaded_modes.len() - 3 implies !(#[trigger] loaded_modes[i + 3]).is_builtin by {
        assert(loaded_modes[i + 3] == loaded_modes.skip(3)[i]);
    }
    assert forall|i: int| 0 <= i < loaded_filters.len() - 2 implies (#[trigger] loaded_filters[i + 2]).is_editable by {
        assert(loaded_filters[i + 2] == loaded_filters.skip(2)[i]);
    }
}

proof fn lemma_user_modes_not_builtin(modes: Seq<StructuredMode>)
    ensures
        forall|i: int| 0 <= i < user_modes(modes).len() ==> !(#[trigger] user_modes(modes)[i]).is_builtin,
    decreases modes.len(),
{
    if modes.len() > 0 {
        lemma_user_modes_not_builtin(modes.drop_last());
        let prev = user_modes(modes.drop_last());
        if !modes.last().is_builtin {
            assert forall|i: int| 0 <= i < user_modes(modes).len() implies !(#[trigger] user_modes(modes)[i]).is_builtin by {
                if i < prev.len() {
                    assert(user_modes(modes)[i] == prev[i]);
                }
            }
        }
    }
}

proof fn lemma_user_filters_editable(filters: Seq<NodeFilter>)
    ensures
        forall|i: int| 0 <= i < user_filters(filters).len() ==> (#[trigger] user_filters(filters)[i]).is_editable,
    decreases filters.len(),
{
    if filters.len() > 0 {
        lemma_user_filters_editable(filters.drop_last());
        let prev = user_filters(filters.drop_last());
        if filters.last().is_editable {
            assert forall|i: int| 0 <= i < user_filters(filters).len() implies (#[trigger] user_filters(filters)[i]).is_editable by {
                if i < prev.len() {
                    assert(user_filters(filters)[i] == prev[i]);
                }
            }
        }
    }
}

} // verus!
