//! The targeted events of one tick, grouped by the entity they are for.

use vstd::prelude::*;
use multimap::MultiMap;
use crate::app::model::targeted_at;

verus! {

/// `multimap::MultiMap`, a map from each key to the values inserted under
/// it. Nothing is read of a value of this type but through the functions
/// below.
#[verifier::external_type_specification]
#[verifier::external_body]
#[verifier::reject_recursive_types(K)]
#[verifier::reject_recursive_types(V)]
#[verifier::reject_recursive_types(S)]
pub struct ExMultiMap<K, V, S>(MultiMap<K, V, S>);

/// What a multimap from identifiers to positions holds.
pub type Groups = Map<u64, Seq<usize>>;

/// The values that a multimap holds under each of its keys, in the order in
/// which they were inserted.
pub uninterp spec fn grouped(groups: MultiMap<u64, usize>) -> Groups;

/// `MultiMap::new`: a multimap without keys.
#[verifier::external_body]
fn multimap_new() -> (created: MultiMap<u64, usize>)
    ensures
        grouped(created) == Groups::empty(),
{
    MultiMap::new()
}

/// `MultiMap::insert`: the value goes behind those that the key already has;
/// a key that was absent gets the value alone. No other key changes.
#[verifier::external_body]
fn multimap_insert(groups: &mut MultiMap<u64, usize>, key: u64, value: usize)
    ensures
        grouped(*final(groups)) == grouped(*old(groups)).insert(
            key,
            if grouped(*old(groups)).contains_key(key) {
                grouped(*old(groups))[key].push(value)
            } else {
                seq![value]
            },
        ),
{
    groups.insert(key, value)
}

/// `MultiMap::get_vec`: the values under the key, or nothing where the key
/// is absent.
#[verifier::external_body]
fn multimap_get_vec<'a>(groups: &'a MultiMap<u64, usize>, key: &u64) -> (values: Option<
    &'a Vec<usize>,
>)
    ensures
        match values {
            Some(held) => grouped(*groups).contains_key(*key) && held@ == grouped(*groups)[*key],
            None => !grouped(*groups).contains_key(*key),
        },
{
    groups.get_vec(key)
}

/// The positions in `targeted` of the events for `id`, in ascending order.
pub open spec fn positions_of<E>(targeted: Seq<(u64, E)>, id: u64) -> Seq<usize>
    decreases targeted.len(),
{
    if targeted.len() == 0 {
        Seq::empty()
    } else if targeted.last().0 == id {
        positions_of(targeted.drop_last(), id).push((targeted.len() - 1) as usize)
    } else {
        positions_of(targeted.drop_last(), id)
    }
}

/// Every position that `positions_of` lists is a position of `targeted`.
pub proof fn lemma_positions_in_bounds<E>(targeted: Seq<(u64, E)>, id: u64)
    requires
        targeted.len() <= usize::MAX,
    ensures
        forall|k: int|
            0 <= k < positions_of(targeted, id).len() ==> (#[trigger] positions_of(
                targeted,
                id,
            )[k]) < targeted.len() && targeted[positions_of(targeted, id)[k] as int].0 == id,
    decreases targeted.len(),
{
    if targeted.len() > 0 {
        let rest = targeted.drop_last();
        lemma_positions_in_bounds(rest, id);
        assert forall|k: int| 0 <= k < positions_of(targeted, id).len() implies (
        #[trigger] positions_of(targeted, id)[k]) < targeted.len() && targeted[positions_of(
            targeted,
            id,
        )[k] as int].0 == id by {
            if k < positions_of(rest, id).len() {
                let position = positions_of(rest, id)[k];
                assert(positions_of(targeted, id)[k] == position);
                assert(targeted[position as int] == rest[position as int]);
            }
        }
    }
}

/// The payloads at the positions of the events for `id` are the payloads
/// that target `id`, in emission order.
pub proof fn lemma_payloads_at_positions<E>(targeted: Seq<(u64, E)>, id: u64)
    requires
        targeted.len() <= usize::MAX,
    ensures
        targeted_at(targeted, id).len() == positions_of(targeted, id).len(),
        forall|k: int|
            0 <= k < positions_of(targeted, id).len() ==> (#[trigger] targeted_at(targeted, id)[k])
                == targeted[positions_of(targeted, id)[k] as int].1,
    decreases targeted.len(),
{
    if targeted.len() > 0 {
        let rest = targeted.drop_last();
        lemma_payloads_at_positions(rest, id);
        lemma_positions_in_bounds(rest, id);
        assert forall|k: int| 0 <= k < positions_of(targeted, id).len() implies (
        #[trigger] targeted_at(targeted, id)[k]) == targeted[positions_of(targeted, id)[k] as int].1 by {
            if k < positions_of(rest, id).len() {
                let position = positions_of(rest, id)[k];
                assert(positions_of(targeted, id)[k] == position);
                assert(targeted_at(targeted, id)[k] == targeted_at(rest, id)[k]);
                assert(targeted[position as int] == rest[position as int]);
            }
        }
    }
}

/// Targeted events in emission order, to be looked up by target.
pub struct TargetedEvents<E> {
    entries: Vec<(u64, E)>,
    groups: MultiMap<u64, usize>,
}

impl<E> View for TargetedEvents<E> {
    type V = Seq<(u64, E)>;

    closed spec fn view(&self) -> Seq<(u64, E)> {
        self.entries@
    }
}

impl<E> TargetedEvents<E> {
    /// The grouping agrees with the entries: under each target stand the
    /// positions of its events, and a target without events has no group.
    pub closed spec fn wf(&self) -> bool {
        forall|id: u64|
            if #[trigger] grouped(self.groups).contains_key(id) {
                grouped(self.groups)[id] == positions_of(self.entries@, id)
            } else {
                positions_of(self.entries@, id).len() == 0
            }
    }

    pub fn new() -> (created: TargetedEvents<E>)
        ensures
            created.wf(),
            created@ == Seq::<(u64, E)>::empty(),
    {
        TargetedEvents { entries: Vec::new(), groups: multimap_new() }
    }

    /// Appends an event for the entity at `id`.
    pub fn insert(&mut self, id: u64, payload: E)
        requires
            old(self).wf(),
        ensures
            final(self).wf(),
            final(self)@ == old(self)@.push((id, payload)),
    {
        let ghost before = self.entries@;
        let ghost groups_before = grouped(self.groups);
        let index = self.entries.len();
        self.entries.push((id, payload));
        multimap_insert(&mut self.groups, id, index);
        proof {
            let after = self.entries@;
            assert(after.drop_last() == before);
            assert forall|other: u64|
                if #[trigger] grouped(self.groups).contains_key(other) {
                    grouped(self.groups)[other] == positions_of(after, other)
                } else {
                    positions_of(after, other).len() == 0
                } by {
                assert(groups_before.contains_key(other) || !groups_before.contains_key(other));
            }
        }
    }

    pub fn len(&self) -> (count: usize)
        ensures
            count == self@.len(),
    {
        self.entries.len()
    }

    /// The positions of the events for `id`, in emission order; nothing where
    /// no event is for `id`.
    pub fn positions(&self, id: u64) -> (found: Option<&Vec<usize>>)
        requires
            self.wf(),
        ensures
            match found {
                Some(positions) => positions@ == positions_of(self@, id),
                None => positions_of(self@, id).len() == 0,
            },
    {
        multimap_get_vec(&self.groups, &id)
    }

    /// The payload of the event at `position`.
    pub fn payload(&self, position: usize) -> (payload: &E)
        requires
            position < self@.len(),
        ensures
            *payload == self@[position as int].1,
    {
        &self.entries[position].1
    }
}

} // verus!
