//! Tests of whether there are ids enough for an operation, and whether its parts fit
//! together. A caller who does not know makes them before the operation.

use vstd::prelude::*;
use crate::assoc::Item;
use crate::commit::ids_can_be_recorded;
use crate::field::lemma_children;
use crate::field::unassigned;
use crate::field::Field;
use crate::format::Fragment;
use crate::format::Index;
use crate::fragments::can_rewrite;
use crate::fragments::find_first;
use crate::fragments::find_group;
use crate::fragments::replace_group;
use crate::fragments::rows_in;
use crate::fragments::unnumbered;
use crate::indices::ids_are_sound;
use crate::indices::is_over;
use crate::items::copy_all;
use crate::items::holds;
use crate::manifest::max_fragment;
use crate::manifest::Manifest;
use crate::manifest::ManifestWriteConfig;
use crate::operation::DataReplacementGroup;
use crate::operation::Operation;
use crate::operation::RewriteGroup;
use crate::planning::agree_on_fields;
use crate::planning::any_field_covered;
use crate::planning::can_plan;
use crate::planning::early_fault;
use crate::planning::ids_taken;
use crate::planning::numbers_suffice;
use crate::planning::replace_data_of;
use crate::planning::rows_taken;
use crate::planning::versions_known;
use crate::schema::ids_fit;
use crate::schema::Schema;
use crate::seqs::lemma_skip_ends;
use crate::seqs::lemma_skip_step;
use crate::seqs::opt_view;
use crate::seqs::views;
use crate::transaction::Transaction;
use crate::tree::max_id;

verus! {

/// More than any id.
pub const TOO_MANY: u128 = 0x1_0000_0000_0000_0000;

/// A number, or the least that is too many.
pub open spec fn capped(n: int) -> int {
    if n <= TOO_MANY {
        n
    } else {
        TOO_MANY as int
    }
}

fn sum_capped(a: u128, b: u128) -> (r: u128)
    requires
        a <= TOO_MANY,
        b <= TOO_MANY,
    ensures
        r == capped(a + b),
{
    if a + b <= TOO_MANY {
        a + b
    } else {
        TOO_MANY
    }
}

fn count_unassigned(fields: &Vec<Field>) -> (r: u128)
    ensures
        r == capped(unassigned(views(fields@)) as int),
    decreases fields,
{
    let ghost all = views(fields@);
    let mut count: u128 = 0;
    let mut i: usize = 0;
    proof {
        lemma_skip_ends(all);
    }
    while i < fields.len()
        invariant
            i <= fields@.len(),
            all == views(fields@),
            count <= TOO_MANY,
            capped(unassigned(all) as int) == capped(count + unassigned(all.skip(i as int))),
        decreases fields@.len() - i,
    {
        let field = &fields[i];
        proof {
            lemma_skip_step(all, i as int);
            lemma_children(*field);
        }
        let below: u128 = count_unassigned(&field.children);
        let here: u128 = if field.id < 0 {
            1
        } else {
            0
        };
        count = sum_capped(sum_capped(count, here), below);
        i += 1;
    }
    proof {
        lemma_skip_ends(all);
    }
    count
}

/// Whether there are ids enough for the fields without one.
pub fn can_number(fields: &Vec<Field>, max_existing_id: Option<i32>) -> (r: bool)
    ensures
        r == ids_fit(views(fields@), max_existing_id),
{
    let greatest: i32 = max_id(fields);
    let taken: i32 = match max_existing_id {
        Some(id) => id,
        None => -1,
    };
    let last: i32 = if greatest >= taken {
        greatest
    } else {
        taken
    };
    let count: u128 = count_unassigned(fields);
    count < TOO_MANY && last as i128 + count as i128 <= 0x7fff_ffff
}

impl Schema {
    /// Whether there are ids enough to set the field ids.
    pub fn can_set_field_id(&self, max_existing_id: Option<i32>) -> (r: bool)
        ensures
            r == ids_fit(self@.fields, max_existing_id),
    {
        can_number(&self.fields, max_existing_id)
    }
}

fn count_unnumbered(fragments: &Vec<Fragment>) -> (r: u128)
    ensures
        r == capped(unnumbered(views(fragments@)) as int),
{
    let ghost all = views(fragments@);
    let mut count: u128 = 0;
    let mut i: usize = 0;
    proof {
        lemma_skip_ends(all);
    }
    while i < fragments.len()
        invariant
            i <= fragments@.len(),
            all == views(fragments@),
            count <= TOO_MANY,
            capped(unnumbered(all) as int) == capped(count + unnumbered(all.skip(i as int))),
        decreases fragments@.len() - i,
    {
        proof {
            lemma_skip_step(all, i as int);
        }
        if fragments[i].id == 0 {
            count = sum_capped(count, 1);
        }
        i += 1;
    }
    proof {
        lemma_skip_ends(all);
    }
    count
}

fn count_rows(fragments: &Vec<Fragment>) -> (r: u128)
    ensures
        r == capped(rows_in(views(fragments@)) as int),
{
    let ghost all = views(fragments@);
    let mut count: u128 = 0;
    let mut i: usize = 0;
    proof {
        lemma_skip_ends(all);
    }
    while i < fragments.len()
        invariant
            i <= fragments@.len(),
            all == views(fragments@),
            count <= TOO_MANY,
            capped(rows_in(all) as int) == capped(count + rows_in(all.skip(i as int))),
        decreases fragments@.len() - i,
    {
        proof {
            lemma_skip_step(all, i as int);
        }
        match fragments[i].physical_rows {
            Some(n) => {
                count = sum_capped(count, n as u128);
            },
            None => {
                return count;
            },
        }
        i += 1;
    }
    proof {
        lemma_skip_ends(all);
    }
    count
}

fn fields_are_sound(fields: &Vec<i32>, modified: &Vec<u32>) -> (r: bool)
    ensures
        r == ids_are_sound(views(fields@), views(modified@)),
{
    let ghost all = views(fields@);
    let ghost wanted = views(modified@);
    let mut i: usize = 0;
    while i < fields.len()
        invariant
            i <= fields@.len(),
            all == views(fields@),
            wanted == views(modified@),
            !is_over(all.take(i as int), wanted),
            forall|j: int| 0 <= j < i ==> (#[trigger] all[j]) >= 0,
        decreases fields@.len() - i,
    {
        assert(all[i as int] == fields@[i as int]);
        if fields[i] < 0 {
            assert(!ids_are_sound(all, wanted));
            return false;
        }
        if holds(modified.as_slice(), &(fields[i] as u32)) {
            proof {
                assert forall|j: int| 0 <= j < all.len() && (#[trigger] all[j]) < 0 implies is_over(
                    all.take(j),
                    wanted,
                ) by {
                    assert(all.take(j)[i as int] == all[i as int]);
                }
            }
            return true;
        }
        proof {
            if is_over(all.take(i + 1), wanted) {
                let k = choose|k: int|
                    0 <= k < all.take(i + 1).len() && (#[trigger] all.take(i + 1)[k]) >= 0
                        && wanted.contains(all.take(i + 1)[k] as u32);
                if k < i {
                    assert(all.take(i as int)[k] == all.take(i + 1)[k]);
                }
            }
        }
        i += 1;
    }
    true
}

fn indices_are_sound(indices: &Vec<Index>, modified: &Vec<u32>) -> (r: bool)
    ensures
        r == (forall|i: int|
            0 <= i < indices@.len() ==> ids_are_sound(
                (#[trigger] views(indices@)[i]).fields,
                views(modified@),
            )),
{
    let mut i: usize = 0;
    while i < indices.len()
        invariant
            i <= indices@.len(),
            forall|j: int|
                0 <= j < i ==> ids_are_sound(
                    (#[trigger] views(indices@)[j]).fields,
                    views(modified@),
                ),
        decreases indices@.len() - i,
    {
        assert(views(indices@)[i as int] == indices@[i as int]@);
        if !fields_are_sound(&indices[i].fields, modified) {
            return false;
        }
        i += 1;
    }
    true
}

fn groups_can_be_rewritten(
    existing: &Vec<Fragment>,
    groups: &Vec<RewriteGroup>,
    fragment_id: u64,
) -> (r: bool)
    ensures
        r == can_rewrite(views(existing@), views(groups@), fragment_id as int),
{
    let ghost all = views(groups@);
    let ghost whole = can_rewrite(views(existing@), all, fragment_id as int);
    let mut fragments = copy_all(existing);
    let mut next: u64 = fragment_id;
    let mut i: usize = 0;
    proof {
        lemma_skip_ends(all);
    }
    while i < groups.len()
        invariant
            i <= groups@.len(),
            all == views(groups@),
            whole == can_rewrite(views(existing@), all, fragment_id as int),
            whole == can_rewrite(views(fragments@), all.skip(i as int), next as int),
        decreases groups@.len() - i,
    {
        let group = &groups[i];
        proof {
            lemma_skip_step(all, i as int);
            assert(all[i as int] == group@);
        }
        if group.old_fragments.len() == 0 {
            return false;
        }
        match find_group(&fragments, group) {
            None => {
                return true;
            },
            Some(start) => {
                let count: u128 = count_unnumbered(&group.new_fragments);
                if next as u128 + count >= TOO_MANY {
                    return false;
                }
                replace_group(&mut fragments, start, group, &mut next);
            },
        }
        i += 1;
    }
    proof {
        lemma_skip_ends(all);
    }
    true
}

fn versions_are_known(
    existing: &Vec<Fragment>,
    replacements: &Vec<DataReplacementGroup>,
    numbers: &[Option<(u32, u32)>],
) -> (r: bool)
    requires
        numbers@.len() == replacements@.len(),
    ensures
        r == versions_known(views(existing@), views(replacements@), numbers@, 0),
{
    let ghost all = views(replacements@);
    let ghost there = views(existing@);
    let ghost whole = versions_known(there, all, numbers@, 0);
    let mut k: usize = 0;
    while k < replacements.len()
        invariant
            k <= replacements@.len(),
            all == views(replacements@),
            there == views(existing@),
            numbers@.len() == replacements@.len(),
            whole == versions_known(there, all, numbers@, 0),
            whole == versions_known(there, all, numbers@, k as int),
        decreases replacements@.len() - k,
    {
        assert(all[k as int] == replacements@[k as int]@);
        let new_file = &replacements[k].1;
        match find_first(existing, replacements[k].0) {
            None => {
                return true;
            },
            Some(f) => {
                if numbers[k].is_none() && !any_field_covered(&f.files, &new_file.fields) {
                    return false;
                }
                if replace_data_of(f, new_file, numbers[k]).same(f) {
                    return true;
                }
            },
        }
        k += 1;
    }
    true
}

impl Transaction {
    fn is_ruled_out(&self, current_manifest: Option<&Manifest>, config: &ManifestWriteConfig) -> (r:
        bool)
        ensures
            r == (early_fault(
                self@.operation,
                opt_view(current_manifest),
                config.use_move_stable_row_ids,
            ) is Some),
    {
        match current_manifest {
            Some(m) => config.use_move_stable_row_ids && !m.uses_move_stable_row_ids(),
            None => match &self.operation {
                Operation::Overwrite { .. } => false,
                Operation::Merge { .. } => false,
                _ => true,
            },
        }
    }

    fn has_ids_enough(&self, current_manifest: Option<&Manifest>, config: &ManifestWriteConfig) -> (r:
        bool)
        ensures
            r == numbers_suffice(
                self@.operation,
                opt_view(current_manifest),
                config.use_move_stable_row_ids,
            ),
    {
        let ids: u128 = match &self.operation {
            Operation::Append { fragments } => count_unnumbered(fragments),
            Operation::Overwrite { fragments, .. } => count_unnumbered(fragments),
            Operation::Update { new_fragments, .. } => count_unnumbered(new_fragments),
            _ => 0,
        };
        assert(ids == capped(ids_taken(self@.operation) as int));
        let rows: u128 = match &self.operation {
            Operation::Append { fragments } => count_rows(fragments),
            Operation::Overwrite { fragments, .. } => count_rows(fragments),
            Operation::Update { new_fragments, .. } => count_rows(new_fragments),
            _ => 0,
        };
        assert(rows == capped(rows_taken(self@.operation) as int));
        let overwrites = match &self.operation {
            Operation::Overwrite { .. } => true,
            _ => false,
        };
        let first: u128 = match current_manifest {
            Some(m) => if m.version == u64::MAX {
                return false;
            } else if overwrites {
                0
            } else {
                match m.max_fragment_id() {
                    Some(id) => id as u128 + 1,
                    None => 0,
                }
            },
            None => 0,
        };
        let first_row: Option<u64> = match current_manifest {
            Some(m) => if m.uses_move_stable_row_ids() {
                Some(m.next_row_id)
            } else {
                None
            },
            None => if config.use_move_stable_row_ids {
                Some(0)
            } else {
                None
            },
        };
        first + ids < TOO_MANY && match first_row {
            Some(next) => next as u128 + rows < TOO_MANY,
            None => true,
        }
    }

    /// Whether the transaction can be planned. The current manifest may rule it out from
    /// the start; then the plan is an error. Otherwise there have to be ids enough, and
    /// the operation has to be no restoration: the groups of a rewrite have old fragments,
    /// there are version numbers for the files that are added, and the field ids of
    /// indices are sound where fields were modified.
    pub fn can_plan_manifest(
        &self,
        current_manifest: Option<&Manifest>,
        current_indices: &Vec<Index>,
        config: &ManifestWriteConfig,
        numbers: &[Option<(u32, u32)>],
    ) -> (r: bool)
        ensures
            r == can_plan(
                self@.operation,
                opt_view(current_manifest),
                views(current_indices@),
                config.use_move_stable_row_ids,
                numbers@,
            ),
    {
        if self.is_ruled_out(current_manifest, config) {
            return true;
        }
        if !self.has_ids_enough(current_manifest, config) {
            return false;
        }
        match (&self.operation, current_manifest) {
            (Operation::Restore { .. }, _) => false,
            (Operation::Rewrite { groups, .. }, Some(m)) => {
                let fragment_id: u64 = match m.max_fragment_id() {
                    Some(id) => id + 1,
                    None => 0,
                };
                groups_can_be_rewritten(&m.fragments, groups, fragment_id)
            },
            (Operation::DataReplacement { replacements }, Some(m)) => {
                !agree_on_fields(replacements) || numbers.len() == replacements.len()
                    && versions_are_known(&m.fragments, replacements, numbers)
            },
            (Operation::Update { fields_modified, .. }, _) => fields_modified.len() == 0
                || indices_are_sound(current_indices, fields_modified),
            _ => true,
        }
    }

    /// Whether the fragment ids of a manifest, and those that the transaction reserves,
    /// can be recorded.
    pub fn can_finish_manifest(&self, manifest: &Manifest) -> (r: bool)
        ensures
            r == ids_can_be_recorded(manifest@, self.operation),
    {
        let greatest = max_fragment(&manifest.fragments);
        match greatest {
            Some(id) => {
                if id > 0xffff_ffff {
                    return false;
                }
            },
            None => {},
        }
        match &self.operation {
            Operation::ReserveFragments { num_fragments } => {
                let recorded: Option<u64> = match (greatest, manifest.max_fragment_id) {
                    (None, None) => None,
                    (None, Some(max)) => Some(max as u64),
                    (Some(id), None) => Some(id),
                    (Some(id), Some(max)) => if max as u64 >= id {
                        Some(max as u64)
                    } else {
                        Some(id)
                    },
                };
                match recorded {
                    Some(id) => id + *num_fragments as u64 <= 0xffff_ffff,
                    None => true,
                }
            },
            _ => true,
        }
    }
}

} // verus!
