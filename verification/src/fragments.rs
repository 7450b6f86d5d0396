//! What operations do to the fragments of a table.

use vstd::prelude::*;
use crate::assoc::Item;
use crate::error::Error;
use crate::error::ErrorModel;
use crate::format::DataFile;
use crate::format::DataFileModel;
use crate::format::Fragment;
use crate::format::FragmentModel;
use crate::format::RowIdMeta;
use crate::format::RowIdMetaModel;
use crate::items::holds;
use crate::operation::RewriteGroup;
use crate::operation::RewriteGroupModel;
use crate::seqs::lemma_skip_ends;
use crate::seqs::lemma_skip_step;
use crate::seqs::lemma_views_add;
use crate::seqs::lemma_views_push;
use crate::seqs::views;
use crate::text::concat;
use crate::text::int_text;
use crate::text::u64_text;
use crate::transaction::Transaction;

verus! {

// Numbering.

/// How many fragments have no id.
pub open spec fn unnumbered(fragments: Seq<FragmentModel>) -> nat
    decreases fragments.len(),
{
    if fragments.len() == 0 {
        0
    } else {
        (if fragments[0].id == 0 {
            1nat
        } else {
            0nat
        }) + unnumbered(fragments.drop_first())
    }
}

/// The fragments with ids for those that have none, counting up from `next`.
pub open spec fn number_fragments(fragments: Seq<FragmentModel>, next: int) -> Seq<FragmentModel>
    decreases fragments.len(),
{
    if fragments.len() == 0 {
        Seq::empty()
    } else if fragments[0].id == 0 {
        seq![FragmentModel { id: next as u64, ..fragments[0] }] + number_fragments(
            fragments.drop_first(),
            next + 1,
        )
    } else {
        seq![fragments[0]] + number_fragments(fragments.drop_first(), next)
    }
}

impl Transaction {
    /// Gives ids to the fragments that have none.
    pub fn fragments_with_ids(new_fragments: &Vec<Fragment>, fragment_id: &mut u64) -> (r: Vec<
        Fragment,
    >)
        requires
            *old(fragment_id) + unnumbered(views(new_fragments@)) <= u64::MAX,
        ensures
            views(r@) == number_fragments(views(new_fragments@), *old(fragment_id) as int),
            *final(fragment_id) == *old(fragment_id) + unnumbered(views(new_fragments@)),
    {
        let ghost all = views(new_fragments@);
        let ghost start = *fragment_id as int;
        let mut out: Vec<Fragment> = Vec::new();
        let mut i: usize = 0;
        proof {
            lemma_skip_ends(all);
            assert(views(out@) + number_fragments(all, start) =~= number_fragments(all, start));
        }
        while i < new_fragments.len()
            invariant
                i <= new_fragments@.len(),
                all == views(new_fragments@),
                start + unnumbered(all) <= u64::MAX,
                start + unnumbered(all) == *fragment_id + unnumbered(all.skip(i as int)),
                number_fragments(all, start) == views(out@) + number_fragments(
                    all.skip(i as int),
                    *fragment_id as int,
                ),
            decreases new_fragments@.len() - i,
        {
            proof {
                lemma_skip_step(all, i as int);
            }
            let mut f = new_fragments[i].copied();
            let ghost before = out@;
            let ghost here = *fragment_id as int;
            if f.id == 0 {
                f.id = *fragment_id;
                *fragment_id = *fragment_id + 1;
            }
            proof {
                lemma_views_push(before, f);
                let rest = number_fragments(all.skip(i + 1), *fragment_id as int);
                assert(views(before) + (seq![f@] + rest) =~= views(before.push(f)) + rest);
            }
            out.push(f);
            i += 1;
        }
        proof {
            lemma_skip_ends(all);
            assert(number_fragments(all, start) =~= views(out@));
        }
        out
    }
}

// Row ids.

/// How many rows fragments have, up to the first of which it is not known.
pub open spec fn rows_in(fragments: Seq<FragmentModel>) -> nat
    decreases fragments.len(),
{
    if fragments.len() == 0 {
        0
    } else {
        match fragments[0].physical_rows {
            Some(n) => n as nat + rows_in(fragments.drop_first()),
            None => 0,
        }
    }
}

/// Whether it is known of every fragment how many rows it has.
pub open spec fn rows_known(fragments: Seq<FragmentModel>) -> bool {
    forall|i: int| 0 <= i < fragments.len() ==> (#[trigger] fragments[i]).physical_rows is Some
}

/// The fragments with row ids, counting up from `next`, up to the first of which it is
/// not known how many rows it has.
pub open spec fn number_rows(fragments: Seq<FragmentModel>, next: int) -> Seq<FragmentModel>
    decreases fragments.len(),
{
    if fragments.len() == 0 {
        Seq::empty()
    } else {
        match fragments[0].physical_rows {
            Some(n) => seq![
                FragmentModel {
                    row_id_meta: Some(
                        RowIdMetaModel::Range { start: next as u64, end: (next + n) as u64 },
                    ),
                    ..fragments[0]
                },
            ] + number_rows(fragments.drop_first(), next + n),
            None => fragments,
        }
    }
}

/// The error of a fragment of which it is not known how many rows it has.
pub open spec fn no_rows() -> ErrorModel {
    ErrorModel::Internal { message: "Fragment does not have physical rows"@ }
}

impl Transaction {
    /// Gives row ids to fragments: the next free ones, as many as the fragment has rows.
    pub fn assign_row_ids(next_row_id: &mut u64, fragments: &mut Vec<Fragment>) -> (r: Result<
        (),
        Error,
    >)
        requires
            *old(next_row_id) + rows_in(views(old(fragments)@)) <= u64::MAX,
        ensures
            views(final(fragments)@) == number_rows(
                views(old(fragments)@),
                *old(next_row_id) as int,
            ),
            *final(next_row_id) == *old(next_row_id) + rows_in(views(old(fragments)@)),
            match r {
                Ok(_) => rows_known(views(old(fragments)@)),
                Err(e) => !rows_known(views(old(fragments)@)) && e@ == no_rows(),
            },
    {
        let ghost all = views(fragments@);
        let ghost start = *next_row_id as int;
        let ghost whole = number_rows(all, start);
        let mut i: usize = 0;
        proof {
            lemma_skip_ends(all);
            assert(views(fragments@).take(0) + whole =~= whole);
            assert(views(fragments@) =~= views(fragments@).take(0) + all.skip(0));
        }
        while i < fragments.len()
            invariant
                i <= fragments@.len(),
                all == views(old(fragments)@),
                start == *old(next_row_id),
                whole == number_rows(all, start),
                fragments@.len() == all.len(),
                start + rows_in(all) <= u64::MAX,
                start + rows_in(all) == *next_row_id + rows_in(all.skip(i as int)),
                whole == views(fragments@).take(i as int) + number_rows(
                    all.skip(i as int),
                    *next_row_id as int,
                ),
                views(fragments@) == views(fragments@).take(i as int) + all.skip(i as int),
                forall|j: int| 0 <= j < i ==> (#[trigger] all[j]).physical_rows is Some,
            decreases fragments@.len() - i,
        {
            proof {
                lemma_skip_step(all, i as int);
                assert(views(fragments@)[i as int] == all[i as int]);
                assert(views(fragments@)[i as int] == fragments@[i as int]@);
            }
            let physical_rows: u64 = match fragments[i].physical_rows {
                Some(n) => n as u64,
                None => {
                    assert(all[i as int].physical_rows is None);
                    return Err(
                        Error::Internal { message: "Fragment does not have physical rows".to_owned() },
                    );
                },
            };
            let mut f = fragments[i].copied();
            f.row_id_meta = Some(
                RowIdMeta::Range { start: *next_row_id, end: *next_row_id + physical_rows },
            );
            let ghost before = views(fragments@);
            fragments.set(i, f);
            *next_row_id = *next_row_id + physical_rows;
            proof {
                let now = views(fragments@);
                assert(now =~= before.update(i as int, f@));
                let rest = number_rows(all.skip(i + 1), *next_row_id as int);
                assert(before.take(i as int) + (seq![f@] + rest) =~= now.take(i + 1) + rest);
                assert(now =~= now.take(i + 1) + all.skip(i + 1)) by {
                    assert(before =~= before.take(i as int) + (seq![all[i as int]] + all.skip(i + 1)));
                }
            }
            i += 1;
        }
        proof {
            lemma_skip_ends(all);
            assert(whole =~= views(fragments@));
        }
        Ok(())
    }
}

// Choosing.

/// The fragments whose id is not among some.
pub open spec fn without_ids(fragments: Seq<FragmentModel>, ids: Seq<u64>) -> Seq<FragmentModel>
    decreases fragments.len(),
{
    if fragments.len() == 0 {
        Seq::empty()
    } else {
        let rest = without_ids(fragments.drop_first(), ids);
        if ids.contains(fragments[0].id) {
            rest
        } else {
            seq![fragments[0]] + rest
        }
    }
}

/// Copies the fragments whose id is not among some.
pub fn leave_out(fragments: &Vec<Fragment>, ids: &Vec<u64>) -> (r: Vec<Fragment>)
    ensures
        views(r@) == without_ids(views(fragments@), views(ids@)),
{
    let ghost all = views(fragments@);
    let ghost gone = views(ids@);
    let mut out: Vec<Fragment> = Vec::new();
    let mut i: usize = 0;
    proof {
        lemma_skip_ends(all);
        assert(views(out@) + without_ids(all, gone) =~= without_ids(all, gone));
    }
    while i < fragments.len()
        invariant
            i <= fragments@.len(),
            all == views(fragments@),
            gone == views(ids@),
            without_ids(all, gone) == views(out@) + without_ids(all.skip(i as int), gone),
        decreases fragments@.len() - i,
    {
        proof {
            lemma_skip_step(all, i as int);
        }
        if !holds(ids.as_slice(), &fragments[i].id) {
            let f = fragments[i].copied();
            proof {
                lemma_views_push(out@, f);
                let rest = without_ids(all.skip(i + 1), gone);
                assert(views(out@) + (seq![f@] + rest) =~= views(out@.push(f)) + rest);
            }
            out.push(f);
        }
        i += 1;
    }
    proof {
        lemma_skip_ends(all);
        assert(without_ids(all, gone) =~= views(out@));
    }
    out
}

/// The first fragment with an id.
pub open spec fn first_with_id(fragments: Seq<FragmentModel>, id: u64) -> Option<FragmentModel>
    decreases fragments.len(),
{
    if fragments.len() == 0 {
        None
    } else if fragments[0].id == id {
        Some(fragments[0])
    } else {
        first_with_id(fragments.drop_first(), id)
    }
}

/// The last fragment with an id.
pub open spec fn last_with_id(fragments: Seq<FragmentModel>, id: u64) -> Option<FragmentModel>
    decreases fragments.len(),
{
    if fragments.len() == 0 {
        None
    } else if fragments.last().id == id {
        Some(fragments.last())
    } else {
        last_with_id(fragments.drop_last(), id)
    }
}

/// Finds the first fragment with an id.
pub fn find_first<'a>(fragments: &'a Vec<Fragment>, id: u64) -> (r: Option<&'a Fragment>)
    ensures
        match r {
            Some(f) => first_with_id(views(fragments@), id) == Some(f@),
            None => first_with_id(views(fragments@), id) is None,
        },
{
    let ghost all = views(fragments@);
    let mut i: usize = 0;
    proof {
        lemma_skip_ends(all);
    }
    while i < fragments.len()
        invariant
            i <= fragments@.len(),
            all == views(fragments@),
            first_with_id(all, id) == first_with_id(all.skip(i as int), id),
        decreases fragments@.len() - i,
    {
        proof {
            lemma_skip_step(all, i as int);
        }
        if fragments[i].id == id {
            return Some(&fragments[i]);
        }
        i += 1;
    }
    proof {
        lemma_skip_ends(all);
    }
    None
}

fn find_last<'a>(fragments: &'a Vec<Fragment>, id: u64) -> (r: Option<&'a Fragment>)
    ensures
        match r {
            Some(f) => last_with_id(views(fragments@), id) == Some(f@),
            None => last_with_id(views(fragments@), id) is None,
        },
{
    let ghost all = views(fragments@);
    let mut i: usize = fragments.len();
    assert(all.take(all.len() as int) =~= all);
    while i > 0
        invariant
            i <= fragments@.len(),
            all == views(fragments@),
            last_with_id(all, id) == last_with_id(all.take(i as int), id),
        decreases i,
    {
        i -= 1;
        assert(all.take(i + 1).drop_last() =~= all.take(i as int));
        assert(all.take(i + 1).last() == fragments@[i as int]@);
        if fragments[i].id == id {
            return Some(&fragments[i]);
        }
    }
    None
}

/// The fragments, each replaced by the last of its id among others.
pub open spec fn updated_by_last(
    fragments: Seq<FragmentModel>,
    updates: Seq<FragmentModel>,
) -> Seq<FragmentModel> {
    Seq::new(
        fragments.len(),
        |i: int|
            match last_with_id(updates, fragments[i].id) {
                Some(f) => f,
                None => fragments[i],
            },
    )
}

/// The fragments, each replaced by the first of its id among others.
pub open spec fn updated_by_first(
    fragments: Seq<FragmentModel>,
    updates: Seq<FragmentModel>,
) -> Seq<FragmentModel> {
    Seq::new(
        fragments.len(),
        |i: int|
            match first_with_id(updates, fragments[i].id) {
                Some(f) => f,
                None => fragments[i],
            },
    )
}

/// Replaces each fragment by the last of its id among others.
pub fn update_by_last(fragments: &Vec<Fragment>, updates: &Vec<Fragment>) -> (r: Vec<Fragment>)
    ensures
        views(r@) == updated_by_last(views(fragments@), views(updates@)),
{
    let mut out: Vec<Fragment> = Vec::new();
    let mut i: usize = 0;
    while i < fragments.len()
        invariant
            i <= fragments@.len(),
            out@.len() == i,
            forall|j: int|
                0 <= j < i ==> (#[trigger] out@[j])@ == updated_by_last(
                    views(fragments@),
                    views(updates@),
                )[j],
        decreases fragments@.len() - i,
    {
        assert(views(fragments@)[i as int] == fragments@[i as int]@);
        match find_last(updates, fragments[i].id) {
            Some(f) => {
                out.push(f.copied());
            },
            None => {
                out.push(fragments[i].copied());
            },
        }
        i += 1;
    }
    assert(views(out@) =~= updated_by_last(views(fragments@), views(updates@)));
    out
}

/// Replaces each fragment by the first of its id among others.
pub fn update_by_first(fragments: &Vec<Fragment>, updates: &Vec<Fragment>) -> (r: Vec<Fragment>)
    ensures
        views(r@) == updated_by_first(views(fragments@), views(updates@)),
{
    let mut out: Vec<Fragment> = Vec::new();
    let mut i: usize = 0;
    while i < fragments.len()
        invariant
            i <= fragments@.len(),
            out@.len() == i,
            forall|j: int|
                0 <= j < i ==> (#[trigger] out@[j])@ == updated_by_first(
                    views(fragments@),
                    views(updates@),
                )[j],
        decreases fragments@.len() - i,
    {
        assert(views(fragments@)[i as int] == fragments@[i as int]@);
        match find_first(updates, fragments[i].id) {
            Some(f) => {
                out.push(f.copied());
            },
            None => {
                out.push(fragments[i].copied());
            },
        }
        i += 1;
    }
    assert(views(out@) =~= updated_by_first(views(fragments@), views(updates@)));
    out
}

// Rewriting.

/// The position of the first fragment with an id.
pub open spec fn position_of(fragments: Seq<FragmentModel>, id: u64) -> Option<int>
    decreases fragments.len(),
{
    if fragments.len() == 0 {
        None
    } else if fragments[0].id == id {
        Some(0)
    } else {
        match position_of(fragments.drop_first(), id) {
            Some(i) => Some(i + 1),
            None => None,
        }
    }
}

/// Whether fragments with the ids of others stand one after the other from a position
/// on.
pub open spec fn stands_at(
    fragments: Seq<FragmentModel>,
    start: int,
    others: Seq<FragmentModel>,
) -> bool {
    &&& start + others.len() <= fragments.len()
    &&& forall|k: int|
        0 <= k < others.len() ==> fragments[start + k].id == (#[trigger] others[k]).id
}

/// The ids of fragments.
pub open spec fn fragment_ids(fragments: Seq<FragmentModel>) -> Seq<u64> {
    Seq::new(fragments.len(), |i: int| fragments[i].id)
}

/// The fragments after those of a group, of which the first stands at `start`, were
/// replaced. Where the old fragments stand one after the other the new ones take their
/// place; otherwise the new ones come at the end.
pub open spec fn rewrite_group(
    fragments: Seq<FragmentModel>,
    start: int,
    group: RewriteGroupModel,
    next: int,
) -> Seq<FragmentModel> {
    let new = number_fragments(group.new_fragments, next);
    if stands_at(fragments, start, group.old_fragments) {
        fragments.take(start) + new + fragments.skip(start + group.old_fragments.len())
    } else {
        without_ids(fragments, fragment_ids(group.old_fragments)) + new
    }
}

/// The error of a group whose first fragment is not there.
pub open spec fn rewrite_conflict(version: u64, id: u64) -> ErrorModel {
    ErrorModel::CommitConflict {
        version,
        source: "dataset does not contain a fragment a rewrite operation wants to replace: id="@
            + int_text(id as int),
    }
}

/// Whether groups can be rewritten one after the other: up to the first conflict each
/// has old fragments, and there are ids for its new ones.
pub open spec fn can_rewrite(
    fragments: Seq<FragmentModel>,
    groups: Seq<RewriteGroupModel>,
    next: int,
) -> bool
    decreases groups.len(),
{
    groups.len() > 0 ==> {
        &&& groups[0].old_fragments.len() > 0
        &&& match position_of(fragments, groups[0].old_fragments[0].id) {
            None => true,
            Some(start) => {
                let after = next + unnumbered(groups[0].new_fragments);
                &&& after <= u64::MAX
                &&& can_rewrite(
                    rewrite_group(fragments, start, groups[0], next),
                    groups.drop_first(),
                    after,
                )
            },
        }
    }
}

/// The fragments after groups were rewritten one after the other, the next free id,
/// and the conflict that ended it, if there was one.
pub open spec fn rewrite_groups(
    fragments: Seq<FragmentModel>,
    groups: Seq<RewriteGroupModel>,
    next: int,
    version: u64,
) -> (Seq<FragmentModel>, int, Option<ErrorModel>)
    decreases groups.len(),
{
    if groups.len() == 0 {
        (fragments, next, None)
    } else {
        let first = groups[0].old_fragments[0].id;
        match position_of(fragments, first) {
            None => (fragments, next, Some(rewrite_conflict(version, first))),
            Some(start) => rewrite_groups(
                rewrite_group(fragments, start, groups[0], next),
                groups.drop_first(),
                next + unnumbered(groups[0].new_fragments),
                version,
            ),
        }
    }
}

/// A fragment that is found by its id has the id.
pub proof fn lemma_position_of(fragments: Seq<FragmentModel>, id: u64)
    ensures
        match position_of(fragments, id) {
            Some(i) => {
                &&& 0 <= i < fragments.len()
                &&& fragments[i].id == id
                &&& forall|j: int| 0 <= j < i ==> (#[trigger] fragments[j]).id != id
            },
            None => forall|j: int| 0 <= j < fragments.len() ==> (#[trigger] fragments[j]).id != id,
        },
    decreases fragments.len(),
{
    if fragments.len() > 0 && fragments[0].id != id {
        let rest = fragments.drop_first();
        lemma_position_of(rest, id);
        assert(forall|j: int| 0 <= j < rest.len() ==> (#[trigger] rest[j]) == fragments[j + 1]);
        match position_of(rest, id) {
            Some(i) => {
                assert forall|j: int| 0 <= j < i + 1 implies (#[trigger] fragments[j]).id != id by {
                    if j > 0 {
                        assert(rest[j - 1] == fragments[j]);
                    }
                }
            },
            None => {
                assert forall|j: int| 0 <= j < fragments.len() implies (#[trigger] fragments[j]).id
                    != id by {
                    if j > 0 {
                        assert(rest[j - 1] == fragments[j]);
                    }
                }
            },
        }
    }
}

fn find_position(fragments: &Vec<Fragment>, id: u64) -> (r: Option<usize>)
    ensures
        match r {
            Some(i) => i < fragments@.len() && position_of(views(fragments@), id) == Some(i as int),
            None => position_of(views(fragments@), id) is None,
        },
{
    let ghost all = views(fragments@);
    proof {
        lemma_position_of(all, id);
    }
    let mut i: usize = 0;
    while i < fragments.len()
        invariant
            i <= fragments@.len(),
            all == views(fragments@),
            forall|j: int| 0 <= j < i ==> (#[trigger] all[j]).id != id,
        decreases fragments@.len() - i,
    {
        assert(all[i as int] == fragments@[i as int]@);
        if fragments[i].id == id {
            proof {
                lemma_position_of(all, id);
                let k = position_of(all, id)->0;
                assert(all[k].id == id);
                assert(k == i);
            }
            return Some(i);
        }
        i += 1;
    }
    proof {
        lemma_position_of(all, id);
    }
    None
}

fn is_range(fragments: &Vec<Fragment>, start: usize, others: &Vec<Fragment>) -> (r: bool)
    requires
        start < fragments@.len(),
    ensures
        r == stands_at(views(fragments@), start as int, views(others@)),
{
    if others.len() > fragments.len() - start {
        return false;
    }
    let ghost all = views(fragments@);
    let ghost rest = views(others@);
    let end: usize = fragments.len();
    let mut i: usize = 0;
    while i < others.len()
        invariant
            i <= others@.len(),
            start + others@.len() <= fragments@.len(),
            end == fragments@.len(),
            all == views(fragments@),
            rest == views(others@),
            forall|k: int| 0 <= k < i ==> all[start + k].id == (#[trigger] rest[k]).id,
        decreases others@.len() - i,
    {
        assert(all[start + i] == fragments@[start + i]@);
        assert(rest[i as int] == others@[i as int]@);
        if fragments[start + i].id != others[i].id {
            return false;
        }
        i += 1;
    }
    true
}

/// The ids of fragments.
pub fn ids_of_fragments(fragments: &Vec<Fragment>) -> (r: Vec<u64>)
    ensures
        views(r@) == fragment_ids(views(fragments@)),
{
    let mut out: Vec<u64> = Vec::new();
    let mut i: usize = 0;
    while i < fragments.len()
        invariant
            i <= fragments@.len(),
            out@.len() == i,
            forall|j: int| 0 <= j < i ==> out@[j] == (#[trigger] fragments@[j])@.id,
        decreases fragments@.len() - i,
    {
        out.push(fragments[i].id);
        i += 1;
    }
    assert(views(out@) =~= fragment_ids(views(fragments@)));
    out
}

/// Replaces the old fragments of a group, of which the first stands at `start`, by its
/// new ones.
pub fn replace_group(
    fragments: &mut Vec<Fragment>,
    start: usize,
    group: &RewriteGroup,
    fragment_id: &mut u64,
)
    requires
        start < old(fragments)@.len(),
        *old(fragment_id) + unnumbered(group@.new_fragments) <= u64::MAX,
    ensures
        views(final(fragments)@) == rewrite_group(
            views(old(fragments)@),
            start as int,
            group@,
            *old(fragment_id) as int,
        ),
        *final(fragment_id) == *old(fragment_id) + unnumbered(group@.new_fragments),
{
    let ghost now = fragments@;
    let contiguous = is_range(fragments, start, &group.old_fragments);
    let mut new_fragments = Transaction::fragments_with_ids(&group.new_fragments, fragment_id);
    let ghost new = new_fragments@;
    if contiguous {
        let mut tail = fragments.split_off(start);
        let mut rest = tail.split_off(group.old_fragments.len());
        fragments.append(&mut new_fragments);
        fragments.append(&mut rest);
        assert(views(fragments@) =~= views(now).take(start as int) + views(new) + views(now).skip(
            start + group.old_fragments@.len(),
        ));
    } else {
        let gone = ids_of_fragments(&group.old_fragments);
        let mut kept = leave_out(fragments, &gone);
        proof {
            lemma_views_add(kept@, new);
        }
        kept.append(&mut new_fragments);
        *fragments = kept;
    }
}

/// Finds the first fragment of a group.
pub fn find_group(fragments: &Vec<Fragment>, group: &RewriteGroup) -> (r: Option<usize>)
    requires
        group@.old_fragments.len() > 0,
    ensures
        match r {
            Some(i) => i < fragments@.len() && position_of(
                views(fragments@),
                group@.old_fragments[0].id,
            ) == Some(i as int),
            None => position_of(views(fragments@), group@.old_fragments[0].id) is None,
        },
{
    assert(group@.old_fragments[0] == group.old_fragments@[0]@);
    find_position(fragments, group.old_fragments[0].id)
}

impl Transaction {
    /// Replaces the old fragments of each group by its new ones.
    pub fn handle_rewrite_fragments(
        final_fragments: &mut Vec<Fragment>,
        groups: &[RewriteGroup],
        fragment_id: &mut u64,
        version: u64,
    ) -> (r: Result<(), Error>)
        requires
            can_rewrite(views(old(final_fragments)@), views(groups@), *old(fragment_id) as int),
        ensures
            ({
                let out = rewrite_groups(
                    views(old(final_fragments)@),
                    views(groups@),
                    *old(fragment_id) as int,
                    version,
                );
                &&& views(final(final_fragments)@) == out.0
                &&& *final(fragment_id) == out.1
                &&& match r {
                    Ok(_) => out.2 is None,
                    Err(e) => out.2 == Some(e@),
                }
            }),
    {
        let ghost all = views(groups@);
        let ghost whole = rewrite_groups(
            views(final_fragments@),
            all,
            *fragment_id as int,
            version,
        );
        let mut i: usize = 0;
        proof {
            lemma_skip_ends(all);
        }
        while i < groups.len()
            invariant
                i <= groups@.len(),
                all == views(groups@),
                whole == rewrite_groups(
                    views(old(final_fragments)@),
                    all,
                    *old(fragment_id) as int,
                    version,
                ),
                whole == rewrite_groups(
                    views(final_fragments@),
                    all.skip(i as int),
                    *fragment_id as int,
                    version,
                ),
                can_rewrite(views(final_fragments@), all.skip(i as int), *fragment_id as int),
            decreases groups@.len() - i,
        {
            let group = &groups[i];
            proof {
                lemma_skip_step(all, i as int);
                assert(all[i as int] == group@);
            }
            match find_group(final_fragments, group) {
                Some(start) => {
                    replace_group(final_fragments, start, group, fragment_id);
                },
                None => {
                    assert(group@.old_fragments[0] == group.old_fragments@[0]@);
                    return Err(
                        Error::CommitConflict {
                            version,
                            source: concat(
                                "dataset does not contain a fragment a rewrite operation wants to replace: id=",
                                u64_text(group.old_fragments[0].id).as_str(),
                            ),
                        },
                    );
                },
            }
            i += 1;
        }
        proof {
            lemma_skip_ends(all);
        }
        Ok(())
    }
}

// Sorting.

/// Fragments with one more, put behind all whose id is not greater.
pub open spec fn insert_by_id(sorted: Seq<FragmentModel>, f: FragmentModel) -> Seq<FragmentModel>
    decreases sorted.len(),
{
    if sorted.len() == 0 || sorted.last().id <= f.id {
        sorted.push(f)
    } else {
        insert_by_id(sorted.drop_last(), f).push(sorted.last())
    }
}

/// Fragments in the order of their ids; those of one id stay in order.
pub open spec fn sort_by_id(fragments: Seq<FragmentModel>) -> Seq<FragmentModel>
    decreases fragments.len(),
{
    if fragments.len() == 0 {
        Seq::empty()
    } else {
        insert_by_id(sort_by_id(fragments.drop_last()), fragments.last())
    }
}

/// Whether ids do not fall.
pub open spec fn ids_ascend(fragments: Seq<FragmentModel>) -> bool {
    forall|i: int, j: int|
        0 <= i < j < fragments.len() ==> (#[trigger] fragments[i]).id <= (
        #[trigger] fragments[j]).id
}

/// The fragments with an id, in order.
pub open spec fn all_with_id(fragments: Seq<FragmentModel>, id: u64) -> Seq<FragmentModel>
    decreases fragments.len(),
{
    if fragments.len() == 0 {
        Seq::empty()
    } else if fragments.last().id == id {
        all_with_id(fragments.drop_last(), id).push(fragments.last())
    } else {
        all_with_id(fragments.drop_last(), id)
    }
}

proof fn lemma_insert_by_id(sorted: Seq<FragmentModel>, f: FragmentModel, id: u64)
    requires
        ids_ascend(sorted),
    ensures
        ids_ascend(insert_by_id(sorted, f)),
        insert_by_id(sorted, f).len() == sorted.len() + 1,
        insert_by_id(sorted, f).to_multiset() == sorted.to_multiset().insert(f),
        all_with_id(insert_by_id(sorted, f), id) == all_with_id(sorted.push(f), id),
        forall|i: int|
            0 <= i < insert_by_id(sorted, f).len() ==> (#[trigger] insert_by_id(sorted, f)[i]).id
                <= f.id || exists|j: int|
                0 <= j < sorted.len() && (#[trigger] sorted[j]).id == insert_by_id(
                    sorted,
                    f,
                )[i].id,
    decreases sorted.len(),
{
    let out = insert_by_id(sorted, f);
    sorted.to_multiset_ensures();
    if sorted.len() == 0 || sorted.last().id <= f.id {
        assert forall|i: int, j: int| 0 <= i < j < out.len() implies (#[trigger] out[i]).id <= (
        #[trigger] out[j]).id by {
            if j == sorted.len() {
                if i < sorted.len() - 1 {
                    assert(sorted[i].id <= sorted[sorted.len() - 1].id);
                }
            }
        }
        assert forall|i: int| 0 <= i < out.len() implies (#[trigger] out[i]).id <= f.id || exists|
            j: int,
        |
            0 <= j < sorted.len() && (#[trigger] sorted[j]).id == out[i].id by {
            if i < sorted.len() {
                assert(sorted[i].id == out[i].id);
            }
        }
    } else {
        let front = sorted.drop_last();
        let last = sorted.last();
        assert forall|i: int, j: int| 0 <= i < j < front.len() implies (#[trigger] front[i]).id <= (
        #[trigger] front[j]).id by {
            assert(sorted[i].id <= sorted[j].id);
        }
        lemma_insert_by_id(front, f, id);
        let inner = insert_by_id(front, f);
        inner.to_multiset_ensures();
        front.to_multiset_ensures();
        assert(front.push(last) =~= sorted);
        assert(out.to_multiset() =~= sorted.to_multiset().insert(f));
        assert forall|i: int| 0 <= i < inner.len() implies (#[trigger] inner[i]).id <= last.id by {
            if inner[i].id > f.id {
                let j = choose|j: int|
                    0 <= j < front.len() && (#[trigger] front[j]).id == inner[i].id;
                assert(sorted[j].id <= sorted[sorted.len() - 1].id);
            }
        }
        assert forall|i: int, j: int| 0 <= i < j < out.len() implies (#[trigger] out[i]).id <= (
        #[trigger] out[j]).id by {
            if j == inner.len() {
                assert(out[i] == inner[i]);
            } else {
                assert(out[i] == inner[i]);
                assert(out[j] == inner[j]);
            }
        }
        assert forall|i: int| 0 <= i < out.len() implies (#[trigger] out[i]).id <= f.id || exists|
            j: int,
        |
            0 <= j < sorted.len() && (#[trigger] sorted[j]).id == out[i].id by {
            if i == inner.len() {
                assert(sorted[sorted.len() - 1].id == out[i].id);
            } else {
                assert(out[i] == inner[i]);
                if inner[i].id > f.id {
                    let j = choose|j: int|
                        0 <= j < front.len() && (#[trigger] front[j]).id == inner[i].id;
                    assert(sorted[j].id == out[i].id);
                }
            }
        }
        assert(out.drop_last() =~= inner);
        assert(sorted.push(f).drop_last() =~= sorted);
        assert(front.push(f).drop_last() =~= front);
        assert(last.id != f.id);
        assert(out.last() == last);
        assert(sorted.push(f).last() == f);
        assert(front.push(f).last() == f);
        let base = all_with_id(front, id);
        assert(all_with_id(sorted, id) == (if last.id == id {
            base.push(last)
        } else {
            base
        }));
        assert(all_with_id(inner, id) == (if f.id == id {
            base.push(f)
        } else {
            base
        }));
        assert(all_with_id(sorted.push(f), id) == (if f.id == id {
            all_with_id(sorted, id).push(f)
        } else {
            all_with_id(sorted, id)
        }));
        assert(all_with_id(out, id) == (if last.id == id {
            all_with_id(inner, id).push(last)
        } else {
            all_with_id(inner, id)
        }));
    }
}

/// Sorting by id gives the same fragments in the order of their ids, and those of one
/// id in the order in which they were.
pub proof fn sorting_is_stable(fragments: Seq<FragmentModel>, id: u64)
    ensures
        ids_ascend(sort_by_id(fragments)),
        sort_by_id(fragments).to_multiset() == fragments.to_multiset(),
        all_with_id(sort_by_id(fragments), id) == all_with_id(fragments, id),
    decreases fragments.len(),
{
    if fragments.len() > 0 {
        let front = fragments.drop_last();
        let last = fragments.last();
        sorting_is_stable(front, id);
        let sorted = sort_by_id(front);
        lemma_insert_by_id(sorted, last, id);
        front.to_multiset_ensures();
        assert(front.push(last) =~= fragments);
        assert(sorted.push(last).drop_last() =~= sorted);
    } else {
        assert(sort_by_id(fragments) =~= fragments);
    }
}

fn insert_sorted(sorted: &mut Vec<Fragment>, f: Fragment)
    ensures
        views(final(sorted)@) == insert_by_id(views(old(sorted)@), f@),
{
    let ghost all = views(sorted@);
    let mut i: usize = sorted.len();
    let ghost mut behind: Seq<FragmentModel> = Seq::empty();
    assert(all.take(all.len() as int) =~= all);
    assert(insert_by_id(all, f@) + behind =~= insert_by_id(all, f@));
    while i > 0 && sorted[i - 1].id > f.id
        invariant
            i <= sorted@.len(),
            all == views(sorted@),
            behind == all.skip(i as int),
            insert_by_id(all, f@) == insert_by_id(all.take(i as int), f@) + behind,
        decreases i,
    {
        i -= 1;
        proof {
            let now = all.take(i + 1);
            assert(now.drop_last() =~= all.take(i as int));
            assert(now.last() == sorted@[i as int]@);
            let later = all.skip(i as int);
            assert(insert_by_id(all.take(i as int), f@).push(now.last()) + behind =~= insert_by_id(
                all.take(i as int),
                f@,
            ) + later);
            behind = later;
        }
    }
    proof {
        if i > 0 {
            assert(all.take(i as int).last() == sorted@[i - 1]@);
        }
        assert(insert_by_id(all.take(i as int), f@) == all.take(i as int).push(f@));
        assert(views(sorted@.insert(i as int, f)) =~= all.take(i as int).push(f@) + behind);
    }
    sorted.insert(i, f);
}

/// Sorts fragments by their ids; those of one id stay in order.
pub fn sort_fragments(fragments: Vec<Fragment>) -> (r: Vec<Fragment>)
    ensures
        views(r@) == sort_by_id(views(fragments@)),
{
    let ghost all = views(fragments@);
    let mut out: Vec<Fragment> = Vec::new();
    let mut i: usize = 0;
    assert(views(out@) =~= Seq::<FragmentModel>::empty());
    while i < fragments.len()
        invariant
            i <= fragments@.len(),
            all == views(fragments@),
            views(out@) == sort_by_id(all.take(i as int)),
        decreases fragments@.len() - i,
    {
        assert(all.take(i + 1).drop_last() =~= all.take(i as int));
        assert(all.take(i + 1).last() == fragments@[i as int]@);
        insert_sorted(&mut out, fragments[i].copied());
        i += 1;
    }
    assert(all.take(all.len() as int) =~= all);
    out
}

// Data files.

/// Whether a data file has one of some fields.
pub open spec fn has_field(file: DataFileModel, ids: Seq<i32>) -> bool {
    exists|i: int| 0 <= i < file.fields.len() && ids.contains(#[trigger] file.fields[i])
}

/// The data files that have one of some fields.
pub open spec fn files_with(files: Seq<DataFileModel>, ids: Seq<i32>) -> Seq<DataFileModel>
    decreases files.len(),
{
    if files.len() == 0 {
        Seq::empty()
    } else {
        let rest = files_with(files.drop_first(), ids);
        if has_field(files[0], ids) {
            seq![files[0]] + rest
        } else {
            rest
        }
    }
}

/// The fragments with only the data files that have one of some fields.
pub open spec fn keep_fields(fragments: Seq<FragmentModel>, ids: Seq<i32>) -> Seq<FragmentModel> {
    Seq::new(
        fragments.len(),
        |i: int| FragmentModel { files: files_with(fragments[i].files, ids), ..fragments[i] },
    )
}

/// Whether a data file has one of some fields.
pub fn file_has_field(file: &DataFile, ids: &Vec<i32>) -> (r: bool)
    ensures
        r == has_field(file@, views(ids@)),
{
    let ghost fields = views(file.fields@);
    let mut i: usize = 0;
    while i < file.fields.len()
        invariant
            i <= file.fields@.len(),
            fields == views(file.fields@),
            fields == file@.fields,
            forall|j: int| 0 <= j < i ==> !views(ids@).contains(#[trigger] fields[j]),
        decreases file.fields@.len() - i,
    {
        assert(fields[i as int] == file.fields@[i as int]@);
        if holds(ids.as_slice(), &file.fields[i]) {
            assert(views(ids@).contains(file@.fields[i as int]));
            return true;
        }
        i += 1;
    }
    false
}

fn filter_files(files: &Vec<DataFile>, ids: &Vec<i32>) -> (r: Vec<DataFile>)
    ensures
        views(r@) == files_with(views(files@), views(ids@)),
{
    let ghost all = views(files@);
    let ghost kept = views(ids@);
    let mut out: Vec<DataFile> = Vec::new();
    let mut i: usize = 0;
    proof {
        lemma_skip_ends(all);
        assert(views(out@) + files_with(all, kept) =~= files_with(all, kept));
    }
    while i < files.len()
        invariant
            i <= files@.len(),
            all == views(files@),
            kept == views(ids@),
            files_with(all, kept) == views(out@) + files_with(all.skip(i as int), kept),
        decreases files@.len() - i,
    {
        proof {
            lemma_skip_step(all, i as int);
        }
        if file_has_field(&files[i], ids) {
            let f = files[i].copied();
            proof {
                lemma_views_push(out@, f);
                let rest = files_with(all.skip(i + 1), kept);
                assert(views(out@) + (seq![f@] + rest) =~= views(out@.push(f)) + rest);
            }
            out.push(f);
        }
        i += 1;
    }
    proof {
        lemma_skip_ends(all);
        assert(files_with(all, kept) =~= views(out@));
    }
    out
}

/// Drops the data files that have none of some fields.
pub fn drop_files(fragments: &Vec<Fragment>, ids: &Vec<i32>) -> (r: Vec<Fragment>)
    ensures
        views(r@) == keep_fields(views(fragments@), views(ids@)),
{
    let mut out: Vec<Fragment> = Vec::new();
    let mut i: usize = 0;
    while i < fragments.len()
        invariant
            i <= fragments@.len(),
            out@.len() == i,
            forall|j: int|
                0 <= j < i ==> (#[trigger] out@[j])@ == keep_fields(
                    views(fragments@),
                    views(ids@),
                )[j],
        decreases fragments@.len() - i,
    {
        assert(views(fragments@)[i as int] == fragments@[i as int]@);
        let mut f = fragments[i].copied();
        f.files = filter_files(&fragments[i].files, ids);
        out.push(f);
        i += 1;
    }
    assert(views(out@) =~= keep_fields(views(fragments@), views(ids@)));
    out
}

} // verus!
