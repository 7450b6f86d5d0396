//! What operations do to the indices of a table.

use vstd::prelude::*;
use crate::assoc::Item;
use crate::bitmap::bitmap_contains;
use crate::bitmap::bitmap_extend;
use crate::bitmap::bitmap_ids;
use crate::bitmap::bitmap_remove;
use crate::bitmap::bitmap_values;
use crate::bitmap::copy_bitmap;
use crate::error::Error;
use crate::error::ErrorModel;
use crate::field::ids_of;
use crate::field::pre_order;
use crate::format::Fragment;
use crate::format::FragmentModel;
use crate::format::Index;
use crate::format::IndexModel;
use crate::fragments::fragment_ids;
use crate::ids::uuid_text;
use crate::ids::Uuid;
use crate::items::holds;
use crate::operation::RewriteGroup;
use crate::operation::RewriteGroupModel;
use crate::operation::RewrittenIndex;
use crate::schema::Schema;
use crate::seqs::lemma_skip_ends;
use crate::seqs::lemma_skip_step;
use crate::seqs::lemma_views_push;
use crate::seqs::views;
use crate::text::concat;
use crate::transaction::Transaction;

verus! {

// Bitmaps.

/// The ids of fragments, as a bitmap holds them: the low 32 bits.
pub open spec fn short_ids(fragments: Seq<FragmentModel>) -> Seq<u32> {
    Seq::new(fragments.len(), |i: int| fragments[i].id as u32)
}

/// Whether a bitmap holds one of some fragments.
pub open spec fn covers_any(ids: Set<u32>, fragments: Seq<FragmentModel>) -> bool {
    exists|i: int| 0 <= i < fragments.len() && ids.contains((#[trigger] fragments[i]).id as u32)
}

/// Whether a bitmap holds all of some fragments.
pub open spec fn covers_all(ids: Set<u32>, fragments: Seq<FragmentModel>) -> bool {
    forall|i: int| 0 <= i < fragments.len() ==> ids.contains((#[trigger] fragments[i]).id as u32)
}

/// The error of a group of which an index covers a part.
pub open spec fn split_group() -> ErrorModel {
    ErrorModel::InvalidInput {
        source:
            "The compaction plan included a rewrite group that was a split of indexed and non-indexed data"@,
    }
}

/// What a bitmap holds after groups were rewritten: `now`, with the old fragments of
/// each group that `before` covers replaced by its new ones. A group that `before`
/// covers in part is an error.
pub open spec fn rewrite_bitmap(
    before: Set<u32>,
    now: Set<u32>,
    groups: Seq<RewriteGroupModel>,
) -> Result<Set<u32>, ErrorModel>
    decreases groups.len(),
{
    if groups.len() == 0 {
        Ok(now)
    } else {
        let g = groups[0];
        if !covers_any(before, g.old_fragments) {
            rewrite_bitmap(before, now, groups.drop_first())
        } else if covers_all(before, g.old_fragments) {
            rewrite_bitmap(
                before,
                now.difference(short_ids(g.old_fragments).to_set()).union(
                    short_ids(g.new_fragments).to_set(),
                ),
                groups.drop_first(),
            )
        } else {
            Err(split_group())
        }
    }
}

fn short_ids_of(fragments: &Vec<Fragment>) -> (r: Vec<u32>)
    ensures
        r@ == short_ids(views(fragments@)),
{
    let mut out: Vec<u32> = Vec::new();
    let mut i: usize = 0;
    while i < fragments.len()
        invariant
            i <= fragments@.len(),
            out@.len() == i,
            forall|j: int| 0 <= j < i ==> out@[j] == (#[trigger] fragments@[j])@.id as u32,
        decreases fragments@.len() - i,
    {
        out.push(
            #[verifier::truncate]
            (fragments[i].id as u32),
        );
        i += 1;
    }
    assert(out@ =~= short_ids(views(fragments@)));
    out
}

fn covered_any(bitmap: &roaring::RoaringBitmap, fragments: &Vec<Fragment>) -> (r: bool)
    ensures
        r == covers_any(bitmap_ids(*bitmap), views(fragments@)),
{
    let ghost all = views(fragments@);
    let ids = short_ids_of(fragments);
    let mut i: usize = 0;
    while i < ids.len()
        invariant
            i <= ids@.len(),
            all == views(fragments@),
            ids@ == short_ids(all),
            forall|j: int|
                0 <= j < i ==> !bitmap_ids(*bitmap).contains((#[trigger] all[j]).id as u32),
        decreases ids@.len() - i,
    {
        assert(ids@[i as int] == all[i as int].id as u32);
        if bitmap_contains(bitmap, ids[i]) {
            return true;
        }
        i += 1;
    }
    false
}

fn covered_all(bitmap: &roaring::RoaringBitmap, fragments: &Vec<Fragment>) -> (r: bool)
    ensures
        r == covers_all(bitmap_ids(*bitmap), views(fragments@)),
{
    let ghost all = views(fragments@);
    let ids = short_ids_of(fragments);
    let mut i: usize = 0;
    while i < ids.len()
        invariant
            i <= ids@.len(),
            all == views(fragments@),
            ids@ == short_ids(all),
            forall|j: int|
                0 <= j < i ==> bitmap_ids(*bitmap).contains((#[trigger] all[j]).id as u32),
        decreases ids@.len() - i,
    {
        assert(ids@[i as int] == all[i as int].id as u32);
        if !bitmap_contains(bitmap, ids[i]) {
            return false;
        }
        i += 1;
    }
    true
}

proof fn lemma_take_set(ids: Seq<u32>, i: int)
    requires
        0 <= i < ids.len(),
    ensures
        ids.take(i + 1).to_set() == ids.take(i).to_set().insert(ids[i]),
{
    let now = ids.take(i);
    let then = ids.take(i + 1);
    assert forall|x: u32| then.contains(x) <==> now.contains(x) || x == ids[i] by {
        if now.contains(x) {
            let k = choose|k: int| 0 <= k < now.len() && now[k] == x;
            assert(then[k] == x);
        }
        if x == ids[i] {
            assert(then[i] == x);
        }
        if then.contains(x) && x != ids[i] {
            let k = choose|k: int| 0 <= k < then.len() && then[k] == x;
            assert(now[k] == x);
        }
    }
    assert(then.to_set() =~= now.to_set().insert(ids[i]));
}

/// Takes fragments out of a bitmap.
fn uncover(bitmap: &mut roaring::RoaringBitmap, fragments: &Vec<Fragment>)
    ensures
        bitmap_ids(*final(bitmap)) == bitmap_ids(*old(bitmap)).difference(
            short_ids(views(fragments@)).to_set(),
        ),
{
    let ghost before = bitmap_ids(*bitmap);
    let ids = short_ids_of(fragments);
    let mut i: usize = 0;
    assert(bitmap_ids(*bitmap) =~= before.difference(ids@.take(0).to_set()));
    while i < ids.len()
        invariant
            i <= ids@.len(),
            bitmap_ids(*bitmap) == before.difference(ids@.take(i as int).to_set()),
        decreases ids@.len() - i,
    {
        bitmap_remove(bitmap, ids[i]);
        proof {
            lemma_take_set(ids@, i as int);
            assert(bitmap_ids(*bitmap) =~= before.difference(ids@.take(i + 1).to_set()));
        }
        i += 1;
    }
    assert(ids@.take(ids@.len() as int) =~= ids@);
}

impl Transaction {
    /// What a bitmap holds after groups were rewritten.
    pub fn recalculate_fragment_bitmap(
        old_bitmap: &roaring::RoaringBitmap,
        groups: &[RewriteGroup],
    ) -> (r: Result<roaring::RoaringBitmap, Error>)
        ensures
            match r {
                Ok(b) => rewrite_bitmap(
                    bitmap_ids(*old_bitmap),
                    bitmap_ids(*old_bitmap),
                    views(groups@),
                ) == Ok::<Set<u32>, ErrorModel>(bitmap_ids(b)),
                Err(e) => rewrite_bitmap(
                    bitmap_ids(*old_bitmap),
                    bitmap_ids(*old_bitmap),
                    views(groups@),
                ) == Err::<Set<u32>, ErrorModel>(e@),
            },
    {
        let ghost before = bitmap_ids(*old_bitmap);
        let ghost all = views(groups@);
        let mut new_bitmap = copy_bitmap(old_bitmap);
        let mut i: usize = 0;
        proof {
            lemma_skip_ends(all);
        }
        while i < groups.len()
            invariant
                i <= groups@.len(),
                all == views(groups@),
                before == bitmap_ids(*old_bitmap),
                rewrite_bitmap(before, before, all) == rewrite_bitmap(
                    before,
                    bitmap_ids(new_bitmap),
                    all.skip(i as int),
                ),
            decreases groups@.len() - i,
        {
            let group = &groups[i];
            proof {
                lemma_skip_step(all, i as int);
            }
            if covered_any(old_bitmap, &group.old_fragments) {
                if covered_all(old_bitmap, &group.old_fragments) {
                    uncover(&mut new_bitmap, &group.old_fragments);
                    bitmap_extend(&mut new_bitmap, short_ids_of(&group.new_fragments));
                } else {
                    return Err(
                        Error::InvalidInput {
                            source:
                                "The compaction plan included a rewrite group that was a split of indexed and non-indexed data".to_owned(),
                        },
                    );
                }
            }
            i += 1;
        }
        proof {
            lemma_skip_ends(all);
        }
        Ok(new_bitmap)
    }
}

// Rewriting.

/// The position of the first index with an id.
pub open spec fn index_at(indices: Seq<IndexModel>, id: Uuid) -> Option<int>
    decreases indices.len(),
{
    if indices.len() == 0 {
        None
    } else if indices[0].uuid == id {
        Some(0)
    } else {
        match index_at(indices.drop_first(), id) {
            Some(i) => Some(i + 1),
            None => None,
        }
    }
}

/// An index that is found by its id has the id.
pub proof fn lemma_index_at(indices: Seq<IndexModel>, id: Uuid)
    ensures
        match index_at(indices, id) {
            Some(i) => {
                &&& 0 <= i < indices.len()
                &&& indices[i].uuid == id
                &&& forall|j: int| 0 <= j < i ==> (#[trigger] indices[j]).uuid != id
            },
            None => forall|j: int| 0 <= j < indices.len() ==> (#[trigger] indices[j]).uuid != id,
        },
    decreases indices.len(),
{
    if indices.len() > 0 && indices[0].uuid != id {
        let rest = indices.drop_first();
        lemma_index_at(rest, id);
        match index_at(rest, id) {
            Some(i) => {
                assert(rest[i] == indices[i + 1]);
                assert forall|j: int| 0 <= j < i + 1 implies (#[trigger] indices[j]).uuid != id by {
                    if j > 0 {
                        assert(rest[j - 1] == indices[j]);
                    }
                }
            },
            None => {
                assert forall|j: int| 0 <= j < indices.len() implies (#[trigger] indices[j]).uuid
                    != id by {
                    if j > 0 {
                        assert(rest[j - 1] == indices[j]);
                    }
                }
            },
        }
    }
}

fn find_index(indices: &Vec<Index>, id: Uuid) -> (r: Option<usize>)
    ensures
        match r {
            Some(i) => i < indices@.len() && index_at(views(indices@), id) == Some(i as int),
            None => index_at(views(indices@), id) is None,
        },
{
    let ghost all = views(indices@);
    let mut i: usize = 0;
    while i < indices.len()
        invariant
            i <= indices@.len(),
            all == views(indices@),
            forall|j: int| 0 <= j < i ==> (#[trigger] all[j]).uuid != id,
        decreases indices@.len() - i,
    {
        assert(all[i as int] == indices@[i as int]@);
        if indices[i].uuid == id {
            proof {
                lemma_index_at(all, id);
                let k = index_at(all, id)->0;
                assert(all[k].uuid == id);
                assert(k == i);
            }
            return Some(i);
        }
        i += 1;
    }
    proof {
        lemma_index_at(all, id);
    }
    None
}

/// The error of an index that was rewritten twice.
pub open spec fn rewritten_twice(id: Uuid) -> ErrorModel {
    ErrorModel::InvalidInput {
        source:
            "An invalid compaction plan must have been generated because multiple tasks modified the same index: "@
            + uuid_text(id.bits),
    }
}

/// The error of an index that was rewritten and is not there.
pub open spec fn no_such_index(id: Uuid) -> ErrorModel {
    ErrorModel::InvalidInput {
        source: "Invalid compaction plan refers to index "@ + uuid_text(id.bits)
            + " which does not exist"@,
    }
}

/// The error of an index that was rewritten and has no bitmap.
pub open spec fn no_bitmap(id: Uuid) -> ErrorModel {
    ErrorModel::InvalidInput {
        source: "Cannot rewrite index "@ + uuid_text(id.bits)
            + " which did not store fragment bitmap"@,
    }
}

/// The indices after those from position `k` on were rewritten one after the other,
/// and the error that ended it, if there was one.
pub open spec fn rewrite_indices(
    indices: Seq<IndexModel>,
    rewritten: Seq<RewrittenIndex>,
    k: int,
    groups: Seq<RewriteGroupModel>,
) -> (Seq<IndexModel>, Option<ErrorModel>)
    decreases rewritten.len() - k,
{
    if k < 0 || k >= rewritten.len() {
        (indices, None)
    } else {
        let id = rewritten[k].old_id;
        if exists|j: int| 0 <= j < k && (#[trigger] rewritten[j]).old_id == id {
            (indices, Some(rewritten_twice(id)))
        } else {
            match index_at(indices, id) {
                None => (indices, Some(no_such_index(id))),
                Some(i) => match indices[i].fragment_bitmap {
                    None => (indices, Some(no_bitmap(id))),
                    Some(b) => match rewrite_bitmap(b, b, groups) {
                        Err(e) => (indices, Some(e)),
                        Ok(c) => rewrite_indices(
                            indices.update(
                                i,
                                IndexModel {
                                    fragment_bitmap: Some(c),
                                    uuid: rewritten[k].new_id,
                                    ..indices[i]
                                },
                            ),
                            rewritten,
                            k + 1,
                            groups,
                        ),
                    },
                },
            }
        }
    }
}

impl Transaction {
    /// Gives rewritten indices their new ids and bitmaps.
    pub fn handle_rewrite_indices(
        indices: &mut Vec<Index>,
        rewritten_indices: &[RewrittenIndex],
        groups: &[RewriteGroup],
    ) -> (r: Result<(), Error>)
        ensures
            ({
                let out = rewrite_indices(
                    views(old(indices)@),
                    rewritten_indices@,
                    0,
                    views(groups@),
                );
                &&& views(final(indices)@) == out.0
                &&& match r {
                    Ok(_) => out.1 is None,
                    Err(e) => out.1 == Some(e@),
                }
            }),
    {
        let ghost before = views(indices@);
        let ghost all = views(groups@);
        let ghost whole = rewrite_indices(before, rewritten_indices@, 0, all);
        let mut k: usize = 0;
        while k < rewritten_indices.len()
            invariant
                k <= rewritten_indices@.len(),
                all == views(groups@),
                before == views(old(indices)@),
                whole == rewrite_indices(before, rewritten_indices@, 0, all),
                whole == rewrite_indices(views(indices@), rewritten_indices@, k as int, all),
            decreases rewritten_indices@.len() - k,
        {
            let rewritten: RewrittenIndex = rewritten_indices[k];
            let mut j: usize = 0;
            let mut twice: bool = false;
            while j < k
                invariant
                    j <= k < rewritten_indices@.len(),
                    rewritten == rewritten_indices@[k as int],
                    twice <==> exists|m: int|
                        0 <= m < j && (#[trigger] rewritten_indices@[m]).old_id
                            == rewritten.old_id,
                decreases k - j,
            {
                if rewritten_indices[j].old_id == rewritten.old_id {
                    twice = true;
                }
                j += 1;
            }
            if twice {
                return Err(
                    Error::InvalidInput {
                        source: concat(
                            "An invalid compaction plan must have been generated because multiple tasks modified the same index: ",
                            rewritten.old_id.text().as_str(),
                        ),
                    },
                );
            }
            let i = match find_index(indices, rewritten.old_id) {
                Some(i) => i,
                None => {
                    return Err(
                        Error::InvalidInput {
                            source: concat(
                                concat(
                                    "Invalid compaction plan refers to index ",
                                    rewritten.old_id.text().as_str(),
                                ).as_str(),
                                " which does not exist",
                            ),
                        },
                    );
                },
            };
            proof {
                lemma_index_at(views(indices@), rewritten.old_id);
                assert(views(indices@)[i as int] == indices@[i as int]@);
            }
            let mut index = indices[i].copied();
            let new_bitmap = match &index.fragment_bitmap {
                None => {
                    return Err(
                        Error::InvalidInput {
                            source: concat(
                                concat(
                                    "Cannot rewrite index ",
                                    index.uuid.text().as_str(),
                                ).as_str(),
                                " which did not store fragment bitmap",
                            ),
                        },
                    );
                },
                Some(bitmap) => Transaction::recalculate_fragment_bitmap(bitmap, groups),
            };
            match new_bitmap {
                Err(e) => {
                    return Err(e);
                },
                Ok(b) => {
                    index.fragment_bitmap = Some(b);
                },
            }
            index.uuid = rewritten.new_id;
            let ghost now = indices@;
            indices.set(i, index);
            assert(views(indices@) =~= views(now).update(i as int, index@));
            k += 1;
        }
        Ok(())
    }
}

/// The indices with the bitmap of each rewritten, up to the first that fails, and its
/// error.
pub open spec fn rewrite_all_bitmaps(
    indices: Seq<IndexModel>,
    groups: Seq<RewriteGroupModel>,
) -> Result<Seq<IndexModel>, ErrorModel>
    decreases indices.len(),
{
    if indices.len() == 0 {
        Ok(Seq::empty())
    } else {
        let first = match indices[0].fragment_bitmap {
            None => Ok(indices[0]),
            Some(b) => match rewrite_bitmap(b, b, groups) {
                Ok(c) => Ok(IndexModel { fragment_bitmap: Some(c), ..indices[0] }),
                Err(e) => Err(e),
            },
        };
        match first {
            Err(e) => Err(e),
            Ok(i) => match rewrite_all_bitmaps(indices.drop_first(), groups) {
                Err(e) => Err(e),
                Ok(rest) => Ok(seq![i] + rest),
            },
        }
    }
}

/// Rewrites the bitmap of every index.
pub fn recalculate_all(indices: &Vec<Index>, groups: &[RewriteGroup]) -> (r: Result<
    Vec<Index>,
    Error,
>)
    ensures
        match r {
            Ok(v) => rewrite_all_bitmaps(views(indices@), views(groups@)) == Ok::<
                Seq<IndexModel>,
                ErrorModel,
            >(views(v@)),
            Err(e) => rewrite_all_bitmaps(views(indices@), views(groups@)) == Err::<
                Seq<IndexModel>,
                ErrorModel,
            >(e@),
        },
{
    let ghost all = views(indices@);
    let ghost gs = views(groups@);
    let ghost whole = rewrite_all_bitmaps(all, gs);
    let mut out: Vec<Index> = Vec::new();
    let mut i: usize = 0;
    proof {
        lemma_skip_ends(all);
        assert(views(out@) =~= Seq::<IndexModel>::empty());
        crate::field_ops::lemma_prepend_nothing(whole);
    }
    while i < indices.len()
        invariant
            i <= indices@.len(),
            all == views(indices@),
            gs == views(groups@),
            whole == rewrite_all_bitmaps(all, gs),
            whole == crate::field_ops::prepend(
                views(out@),
                rewrite_all_bitmaps(all.skip(i as int), gs),
            ),
        decreases indices@.len() - i,
    {
        proof {
            lemma_skip_step(all, i as int);
        }
        let mut index = indices[i].copied();
        let rewritten = match &index.fragment_bitmap {
            Some(bitmap) => match Transaction::recalculate_fragment_bitmap(bitmap, groups) {
                Ok(b) => Some(b),
                Err(e) => {
                    return Err(e);
                },
            },
            None => None,
        };
        if rewritten.is_some() {
            index.fragment_bitmap = rewritten;
        }
        proof {
            lemma_views_push(out@, index);
            crate::field_ops::lemma_prepend_push(
                views(out@),
                index@,
                rewrite_all_bitmaps(all.skip(i + 1), gs),
            );
        }
        out.push(index);
        i += 1;
    }
    proof {
        lemma_skip_ends(all);
        assert(views(out@) + Seq::<IndexModel>::empty() =~= views(out@));
    }
    Ok(out)
}

// Pruning.

/// Whether an index is over one of some fields.
pub open spec fn is_over(fields: Seq<i32>, modified: Seq<u32>) -> bool {
    exists|i: int|
        0 <= i < fields.len() && (#[trigger] fields[i]) >= 0 && modified.contains(fields[i] as u32)
}

/// The indices, of which those over modified fields do not cover the updated fragments
/// any more.
pub open spec fn prune_indices(
    indices: Seq<IndexModel>,
    updated: Seq<FragmentModel>,
    modified: Seq<u32>,
) -> Seq<IndexModel> {
    Seq::new(
        indices.len(),
        |i: int|
            match indices[i].fragment_bitmap {
                Some(b) if is_over(indices[i].fields, modified) => IndexModel {
                    fragment_bitmap: Some(b.difference(short_ids(updated).to_set())),
                    ..indices[i]
                },
                _ => indices[i],
            },
    )
}

/// Whether a negative field id stands behind one that was modified wherever it occurs.
pub open spec fn ids_are_sound(fields: Seq<i32>, modified: Seq<u32>) -> bool {
    forall|i: int|
        0 <= i < fields.len() && (#[trigger] fields[i]) < 0 ==> is_over(fields.take(i), modified)
}

fn over_any(fields: &Vec<i32>, modified: &Vec<u32>) -> (r: bool)
    ensures
        r == is_over(views(fields@), views(modified@)),
{
    let ghost all = views(fields@);
    let mut i: usize = 0;
    while i < fields.len()
        invariant
            i <= fields@.len(),
            all == views(fields@),
            forall|j: int|
                0 <= j < i && (#[trigger] all[j]) >= 0 ==> !views(modified@).contains(
                    all[j] as u32,
                ),
        decreases fields@.len() - i,
    {
        assert(all[i as int] == fields@[i as int]);
        if fields[i] >= 0 && holds(modified.as_slice(), &(fields[i] as u32)) {
            return true;
        }
        i += 1;
    }
    false
}

impl Transaction {
    /// Takes updated fragments out of the indices over modified fields.
    pub fn prune_updated_fields_from_indices(
        indices: &mut Vec<Index>,
        updated_fragments: &Vec<Fragment>,
        fields_modified: &Vec<u32>,
    )
        requires
            fields_modified@.len() > 0 ==> forall|i: int|
                0 <= i < old(indices)@.len() ==> ids_are_sound(
                    (#[trigger] old(indices)@[i])@.fields,
                    views(fields_modified@),
                ),
        ensures
            views(final(indices)@) == prune_indices(
                views(old(indices)@),
                views(updated_fragments@),
                views(fields_modified@),
            ),
    {
        let ghost before = views(indices@);
        let ghost updated = views(updated_fragments@);
        let ghost modified = views(fields_modified@);
        let ghost whole = prune_indices(before, updated, modified);
        if fields_modified.len() == 0 {
            assert(whole =~= before);
            return;
        }
        let mut i: usize = 0;
        while i < indices.len()
            invariant
                i <= indices@.len(),
                indices@.len() == before.len(),
                updated == views(updated_fragments@),
                modified == views(fields_modified@),
                whole == prune_indices(before, updated, modified),
                forall|j: int| 0 <= j < i ==> (#[trigger] views(indices@)[j]) == whole[j],
                forall|j: int|
                    i <= j < before.len() ==> (#[trigger] views(indices@)[j]) == before[j],
            decreases indices@.len() - i,
        {
            let ghost now = indices@;
            assert(views(now)[i as int] == now[i as int]@);
            if over_any(&indices[i].fields, fields_modified) {
                let mut index = indices[i].copied();
                let pruned = match &index.fragment_bitmap {
                    Some(bitmap) => {
                        let mut b = copy_bitmap(bitmap);
                        uncover(&mut b, updated_fragments);
                        Some(b)
                    },
                    None => None,
                };
                index.fragment_bitmap = pruned;
                assert(index@ == whole[i as int]);
                indices.set(i, index);
                assert(views(indices@) =~= views(now).update(i as int, index@));
            }
            i += 1;
        }
        assert(views(indices@) =~= whole);
    }
}

// Retaining.

/// Whether a bitmap holds one of some fragment ids.
pub open spec fn covers_one_of(bitmap: Set<u32>, ids: Seq<u64>) -> bool {
    exists|id: u32| #[trigger] bitmap.contains(id) && ids.contains(id as u64)
}

/// Whether an index still makes sense: it is one of the system, or all its fields are in
/// the schema and it covers a fragment that is there, if it is known what it covers.
pub open spec fn is_relevant(
    index: IndexModel,
    field_ids: Seq<i32>,
    fragments: Seq<FragmentModel>,
) -> bool {
    index.system || {
        &&& forall|i: int|
            0 <= i < index.fields.len() ==> field_ids.contains(#[trigger] index.fields[i])
        &&& match index.fragment_bitmap {
            Some(b) => covers_one_of(b, fragment_ids(fragments)),
            None => true,
        }
    }
}

/// The indices that still make sense, in order.
pub open spec fn relevant_indices(
    indices: Seq<IndexModel>,
    field_ids: Seq<i32>,
    fragments: Seq<FragmentModel>,
) -> Seq<IndexModel>
    decreases indices.len(),
{
    if indices.len() == 0 {
        Seq::empty()
    } else {
        let rest = relevant_indices(indices.drop_first(), field_ids, fragments);
        if is_relevant(indices[0], field_ids, fragments) {
            seq![indices[0]] + rest
        } else {
            rest
        }
    }
}

fn holds_all(ids: &Vec<i32>, wanted: &Vec<i32>) -> (r: bool)
    ensures
        r == (forall|i: int|
            0 <= i < wanted@.len() ==> views(ids@).contains(#[trigger] views(wanted@)[i])),
{
    let mut i: usize = 0;
    while i < wanted.len()
        invariant
            i <= wanted@.len(),
            forall|j: int| 0 <= j < i ==> views(ids@).contains(#[trigger] views(wanted@)[j]),
        decreases wanted@.len() - i,
    {
        assert(views(wanted@)[i as int] == wanted@[i as int]@);
        if !holds(ids.as_slice(), &wanted[i]) {
            return false;
        }
        i += 1;
    }
    true
}

fn covers_present(bitmap: &roaring::RoaringBitmap, fragments: &Vec<u64>) -> (r: bool)
    ensures
        r == covers_one_of(bitmap_ids(*bitmap), views(fragments@)),
{
    let values = bitmap_values(bitmap);
    let mut i: usize = 0;
    while i < values.len()
        invariant
            i <= values@.len(),
            values@.to_set() == bitmap_ids(*bitmap),
            forall|j: int|
                0 <= j < i ==> !views(fragments@).contains((#[trigger] values@[j]) as u64),
        decreases values@.len() - i,
    {
        if holds(fragments.as_slice(), &(values[i] as u64)) {
            assert(values@.contains(values@[i as int]));
            assert(bitmap_ids(*bitmap).contains(values@[i as int]));
            return true;
        }
        i += 1;
    }
    assert forall|id: u32| #[trigger] bitmap_ids(*bitmap).contains(id) implies !views(
        fragments@,
    ).contains(id as u64) by {
        assert(values@.to_set().contains(id));
        let j = choose|j: int| 0 <= j < values@.len() && values@[j] == id;
        assert(!views(fragments@).contains(values@[j] as u64));
    }
    false
}

fn still_relevant(index: &Index, field_ids: &Vec<i32>, fragments: &Vec<u64>) -> (r: bool)
    ensures
        r == (index@.system || {
            &&& forall|i: int|
                0 <= i < index@.fields.len() ==> views(field_ids@).contains(
                    #[trigger] index@.fields[i],
                )
            &&& match index@.fragment_bitmap {
                Some(b) => covers_one_of(b, views(fragments@)),
                None => true,
            }
        }),
{
    if index.system {
        return true;
    }
    let fields_there = holds_all(field_ids, &index.fields);
    proof {
        let fields = index@.fields;
        assert(fields == views(index.fields@));
        if fields_there {
            assert forall|i: int| 0 <= i < fields.len() implies views(field_ids@).contains(
                #[trigger] fields[i],
            ) by {
                assert(views(field_ids@).contains(views(index.fields@)[i]));
            }
        } else {
            let i = choose|i: int|
                0 <= i < index.fields@.len() && !views(field_ids@).contains(
                    #[trigger] views(index.fields@)[i],
                );
            assert(!views(field_ids@).contains(fields[i]));
        }
    }
    if !fields_there {
        return false;
    }
    match &index.fragment_bitmap {
        Some(bitmap) => covers_present(bitmap, fragments),
        None => true,
    }
}

impl Transaction {
    /// Keeps the indices that still make sense.
    pub fn retain_relevant_indices(
        indices: &mut Vec<Index>,
        schema: &Schema,
        fragments: &Vec<Fragment>,
    )
        ensures
            views(final(indices)@) == relevant_indices(
                views(old(indices)@),
                ids_of(pre_order(schema@.fields)),
                views(fragments@),
            ),
    {
        let ghost all = views(indices@);
        let ghost frs = views(fragments@);
        let field_ids = schema.field_ids();
        let ghost ids = ids_of(pre_order(schema@.fields));
        let present = crate::fragments::ids_of_fragments(fragments);
        assert(views(field_ids@) =~= ids);
        let mut out: Vec<Index> = Vec::new();
        let mut i: usize = 0;
        proof {
            lemma_skip_ends(all);
            assert(views(out@) + relevant_indices(all, ids, frs) =~= relevant_indices(
                all,
                ids,
                frs,
            ));
        }
        while i < indices.len()
            invariant
                i <= indices@.len(),
                all == views(indices@),
                ids == views(field_ids@),
                views(present@) == fragment_ids(frs),
                relevant_indices(all, ids, frs) == views(out@) + relevant_indices(
                    all.skip(i as int),
                    ids,
                    frs,
                ),
            decreases indices@.len() - i,
        {
            proof {
                lemma_skip_step(all, i as int);
            }
            let keep = still_relevant(&indices[i], &field_ids, &present);
            assert(keep == is_relevant(indices@[i as int]@, ids, frs));
            if keep {
                let index = indices[i].copied();
                proof {
                    lemma_views_push(out@, index);
                    let rest = relevant_indices(all.skip(i + 1), ids, frs);
                    assert(views(out@) + (seq![index@] + rest) =~= views(out@.push(index)) + rest);
                }
                out.push(index);
            }
            i += 1;
        }
        proof {
            lemma_skip_ends(all);
            assert(relevant_indices(all, ids, frs) =~= views(out@));
        }
        *indices = out;
    }
}

// Replacing.

/// Whether an index has the name of one of some others.
pub open spec fn shares_name(index: IndexModel, others: Seq<IndexModel>) -> bool {
    exists|i: int| 0 <= i < others.len() && (#[trigger] others[i]).name == index.name
}

/// Whether an index has the id of one of some others.
pub open spec fn shares_id(index: IndexModel, others: Seq<IndexModel>) -> bool {
    exists|i: int| 0 <= i < others.len() && (#[trigger] others[i]).uuid == index.uuid
}

/// The indices without those that have the name of one of some, or the id of one of
/// others.
pub open spec fn indices_without(
    indices: Seq<IndexModel>,
    named: Seq<IndexModel>,
    removed: Seq<IndexModel>,
) -> Seq<IndexModel>
    decreases indices.len(),
{
    if indices.len() == 0 {
        Seq::empty()
    } else {
        let rest = indices_without(indices.drop_first(), named, removed);
        if shares_name(indices[0], named) || shares_id(indices[0], removed) {
            rest
        } else {
            seq![indices[0]] + rest
        }
    }
}

fn has_shared_name(index: &Index, others: &Vec<Index>) -> (r: bool)
    ensures
        r == shares_name(index@, views(others@)),
{
    let ghost all = views(others@);
    let mut i: usize = 0;
    while i < others.len()
        invariant
            i <= others@.len(),
            all == views(others@),
            forall|j: int| 0 <= j < i ==> (#[trigger] all[j]).name != index@.name,
        decreases others@.len() - i,
    {
        assert(all[i as int] == others@[i as int]@);
        if others[i].name == index.name {
            return true;
        }
        i += 1;
    }
    false
}

fn has_shared_id(index: &Index, others: &Vec<Index>) -> (r: bool)
    ensures
        r == shares_id(index@, views(others@)),
{
    let ghost all = views(others@);
    let mut i: usize = 0;
    while i < others.len()
        invariant
            i <= others@.len(),
            all == views(others@),
            forall|j: int| 0 <= j < i ==> (#[trigger] all[j]).uuid != index@.uuid,
        decreases others@.len() - i,
    {
        assert(all[i as int] == others@[i as int]@);
        if others[i].uuid == index.uuid {
            return true;
        }
        i += 1;
    }
    false
}

/// Copies the indices without those that have the name of one of some, or the id of
/// one of others.
pub fn drop_indices(indices: &Vec<Index>, named: &Vec<Index>, removed: &Vec<Index>) -> (r: Vec<
    Index,
>)
    ensures
        views(r@) == indices_without(views(indices@), views(named@), views(removed@)),
{
    let ghost all = views(indices@);
    let ghost a = views(named@);
    let ghost b = views(removed@);
    let mut out: Vec<Index> = Vec::new();
    let mut i: usize = 0;
    proof {
        lemma_skip_ends(all);
        assert(views(out@) + indices_without(all, a, b) =~= indices_without(all, a, b));
    }
    while i < indices.len()
        invariant
            i <= indices@.len(),
            all == views(indices@),
            a == views(named@),
            b == views(removed@),
            indices_without(all, a, b) == views(out@) + indices_without(all.skip(i as int), a, b),
        decreases indices@.len() - i,
    {
        proof {
            lemma_skip_step(all, i as int);
        }
        if !has_shared_name(&indices[i], named) && !has_shared_id(&indices[i], removed) {
            let index = indices[i].copied();
            proof {
                lemma_views_push(out@, index);
                let rest = indices_without(all.skip(i + 1), a, b);
                assert(views(out@) + (seq![index@] + rest) =~= views(out@.push(index)) + rest);
            }
            out.push(index);
        }
        i += 1;
    }
    proof {
        lemma_skip_ends(all);
        assert(indices_without(all, a, b) =~= views(out@));
    }
    out
}

} // verus!
